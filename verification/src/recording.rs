//! Binary recording format: a mission name followed by length-prefixed
//! Frame sub-streams.
//!
//! All quantized wire values are carried as their raw fixed-point integers:
//! an angle is the unsigned 16-bit value that scales by pi/32768 into
//! [0, 2*pi), and a movement axis is the 6-bit value that maps through
//! `raw/16 - 1`. [`decode_angle`] and [`encode_angle`]
//! convert between the wire value and the signed angle unit count used by
//! the script layer.

use vstd::prelude::*;
use vstd::arithmetic::power2::{pow2, lemma2_to64};
use vstd::arithmetic::div_mod::lemma_fundamental_div_mod;
use crate::bit_stream::{BitStream, stream_bit, bits_val, bytes_at, str_body, lemma_bits_val_agree,
    lemma_bits_val_bound};
use vstd::utf8::{valid_utf8, decode_utf8, encode_utf8};
use crate::error::CodecError;

verus! {

broadcast use crate::bit_stream::lemma_pos_nonneg, crate::bit_stream::lemma_frontier_bounds;

/// One player's per-frame input sample. Angles are raw 16-bit wire values;
/// `mx`, `my`, `mz` are raw 6-bit wire values (below 64).
#[derive(Debug, Clone, Copy, PartialEq)]
pub struct Move {
    pub yaw: Option<u16>,
    pub pitch: Option<u16>,
    pub roll: Option<u16>,
    pub mx: u8,
    pub my: u8,
    pub mz: u8,
    pub freelook: bool,
    pub triggers: [bool; 6],
}

/// One recorded time step: up to two Moves plus a 10-bit delta time in
/// milliseconds.
#[derive(Debug, Clone, Copy, PartialEq)]
pub struct Frame {
    pub moves: [Option<Move>; 2],
    pub delta: u16,
}

/// A decoded binary replay: mission name plus Frame sequence.
#[derive(Debug, Clone, PartialEq)]
pub struct Recording {
    pub mission: String,
    pub frames: Vec<Frame>,
}

/// The signed angle unit count of a raw 16-bit wire angle: values at or
/// above 32768 (an angle at or above pi) wrap down by 65536 into [-pi, pi).
pub open spec fn spec_decode_angle(raw: u16) -> int {
    if raw >= 32768 {
        raw - 65536
    } else {
        raw as int
    }
}

/// The raw 16-bit wire value of a signed angle unit count in
/// [-32768, 32767]: negative counts wrap up by 65536.
pub open spec fn spec_encode_angle(units: int) -> int {
    if units < 0 {
        units + 65536
    } else {
        units
    }
}

/// Maps a raw 16-bit wire angle to its signed unit count (units of
/// pi/32768, in [-32768, 32767]).
pub fn decode_angle(raw: u16) -> (r: i32)
    ensures
        r == spec_decode_angle(raw),
        -32768 <= r <= 32767,
{
    if raw >= 32768 {
        (raw as i32) - 65536
    } else {
        raw as i32
    }
}

/// Maps a signed angle unit count back to its raw 16-bit wire value.
pub fn encode_angle(units: i32) -> (r: u16)
    requires
        -32768 <= units <= 32767,
    ensures
        r == spec_encode_angle(units as int),
{
    if units < 0 {
        (units + 65536) as u16
    } else {
        units as u16
    }
}

/// A raw angle decodes and re-encodes to itself, and a signed unit count
/// encodes and decodes back to itself: the fixed-point angle round trip is
/// exact.
pub proof fn lemma_angle_roundtrip(raw: u16, units: int)
    requires
        -32768 <= units <= 32767,
    ensures
        spec_encode_angle(spec_decode_angle(raw)) == raw,
        spec_decode_angle(spec_encode_angle(units) as u16) == units,
{
}

impl Move {
    /// Wire validity: the three movement axes fit in 6 bits.
    pub open spec fn wf(self) -> bool {
        self.mx < 64 && self.my < 64 && self.mz < 64
    }

    /// The packed width of this Move, in bits.
    pub open spec fn spec_len(self) -> int {
        (if self.yaw is Some {
            17int
        } else {
            1int
        }) + (if self.pitch is Some {
            17int
        } else {
            1int
        }) + (if self.roll is Some {
            17int
        } else {
            1int
        }) + 25
    }
}

/// Decodes one optional angle (a presence bit, then 16 raw bits) at bit
/// `p`, giving the value and the next position, or `None` at end of data.
pub open spec fn spec_read_opt_angle(d: Seq<u8>, p: int) -> Option<(Option<u16>, int)> {
    if p + 1 > 8 * d.len() {
        None
    } else if !stream_bit(d, p) {
        Some((None, p + 1))
    } else if p + 17 <= 8 * d.len() {
        Some((Some(bits_val(d, p + 1, 16) as u16), p + 17))
    } else {
        None
    }
}

/// Decodes one Move at bit `p`: three optional angles, three 6-bit axes,
/// one free-look bit and six trigger bits.
#[verifier::opaque]
pub open spec fn spec_read_move(d: Seq<u8>, p: int) -> Option<(Move, int)> {
    match spec_read_opt_angle(d, p) {
        None => None,
        Some((yaw, p1)) => match spec_read_opt_angle(d, p1) {
            None => None,
            Some((pitch, p2)) => match spec_read_opt_angle(d, p2) {
                None => None,
                Some((roll, p3)) => if p3 + 25 <= 8 * d.len() {
                    Some(
                        (
                            Move {
                                yaw,
                                pitch,
                                roll,
                                mx: bits_val(d, p3, 6) as u8,
                                my: bits_val(d, p3 + 6, 6) as u8,
                                mz: bits_val(d, p3 + 12, 6) as u8,
                                freelook: stream_bit(d, p3 + 18),
                                triggers: [
                                    stream_bit(d, p3 + 19),
                                    stream_bit(d, p3 + 20),
                                    stream_bit(d, p3 + 21),
                                    stream_bit(d, p3 + 22),
                                    stream_bit(d, p3 + 23),
                                    stream_bit(d, p3 + 24),
                                ],
                            },
                            p3 + 25,
                        ),
                    )
                } else {
                    None
                },
            },
        },
    }
}

impl Move {
    /// Reads one Move from the stream at its cursor.
    pub fn from_stream(bs: &mut BitStream) -> (r: Result<Move, CodecError>)
        requires
            old(bs).inv(),
        ensures
            final(bs).inv(),
            final(bs).bytes_view() == old(bs).bytes_view(),
            old(bs).pos() <= final(bs).pos(),
            spec_read_move(old(bs).bytes_view(), old(bs).pos()) matches Some((m, e)) ==> (
            r matches Ok(v) && v == m && final(bs).pos() == e && m.wf() && e == old(bs).pos()
                + m.spec_len()),
            spec_read_move(old(bs).bytes_view(), old(bs).pos()) is None ==> r == Err::<
                Move,
                CodecError,
            >(CodecError::EndOfData),
    {
        proof {
            reveal(spec_read_move);
        }
        let ghost d = old(bs).bytes_view();
        let ghost p = old(bs).pos();
        let yaw = match Move::read_opt_angle(bs) {
            Ok(v) => v,
            Err(e) => {
                return Err(e);
            },
        };
        let pitch = match Move::read_opt_angle(bs) {
            Ok(v) => v,
            Err(e) => {
                return Err(e);
            },
        };
        let roll = match Move::read_opt_angle(bs) {
            Ok(v) => v,
            Err(e) => {
                return Err(e);
            },
        };
        let ghost p3 = bs.pos();
        let mx = match bs.read_bits_u8(6) {
            Ok(v) => v,
            Err(e) => {
                return Err(e);
            },
        };
        let my = match bs.read_bits_u8(6) {
            Ok(v) => v,
            Err(e) => {
                return Err(e);
            },
        };
        let mz = match bs.read_bits_u8(6) {
            Ok(v) => v,
            Err(e) => {
                return Err(e);
            },
        };
        proof {
            lemma2_to64();
            lemma_bits_val_bound(d, p3, 6);
            lemma_bits_val_bound(d, p3 + 6, 6);
            lemma_bits_val_bound(d, p3 + 12, 6);
        }
        let freelook = match bs.read_bool() {
            Ok(v) => v,
            Err(e) => {
                return Err(e);
            },
        };
        let mut triggers = [false; 6];
        let t0 = match bs.read_bool() {
            Ok(v) => v,
            Err(e) => {
                return Err(e);
            },
        };
        let t1 = match bs.read_bool() {
            Ok(v) => v,
            Err(e) => {
                return Err(e);
            },
        };
        let t2 = match bs.read_bool() {
            Ok(v) => v,
            Err(e) => {
                return Err(e);
            },
        };
        let t3 = match bs.read_bool() {
            Ok(v) => v,
            Err(e) => {
                return Err(e);
            },
        };
        let t4 = match bs.read_bool() {
            Ok(v) => v,
            Err(e) => {
                return Err(e);
            },
        };
        let t5 = match bs.read_bool() {
            Ok(v) => v,
            Err(e) => {
                return Err(e);
            },
        };
        triggers = [t0, t1, t2, t3, t4, t5];
        Ok(Move { yaw, pitch, roll, mx, my, mz, freelook, triggers })
    }

    /// Reads one optional angle: a presence bit, then 16 raw bits if set.
    fn read_opt_angle(bs: &mut BitStream) -> (r: Result<Option<u16>, CodecError>)
        requires
            old(bs).inv(),
        ensures
            final(bs).inv(),
            final(bs).bytes_view() == old(bs).bytes_view(),
            old(bs).pos() <= final(bs).pos(),
            spec_read_opt_angle(old(bs).bytes_view(), old(bs).pos()) matches Some((a, e)) ==> (
            r matches Ok(v) && v == a && final(bs).pos() == e),
            spec_read_opt_angle(old(bs).bytes_view(), old(bs).pos()) is None ==> r == Err::<
                Option<u16>,
                CodecError,
            >(CodecError::EndOfData),
    {
        let present = match bs.read_bool() {
            Ok(v) => v,
            Err(e) => {
                return Err(e);
            },
        };
        if present {
            match bs.read_bits_u16(16) {
                Ok(v) => Ok(Some(v)),
                Err(e) => Err(e),
            }
        } else {
            Ok(None)
        }
    }

    /// Writes one optional angle: a presence bit, then 16 raw bits if set.
    fn write_opt_angle(bs: &mut BitStream, a: Option<u16>) -> (r: Result<(), CodecError>)
        requires
            old(bs).write_frontier(),
            old(bs).bytes_view().len() + 4 < usize::MAX,
        ensures
            r == Ok::<(), CodecError>(()),
            final(bs).write_frontier(),
            final(bs).pos() == old(bs).pos() + (if a is Some {
                17int
            } else {
                1int
            }),
            final(bs).bytes_view().len() <= old(bs).bytes_view().len() + 3,
            forall|i: int|
                0 <= i < old(bs).pos() ==> stream_bit(final(bs).bytes_view(), i) == stream_bit(
                    old(bs).bytes_view(),
                    i,
                ),
            spec_read_opt_angle(final(bs).bytes_view(), old(bs).pos()) == Some(
                (a, final(bs).pos()),
            ),
    {
        match a {
            Some(v) => {
                let r1 = bs.write_bool(true);
                let ghost d1 = bs.bytes_view();
                let r2 = bs.write_bits_u16(v, 16);
                proof {
                    lemma2_to64();
                    assert(stream_bit(bs.bytes_view(), old(bs).pos()) == stream_bit(
                        d1,
                        old(bs).pos(),
                    ));
                    assert(stream_bit(d1, old(bs).pos()));
                    lemma_bits_val_bound(bs.bytes_view(), old(bs).pos() + 1, 16);
                    assert(bits_val(bs.bytes_view(), old(bs).pos() + 1, 16) == v);
                    let d2 = bs.bytes_view();
                    let p0 = old(bs).pos();
                    assert(p0 + 1 <= 8 * d2.len());
                    assert(stream_bit(d2, p0));
                    assert(p0 + 17 <= 8 * d2.len());
                    assert(bits_val(d2, p0 + 1, 16) as u16 == v);
                    assert(spec_read_opt_angle(d2, p0) == Some((Some(v), p0 + 17)));
                    assert(bs.pos() == p0 + 17);
                }
                r2
            },
            None => {
                let r1 = bs.write_bool(false);
                r1
            },
        }
    }

    /// Writes this Move onto the stream. Fails with a range error when a
    /// movement axis does not fit in 6 bits; the bits already written stay.
    #[verifier::rlimit(100)]
    pub fn into_stream(self, bs: &mut BitStream) -> (r: Result<(), CodecError>)
        requires
            old(bs).write_frontier(),
            old(bs).bytes_view().len() + 32 < usize::MAX,
        ensures
            final(bs).write_frontier(),
            old(bs).pos() <= final(bs).pos(),
            final(bs).bytes_view().len() <= old(bs).bytes_view().len() + 24,
            forall|i: int|
                0 <= i < old(bs).pos() ==> stream_bit(final(bs).bytes_view(), i) == stream_bit(
                    old(bs).bytes_view(),
                    i,
                ),
            self.wf() ==> {
                &&& r == Ok::<(), CodecError>(())
                &&& final(bs).pos() == old(bs).pos() + self.spec_len()
                &&& spec_read_move(final(bs).bytes_view(), old(bs).pos()) == Some(
                    (self, final(bs).pos()),
                )
            },
            !self.wf() ==> r == Err::<(), CodecError>(CodecError::BitRange),
    {
        let ghost p = old(bs).pos();
        match Move::write_opt_angle(bs, self.yaw) {
            Ok(_) => {},
            Err(e) => {
                return Err(e);
            },
        }
        let ghost s1 = *bs;
        match Move::write_opt_angle(bs, self.pitch) {
            Ok(_) => {},
            Err(e) => {
                return Err(e);
            },
        }
        let ghost s2 = *bs;
        match Move::write_opt_angle(bs, self.roll) {
            Ok(_) => {},
            Err(e) => {
                return Err(e);
            },
        }
        let ghost s3 = *bs;
        proof {
            lemma2_to64();
        }
        match bs.write_bits_u8(self.mx, 6) {
            Ok(_) => {},
            Err(e) => {
                return Err(e);
            },
        }
        let ghost s4 = *bs;
        match bs.write_bits_u8(self.my, 6) {
            Ok(_) => {},
            Err(e) => {
                return Err(e);
            },
        }
        let ghost s5 = *bs;
        match bs.write_bits_u8(self.mz, 6) {
            Ok(_) => {},
            Err(e) => {
                return Err(e);
            },
        }
        let ghost s6 = *bs;
        let r7 = bs.write_bool(self.freelook);
        let ghost s7 = *bs;
        let r8 = Move::write_trigger_bits(bs, self.triggers);
        proof {
            reveal(spec_read_move);
            let d = bs.bytes_view();
            let p3 = s3.pos();
            // earlier regions are untouched by the later writes
            assert(spec_read_opt_angle(d, p) == Some((self.yaw, s1.pos()))) by {
                lemma_opt_angle_agree(s1.bytes_view(), d, p, self.yaw, s1.pos());
            }
            assert(spec_read_opt_angle(d, s1.pos()) == Some((self.pitch, s2.pos()))) by {
                lemma_opt_angle_agree(s2.bytes_view(), d, s1.pos(), self.pitch, s2.pos());
            }
            assert(spec_read_opt_angle(d, s2.pos()) == Some((self.roll, p3))) by {
                lemma_opt_angle_agree(s3.bytes_view(), d, s2.pos(), self.roll, p3);
            }
            assert(bits_val(d, p3, 6) == self.mx) by {
                lemma_bits_val_agree(d, s4.bytes_view(), p3, 6);
            }
            assert(bits_val(d, p3 + 6, 6) == self.my) by {
                lemma_bits_val_agree(d, s5.bytes_view(), p3 + 6, 6);
            }
            assert(bits_val(d, p3 + 12, 6) == self.mz) by {
                lemma_bits_val_agree(d, s6.bytes_view(), p3 + 12, 6);
            }
            assert(stream_bit(d, s6.pos()) == self.freelook);
            assert(s6.pos() == p3 + 18 && s7.pos() == p3 + 19);
            assert(stream_bit(d, s7.pos() + 0) == self.triggers[0]);
            assert(stream_bit(d, s7.pos() + 1) == self.triggers[1]);
            assert(stream_bit(d, s7.pos() + 2) == self.triggers[2]);
            assert(stream_bit(d, s7.pos() + 3) == self.triggers[3]);
            assert(stream_bit(d, s7.pos() + 4) == self.triggers[4]);
            assert(stream_bit(d, s7.pos() + 5) == self.triggers[5]);
            assert(stream_bit(d, p3 + 18) == self.freelook);
            assert(stream_bit(d, p3 + 19) == self.triggers[0]);
            assert(stream_bit(d, p3 + 20) == self.triggers[1]);
            assert(stream_bit(d, p3 + 21) == self.triggers[2]);
            assert(stream_bit(d, p3 + 22) == self.triggers[3]);
            assert(stream_bit(d, p3 + 23) == self.triggers[4]);
            assert(stream_bit(d, p3 + 24) == self.triggers[5]);
            broadcast use vstd::array::axiom_array_ext_equal;

            assert(spec_read_move(d, p) matches Some((m, e)) ==> m.triggers =~= self.triggers);
            assert(spec_read_move(d, p) matches Some((m, e)) && m == self && e == bs.pos());
        }
        r8
    }

    /// Writes the six trigger bits in their fixed order.
    fn write_trigger_bits(bs: &mut BitStream, t: [bool; 6]) -> (r: Result<(), CodecError>)
        requires
            old(bs).write_frontier(),
            old(bs).bytes_view().len() + 8 < usize::MAX,
        ensures
            r == Ok::<(), CodecError>(()),
            final(bs).write_frontier(),
            final(bs).pos() == old(bs).pos() + 6,
            old(bs).bytes_view().len() <= final(bs).bytes_view().len() <= old(bs).bytes_view().len()
                + 6,
            forall|i: int|
                0 <= i < old(bs).pos() ==> stream_bit(final(bs).bytes_view(), i) == stream_bit(
                    old(bs).bytes_view(),
                    i,
                ),
            forall|k: int|
                0 <= k < 6 ==> stream_bit(final(bs).bytes_view(), old(bs).pos() + k) == t[k],
    {
        let r0 = bs.write_bool(t[0]);
        let r1 = bs.write_bool(t[1]);
        let r2 = bs.write_bool(t[2]);
        let r3 = bs.write_bool(t[3]);
        let r4 = bs.write_bool(t[4]);
        let r5 = bs.write_bool(t[5]);
        r5
    }
}


/// Decoding one Move looks only at the bits it consumes: the result
/// survives later writes and buffer growth.
pub proof fn lemma_move_agree(d1: Seq<u8>, d2: Seq<u8>, p: int, m: Move, e: int)
    requires
        spec_read_move(d1, p) == Some((m, e)),
        d1.len() <= d2.len(),
        forall|i: int| p <= i < e ==> stream_bit(d2, i) == stream_bit(d1, i),
    ensures
        spec_read_move(d2, p) == Some((m, e)),
{
    reveal(spec_read_move);
    let (yaw, p1) = spec_read_opt_angle(d1, p).unwrap();
    let (pitch, p2) = spec_read_opt_angle(d1, p1).unwrap();
    let (roll, p3) = spec_read_opt_angle(d1, p2).unwrap();
    lemma_opt_angle_agree(d1, d2, p, yaw, p1);
    lemma_opt_angle_agree(d1, d2, p1, pitch, p2);
    lemma_opt_angle_agree(d1, d2, p2, roll, p3);
    lemma_bits_val_agree(d2, d1, p3, 6);
    lemma_bits_val_agree(d2, d1, p3 + 6, 6);
    lemma_bits_val_agree(d2, d1, p3 + 12, 6);
}

/// Decodes one optional Move: a presence bit, then a Move if set.
#[verifier::opaque]
pub open spec fn spec_read_opt_move(d: Seq<u8>, p: int) -> Option<(Option<Move>, int)> {
    if p + 1 > 8 * d.len() {
        None
    } else if !stream_bit(d, p) {
        Some((None, p + 1))
    } else {
        match spec_read_move(d, p + 1) {
            None => None,
            Some((m, e)) => Some((Some(m), e)),
        }
    }
}

/// Decodes one Frame: two optional Moves, then a 10-bit delta time.
#[verifier::opaque]
pub open spec fn spec_read_frame(d: Seq<u8>, p: int) -> Option<(Frame, int)> {
    match spec_read_opt_move(d, p) {
        None => None,
        Some((m0, p1)) => match spec_read_opt_move(d, p1) {
            None => None,
            Some((m1, p2)) => if p2 + 10 <= 8 * d.len() {
                Some((Frame { moves: [m0, m1], delta: bits_val(d, p2, 10) as u16 }, p2 + 10))
            } else {
                None
            },
        },
    }
}

/// Decoding one Frame looks only at the bits it consumes.
pub proof fn lemma_frame_agree(d1: Seq<u8>, d2: Seq<u8>, p: int, f: Frame, e: int)
    requires
        spec_read_frame(d1, p) == Some((f, e)),
        d1.len() <= d2.len(),
        forall|i: int| p <= i < e ==> stream_bit(d2, i) == stream_bit(d1, i),
    ensures
        spec_read_frame(d2, p) == Some((f, e)),
{
    reveal(spec_read_frame);
    reveal(spec_read_opt_move);
    broadcast use lemma_move_shape;

    let (m0, p1) = spec_read_opt_move(d1, p).unwrap();
    let (m1, p2) = spec_read_opt_move(d1, p1).unwrap();
    if stream_bit(d1, p) {
        let (mv, _) = spec_read_move(d1, p + 1).unwrap();
        lemma_move_agree(d1, d2, p + 1, mv, p1);
    }
    if stream_bit(d1, p1) {
        let (mv, _) = spec_read_move(d1, p1 + 1).unwrap();
        lemma_move_agree(d1, d2, p1 + 1, mv, p2);
    }
    lemma_bits_val_agree(d2, d1, p2, 10);
}

impl Frame {
    /// Wire validity: the delta time fits in 10 bits and both present Moves
    /// are valid.
    pub open spec fn wf(self) -> bool {
        &&& self.delta < 1024
        &&& (self.moves[0] matches Some(m) ==> m.wf())
        &&& (self.moves[1] matches Some(m) ==> m.wf())
    }

    /// The packed width of this Frame, in bits.
    pub open spec fn spec_len(self) -> int {
        (match self.moves[0] {
            Some(m) => 1 + m.spec_len(),
            None => 1,
        }) + (match self.moves[1] {
            Some(m) => 1 + m.spec_len(),
            None => 1,
        }) + 10
    }

    /// True when either Move slot is present.
    pub fn has_move(&self) -> (r: bool)
        ensures
            r == (self.moves[0] is Some || self.moves[1] is Some),
    {
        self.moves[0].is_some() || self.moves[1].is_some()
    }

    /// Reads one Frame from the stream at its cursor.
    pub fn from_stream(bs: &mut BitStream) -> (r: Result<Frame, CodecError>)
        requires
            old(bs).inv(),
        ensures
            final(bs).inv(),
            final(bs).bytes_view() == old(bs).bytes_view(),
            old(bs).pos() <= final(bs).pos(),
            spec_read_frame(old(bs).bytes_view(), old(bs).pos()) matches Some((f, e)) ==> (
            r matches Ok(v) && v == f && final(bs).pos() == e && f.wf() && e == old(bs).pos()
                + f.spec_len()),
            spec_read_frame(old(bs).bytes_view(), old(bs).pos()) is None ==> r == Err::<
                Frame,
                CodecError,
            >(CodecError::EndOfData),
    {
        proof {
            reveal(spec_read_frame);
            broadcast use lemma_opt_move_shape;

        }
        let ghost d = old(bs).bytes_view();
        let ghost p = old(bs).pos();
        let move0 = match Frame::read_opt_move(bs) {
            Ok(v) => v,
            Err(e) => {
                return Err(e);
            },
        };
        let move1 = match Frame::read_opt_move(bs) {
            Ok(v) => v,
            Err(e) => {
                return Err(e);
            },
        };
        let ghost p2 = bs.pos();
        let delta = match bs.read_bits_u16(10) {
            Ok(v) => v,
            Err(e) => {
                return Err(e);
            },
        };
        proof {
            lemma2_to64();
            lemma_bits_val_bound(d, p2, 10);
        }
        Ok(Frame { moves: [move0, move1], delta })
    }

    /// Reads one optional Move: a presence bit, then a Move if set.
    fn read_opt_move(bs: &mut BitStream) -> (r: Result<Option<Move>, CodecError>)
        requires
            old(bs).inv(),
        ensures
            final(bs).inv(),
            final(bs).bytes_view() == old(bs).bytes_view(),
            old(bs).pos() <= final(bs).pos(),
            spec_read_opt_move(old(bs).bytes_view(), old(bs).pos()) matches Some((m, e)) ==> (
            r matches Ok(v) && v == m && final(bs).pos() == e && (m matches Some(mv) ==> mv.wf())),
            spec_read_opt_move(old(bs).bytes_view(), old(bs).pos()) is None ==> r == Err::<
                Option<Move>,
                CodecError,
            >(CodecError::EndOfData),
    {
        proof {
            reveal(spec_read_opt_move);
            broadcast use lemma_move_shape;

        }
        let present = match bs.read_bool() {
            Ok(v) => v,
            Err(e) => {
                return Err(e);
            },
        };
        if present {
            match Move::from_stream(bs) {
                Ok(v) => Ok(Some(v)),
                Err(e) => Err(e),
            }
        } else {
            Ok(None)
        }
    }

    /// Writes one optional Move: a presence bit, then the Move if set.
    fn write_opt_move(bs: &mut BitStream, m: Option<Move>) -> (r: Result<(), CodecError>)
        requires
            old(bs).write_frontier(),
            old(bs).bytes_view().len() + 64 < usize::MAX,
        ensures
            final(bs).write_frontier(),
            old(bs).pos() <= final(bs).pos(),
            final(bs).bytes_view().len() <= old(bs).bytes_view().len() + 32,
            forall|i: int|
                0 <= i < old(bs).pos() ==> stream_bit(final(bs).bytes_view(), i) == stream_bit(
                    old(bs).bytes_view(),
                    i,
                ),
            (m matches Some(mv) && !mv.wf()) ==> r == Err::<(), CodecError>(CodecError::BitRange),
            (m matches Some(mv) ==> mv.wf()) ==> {
                &&& r == Ok::<(), CodecError>(())
                &&& spec_read_opt_move(final(bs).bytes_view(), old(bs).pos()) == Some(
                    (m, final(bs).pos()),
                )
            },
    {
        proof {
            reveal(spec_read_opt_move);
            broadcast use lemma_move_shape;

        }
        let ghost p = old(bs).pos();
        match m {
            Some(mv) => {
                let r1 = bs.write_bool(true);
                let ghost s1 = *bs;
                let r2 = mv.into_stream(bs);
                proof {
                    if mv.wf() {
                        assert(stream_bit(bs.bytes_view(), p) == stream_bit(s1.bytes_view(), p));
                        assert(stream_bit(s1.bytes_view(), p));
                    }
                }
                r2
            },
            None => {
                let r1 = bs.write_bool(false);
                r1
            },
        }
    }

    /// Writes this Frame onto the stream. Fails with a range error when the
    /// delta time or a movement axis does not fit its wire width.
    #[verifier::rlimit(100)]
    pub fn into_stream(self, bs: &mut BitStream) -> (r: Result<(), CodecError>)
        requires
            old(bs).write_frontier(),
            old(bs).bytes_view().len() + 128 < usize::MAX,
        ensures
            final(bs).write_frontier(),
            old(bs).pos() <= final(bs).pos(),
            final(bs).bytes_view().len() <= old(bs).bytes_view().len() + 64,
            forall|i: int|
                0 <= i < old(bs).pos() ==> stream_bit(final(bs).bytes_view(), i) == stream_bit(
                    old(bs).bytes_view(),
                    i,
                ),
            self.wf() ==> {
                &&& r == Ok::<(), CodecError>(())
                &&& final(bs).pos() == old(bs).pos() + self.spec_len()
                &&& spec_read_frame(final(bs).bytes_view(), old(bs).pos()) == Some(
                    (self, final(bs).pos()),
                )
            },
            !self.wf() ==> r == Err::<(), CodecError>(CodecError::BitRange),
    {
        let ghost p = old(bs).pos();
        let m0 = self.moves[0];
        let m1 = self.moves[1];
        match Frame::write_opt_move(bs, m0) {
            Ok(_) => {},
            Err(e) => {
                return Err(e);
            },
        }
        let ghost s1 = *bs;
        match Frame::write_opt_move(bs, m1) {
            Ok(_) => {},
            Err(e) => {
                return Err(e);
            },
        }
        let ghost s2 = *bs;
        proof {
            lemma2_to64();
        }
        match bs.write_bits_u16(self.delta, 10) {
            Ok(_) => {},
            Err(e) => {
                return Err(e);
            },
        }
        proof {
            reveal(spec_read_frame);
            broadcast use lemma_opt_move_shape;

            if self.wf() {
                let d = bs.bytes_view();
                assert(spec_read_opt_move(d, p) == Some((m0, s1.pos()))) by {
                    lemma_opt_move_agree(s1.bytes_view(), d, p, m0, s1.pos());
                }
                assert(spec_read_opt_move(d, s1.pos()) == Some((m1, s2.pos()))) by {
                    lemma_opt_move_agree(s2.bytes_view(), d, s1.pos(), m1, s2.pos());
                }
                assert(bits_val(d, s2.pos(), 10) == self.delta);
                assert(self.moves == [m0, m1]);
                assert(spec_read_frame(d, p) matches Some((f, e)) && f == self && e == bs.pos());
            }
        }
        Ok(())
    }
}

/// Decoding one optional Move looks only at the bits it consumes.
pub proof fn lemma_opt_move_agree(d1: Seq<u8>, d2: Seq<u8>, p: int, m: Option<Move>, e: int)
    requires
        spec_read_opt_move(d1, p) == Some((m, e)),
        d1.len() <= d2.len(),
        forall|i: int| p <= i < e ==> stream_bit(d2, i) == stream_bit(d1, i),
    ensures
        spec_read_opt_move(d2, p) == Some((m, e)),
{
    reveal(spec_read_opt_move);
    broadcast use lemma_move_shape;

    if stream_bit(d1, p) {
        let (mv, _) = spec_read_move(d1, p + 1).unwrap();
        lemma_move_agree(d1, d2, p + 1, mv, e);
    }
}



/// A decoded Move ends exactly its packed width past its start, inside the
/// buffer, and is wire-valid.
pub broadcast proof fn lemma_move_shape(d: Seq<u8>, p: int)
    ensures
        (#[trigger] spec_read_move(d, p)) matches Some((m, e)) ==> m.wf() && e == p + m.spec_len()
            && p + 27 <= e <= 8 * d.len(),
{
    reveal(spec_read_move);
    if spec_read_move(d, p) is Some {
        let (yaw, p1) = spec_read_opt_angle(d, p).unwrap();
        let (pitch, p2) = spec_read_opt_angle(d, p1).unwrap();
        let (roll, p3) = spec_read_opt_angle(d, p2).unwrap();
        lemma2_to64();
        lemma_bits_val_bound(d, p3, 6);
        lemma_bits_val_bound(d, p3 + 6, 6);
        lemma_bits_val_bound(d, p3 + 12, 6);
    }
}

/// A decoded optional Move ends inside the buffer, past its presence bit.
pub broadcast proof fn lemma_opt_move_shape(d: Seq<u8>, p: int)
    ensures
        (#[trigger] spec_read_opt_move(d, p)) matches Some((m, e)) ==> (m matches Some(mv) ==>
        mv.wf()) && e == p + 1 + (match m {
            Some(mv) => mv.spec_len(),
            None => 0,
        }) && p + 1 <= e <= 8 * d.len(),
{
    reveal(spec_read_opt_move);
    broadcast use lemma_move_shape;

}

/// A decoded Frame ends exactly its packed width past its start, inside the
/// buffer, and is wire-valid.
pub broadcast proof fn lemma_frame_shape(d: Seq<u8>, p: int)
    ensures
        (#[trigger] spec_read_frame(d, p)) matches Some((f, e)) ==> f.wf() && e == p
            + f.spec_len() && p + 12 <= e <= 8 * d.len(),
{
    reveal(spec_read_frame);
    broadcast use lemma_opt_move_shape;

    if spec_read_frame(d, p) is Some {
        let (m0, p1) = spec_read_opt_move(d, p).unwrap();
        let (m1, p2) = spec_read_opt_move(d, p1).unwrap();
        lemma2_to64();
        lemma_bits_val_bound(d, p2, 10);
    }
}

/// Decodes the frame list: repeated one-byte lengths, each followed by that
/// many blob bytes holding one packed Frame. A zero length or running out
/// of bytes ends the list; a blob that does not decode fails the whole
/// list.
#[verifier::opaque]
pub open spec fn spec_read_frame_list(d: Seq<u8>, p: int) -> Option<Seq<Frame>>
    decreases 8 * d.len() - p,
{
    if p < 0 || p + 8 > 8 * d.len() {
        Some(Seq::empty())
    } else {
        let l = bits_val(d, p, 8) as int;
        if l == 0 {
            Some(Seq::empty())
        } else if p + 8 + 8 * l > 8 * d.len() {
            Some(Seq::empty())
        } else {
            match spec_read_frame(bytes_at(d, p + 8, l as nat), 0) {
                None => None,
                Some((f, _)) => match spec_read_frame_list(d, p + 8 + 8 * l) {
                    None => None,
                    Some(rest) => Some(seq![f] + rest),
                },
            }
        }
    }
}

/// The length byte a frame record carries: the packed width in bytes,
/// rounded up, floored at four.
pub open spec fn spec_frame_record_len(f: Frame) -> int {
    if (f.spec_len() + 7) / 8 < 4 {
        4int
    } else {
        (f.spec_len() + 7) / 8
    }
}

/// Every bit of a frame record's blob past the frame's packed width is
/// zero: the tail of the last packed byte and the whole zero pad bytes.
pub open spec fn record_pad_zero(d: Seq<u8>, s: int, f: Frame) -> bool {
    forall|q: int|
        f.spec_len() <= q < 8 * spec_frame_record_len(f) ==> !(#[trigger] stream_bit(d, s + 8 + q))
}

/// The frame section's full layout: the records sit back to back from
/// `pm`, each a length byte of exactly [`spec_frame_record_len`] followed
/// by that many blob bytes which decode to the frame and are zero past its
/// packed width, and the last record ends exactly at the end of the
/// buffer, with no terminating zero byte and nothing after it.
pub open spec fn frame_layout(d: Seq<u8>, pm: int, starts: Seq<int>, frames: Seq<Frame>) -> bool {
    &&& starts.len() == frames.len() + 1
    &&& starts[0] == pm
    &&& starts[frames.len() as int] == 8 * d.len()
    &&& forall|k: int|
        0 <= k < frames.len() ==> frame_region_ok(d, #[trigger] starts[k], frames[k])
    &&& forall|k: int|
        0 <= k < frames.len() ==> bits_val(d, #[trigger] starts[k], 8) == spec_frame_record_len(
            frames[k],
        )
    &&& forall|k: int|
        0 <= k < frames.len() ==> #[trigger] starts[k + 1] == starts[k] + 8 + 8
            * spec_frame_record_len(frames[k])
    &&& forall|k: int| 0 <= k < frames.len() ==> record_pad_zero(d, #[trigger] starts[k], frames[k])
}

/// One frame record sits at bit `s` of `d`: a nonzero length byte, a blob
/// that fits in the buffer and decodes to `f`.
pub open spec fn frame_region_ok(d: Seq<u8>, s: int, f: Frame) -> bool {
    let l = bits_val(d, s, 8) as int;
    &&& 0 <= s
    &&& 1 <= l
    &&& s + 8 + 8 * l <= 8 * d.len()
    &&& (spec_read_frame(bytes_at(d, s + 8, l as nat), 0) matches Some((g, _)) && g == f)
}

/// Composes per-frame records laid end to end, the last ending exactly at
/// the end of the buffer, into one decoded frame list.
#[verifier::rlimit(100)]
pub proof fn lemma_frame_list_compose(d: Seq<u8>, starts: Seq<int>, frames: Seq<Frame>, j: int)
    requires
        starts.len() == frames.len() + 1,
        0 <= j <= frames.len(),
        forall|k: int|
            0 <= k < frames.len() ==> frame_region_ok(d, #[trigger] starts[k], frames[k]),
        forall|k: int|
            0 <= k < frames.len() ==> #[trigger] starts[k + 1] == starts[k] + 8 + 8 * (bits_val(
                d,
                starts[k],
                8,
            ) as int),
        starts[frames.len() as int] == 8 * d.len(),
    ensures
        spec_read_frame_list(d, starts[j]) == Some(frames.skip(j)),
    decreases frames.len() - j,
{
    reveal(spec_read_frame_list);
    if j == frames.len() {
        assert(frames.skip(j) =~= Seq::empty());
    } else {
        lemma_frame_list_compose(d, starts, frames, j + 1);
        assert(frame_region_ok(d, starts[j], frames[j]));
        let l = bits_val(d, starts[j], 8) as int;
        assert(starts[j + 1] == starts[j] + 8 + 8 * l);
        assert(spec_read_frame_list(d, starts[j + 1]) == Some(frames.skip(j + 1)));
        assert(seq![frames[j]] + frames.skip(j + 1) =~= frames.skip(j));
    }
}

impl Recording {
    /// Wire validity: the mission name fits its one-byte length prefix and
    /// every Frame fits its wire widths.
    pub open spec fn wf(self) -> bool {
        &&& encode_utf8(self.mission@).len() <= 255
        &&& forall|i: int| 0 <= i < self.frames@.len() ==> (#[trigger] self.frames@[i]).wf()
    }

    /// Reads a whole Recording: the mission string, then frames until a
    /// zero length byte or the end of the data. A frame list cut off in the
    /// middle of a blob yields the frames decoded so far, without error.
    #[verifier::rlimit(100)]
    #[verifier::loop_isolation(false)]
    pub fn from_stream(bs: &mut BitStream) -> (r: Result<Recording, CodecError>)
        requires
            old(bs).inv(),
            old(bs).pos() % 8 == 0,
            old(bs).pos() >= 0,
        ensures
            final(bs).inv(),
            final(bs).bytes_view() == old(bs).bytes_view(),
            old(bs).pos() <= final(bs).pos(),
            old(bs).pos() + 8 > old(bs).bit_len() ==> r == Err::<Recording, CodecError>(
                CodecError::EndOfData,
            ),
            old(bs).pos() + 8 <= old(bs).bit_len() && old(bs).pos() + 8 + 8 * bits_val(
                old(bs).bytes_view(),
                old(bs).pos(),
                8,
            ) > old(bs).bit_len() ==> r == Err::<Recording, CodecError>(CodecError::EndOfData),
            old(bs).pos() + 8 + 8 * bits_val(old(bs).bytes_view(), old(bs).pos(), 8) <= old(
                bs,
            ).bit_len() && !valid_utf8(str_body(old(bs).bytes_view(), old(bs).pos())) ==> r
                == Err::<Recording, CodecError>(CodecError::Utf8),
            old(bs).pos() + 8 + 8 * bits_val(old(bs).bytes_view(), old(bs).pos(), 8) <= old(
                bs,
            ).bit_len() && valid_utf8(str_body(old(bs).bytes_view(), old(bs).pos())) ==> {
                let pm = old(bs).pos() + 8 + 8 * bits_val(
                    old(bs).bytes_view(),
                    old(bs).pos(),
                    8,
                );
                &&& (spec_read_frame_list(old(bs).bytes_view(), pm) matches Some(frames) ==> (
                r matches Ok(rec) && rec.mission@ == decode_utf8(
                    str_body(old(bs).bytes_view(), old(bs).pos()),
                ) && rec.frames@ == frames))
                &&& (spec_read_frame_list(old(bs).bytes_view(), pm) is None ==> r == Err::<
                    Recording,
                    CodecError,
                >(CodecError::EndOfData))
            },
    {
        let ghost d = old(bs).bytes_view();
        let ghost p = old(bs).pos();
        let mission = match bs.read_string() {
            Ok(m) => m,
            Err(e) => {
                return Err(e);
            },
        };
        let ghost pm = bs.pos();
        let mut frames: Vec<Frame> = Vec::new();

        while !bs.eof()
            invariant
                bs.inv(),
                d == old(bs).bytes_view(),
                bs.bytes_view() == d,
                old(bs).pos() <= bs.pos(),
                bs.pos() % 8 == 0,
                bs.pos() >= 0,
                spec_read_frame_list(d, bs.pos()) matches Some(rest) ==> spec_read_frame_list(
                    d,
                    pm,
                ) == Some(frames@ + rest),
                spec_read_frame_list(d, bs.pos()) is None ==> spec_read_frame_list(d, pm) is None,
            decreases 8 * d.len() - bs.pos(),
        {
            let ghost cur = bs.pos();
            let length = match bs.read_u8() {
                Ok(v) => v,
                Err(e) => {
                    return Err(e);
                },
            };
            if length == 0 {
                proof {
                    reveal(spec_read_frame_list);
                    assert(spec_read_frame_list(d, cur) == Some(Seq::<Frame>::empty()));
                    assert(frames@ + Seq::<Frame>::empty() =~= frames@);
                }
                break ;
            }
            let ghost l = length as int;
            let mut data: Vec<u8> = Vec::new();
            let mut i: u8 = 0;
            let mut truncated = false;
            while i < length
                invariant
                    i <= length,
                    bs.inv(),
                    bs.bytes_view() == d,
                    old(bs).pos() <= bs.pos(),
                    bs.pos() <= 8 * d.len(),
                    !truncated ==> bs.pos() == cur + 8 + 8 * i,
                    bs.pos() % 8 == 0,
                    cur + 8 <= 8 * d.len(),
                    cur >= 0,
                    l == length as int,
                    !truncated ==> data@ =~= bytes_at(d, cur + 8, i as nat),
                    truncated ==> cur + 8 + 8 * l > 8 * d.len(),
                decreases length - i,
            {
                if bs.eof() {
                    truncated = true;
                    proof {
                        assert(cur + 8 + 8 * l >= cur + 8 + 8 * (i + 1));
                    }
                    break ;
                }
                let b = match bs.read_u8() {
                    Ok(v) => v,
                    Err(e) => {
                        return Err(e);
                    },
                };
                data.push(b);
                i = i + 1;
            }
            if truncated {
                proof {
                    reveal(spec_read_frame_list);
                    assert(spec_read_frame_list(d, cur) == Some(Seq::<Frame>::empty()));
                    assert(frames@ + Seq::<Frame>::empty() =~= frames@);
                }
                return Ok(Recording { mission, frames });
            }
            proof {
                assert(data@ =~= bytes_at(d, cur + 8, l as nat));
            }
            let mut inner_stream = BitStream::new(data);
            let frame = match Frame::from_stream(&mut inner_stream) {
                Ok(f) => f,
                Err(e) => {
                    proof {
                        reveal(spec_read_frame_list);
                        assert(spec_read_frame_list(d, cur) is None);
                    }
                    return Err(e);
                },
            };
            frames.push(frame);
            proof {
                reveal(spec_read_frame_list);
                let rest0 = spec_read_frame_list(d, cur);
                let rest1 = spec_read_frame_list(d, cur + 8 + 8 * l);
                if rest1 is Some {
                    assert(rest0 == Some(seq![frame] + rest1.unwrap()));
                    assert(frames@ + rest1.unwrap() =~= frames@.subrange(0, frames@.len() - 1) + (
                    seq![frame] + rest1.unwrap()));
                }
            }
        }
        proof {
            if bs.pos() >= 8 * d.len() {
                reveal(spec_read_frame_list);
                assert(spec_read_frame_list(d, bs.pos()) == Some(Seq::<Frame>::empty()));
                assert(frames@ + Seq::<Frame>::empty() =~= frames@);
            }
        }
        Ok(Recording { mission, frames })
    }
}


/// Decoding one optional angle looks only at the bits it consumes: the
/// result survives later writes and buffer growth.
pub proof fn lemma_opt_angle_agree(d1: Seq<u8>, d2: Seq<u8>, p: int, a: Option<u16>, e: int)
    requires
        spec_read_opt_angle(d1, p) == Some((a, e)),
        d1.len() <= d2.len(),
        forall|i: int| p <= i < e ==> stream_bit(d2, i) == stream_bit(d1, i),
    ensures
        spec_read_opt_angle(d2, p) == Some((a, e)),
{
    if stream_bit(d1, p) {
        lemma_bits_val_agree(d2, d1, p + 1, 16);
    }
}

/// Bytes of a written region seen through `bytes_at` carry the same bits as
/// the blob they were copied from, so the region decodes like the blob.
proof fn lemma_blob_bits(d: Seq<u8>, at: int, blob: Seq<u8>, len: int)
    requires
        blob.len() <= len,
        0 <= at,
        forall|t: int| 0 <= t < blob.len() ==> bits_val(d, at + 8 * t, 8) == #[trigger] blob[t],
    ensures
        forall|q: int|
            0 <= q < 8 * blob.len() ==> stream_bit(bytes_at(d, at, len as nat), q) == stream_bit(
                blob,
                q,
            ),
{
    let padded = bytes_at(d, at, len as nat);
    assert forall|q: int| 0 <= q < 8 * blob.len() implies stream_bit(padded, q) == stream_bit(
        blob,
        q,
    ) by {
        lemma_fundamental_div_mod(q, 8);
        let k = q / 8;
        assert(0 <= k < blob.len());
        assert(padded[k] == bits_val(d, at + 8 * k, 8) as u8);
        assert(padded[k] == blob[k]);
    }
}

/// A frame record is kept intact by writes that only touch bits past it.
proof fn lemma_region_preserved(dprev: Seq<u8>, d: Seq<u8>, s: int, f: Frame, hi: int)
    requires
        frame_region_ok(dprev, s, f),
        s + 8 + 8 * (bits_val(dprev, s, 8) as int) <= hi,
        dprev.len() <= d.len(),
        forall|q: int| 0 <= q < hi ==> stream_bit(d, q) == stream_bit(dprev, q),
    ensures
        frame_region_ok(d, s, f),
        bits_val(d, s, 8) == bits_val(dprev, s, 8),
{
    lemma_bits_val_agree(d, dprev, s, 8);
    let l = bits_val(dprev, s, 8) as int;
    assert(bytes_at(d, s + 8, l as nat) =~= bytes_at(dprev, s + 8, l as nat)) by {
        assert forall|t: int| 0 <= t < l implies #[trigger] bits_val(d, s + 8 + 8 * t, 8)
            == bits_val(dprev, s + 8 + 8 * t, 8) by {
            lemma_bits_val_agree(d, dprev, s + 8 + 8 * t, 8);
        }
    }
}


/// Bits of a byte-level prefix agree with the original buffer.
proof fn lemma_take_bits(d: Seq<u8>, cb: int)
    requires
        0 <= cb <= d.len(),
    ensures
        forall|q: int| 0 <= q < 8 * cb ==> stream_bit(d.take(cb), q) == stream_bit(d, q),
{
    assert forall|q: int| 0 <= q < 8 * cb implies stream_bit(d.take(cb), q) == stream_bit(
        d,
        q,
    ) by {
        lemma_fundamental_div_mod(q, 8);
        assert(q / 8 < cb);
    }
}

/// Truncating a laid-out frame list in the middle of its last record, past
/// that record's length byte, decodes to exactly the earlier frames, with
/// no error: the cut-off record is dropped and everything before it is
/// kept.
pub proof fn lemma_frame_list_truncation(
    d: Seq<u8>,
    starts: Seq<int>,
    frames: Seq<Frame>,
    cb: int,
    j: int,
)
    requires
        starts.len() == frames.len() + 1,
        frames.len() >= 1,
        0 <= j <= frames.len() - 1,
        forall|k: int|
            0 <= k < frames.len() ==> frame_region_ok(d, #[trigger] starts[k], frames[k]),
        forall|k: int|
            0 <= k < frames.len() ==> #[trigger] starts[k + 1] == starts[k] + 8 + 8 * (bits_val(
                d,
                starts[k],
                8,
            ) as int),
        forall|k: int|
            0 <= k <= frames.len() - 1 ==> #[trigger] starts[k] <= starts[frames.len() - 1],
        starts[frames.len() as int] == 8 * d.len(),
        starts[frames.len() - 1] + 8 <= 8 * cb < 8 * d.len(),
    ensures
        spec_read_frame_list(d.take(cb), starts[j]) == Some(frames.skip(j).drop_last()),
    decreases frames.len() - j,
{
    reveal(spec_read_frame_list);
    let dt = d.take(cb);
    lemma_take_bits(d, cb);
    let n = frames.len() as int;
    let p = starts[j];
    let l = bits_val(d, p, 8) as int;
    assert(frame_region_ok(d, p, frames[j]));
    assert(p + 8 <= 8 * cb);
    lemma_bits_val_agree(dt, d, p, 8);
    if j == n - 1 {
        // the cut falls inside this record: the decoder stops cleanly
        assert(starts[j + 1] == p + 8 + 8 * l);
        assert(p + 8 + 8 * l == starts[n]);
        assert(p + 8 + 8 * l > 8 * dt.len());
        assert(frames.skip(j).drop_last() =~= Seq::<Frame>::empty());
    } else {
        lemma_frame_list_truncation(d, starts, frames, cb, j + 1);
        assert(starts[j + 1] == p + 8 + 8 * l);
        assert(starts[j + 1] <= starts[n - 1]);
        assert(p + 8 + 8 * l <= 8 * dt.len());
        assert(bytes_at(dt, p + 8, l as nat) =~= bytes_at(d, p + 8, l as nat)) by {
            assert forall|t: int| 0 <= t < l implies #[trigger] bits_val(dt, p + 8 + 8 * t, 8)
                == bits_val(d, p + 8 + 8 * t, 8) by {
                lemma_bits_val_agree(dt, d, p + 8 + 8 * t, 8);
            }
        }
        assert(seq![frames[j]] + frames.skip(j + 1).drop_last() =~= frames.skip(j).drop_last());
    }
}


/// Record starts never run backward: each lies at or before the last
/// record's start.
proof fn lemma_starts_below_last(d: Seq<u8>, starts: Seq<int>, frames: Seq<Frame>, k: int)
    requires
        starts.len() == frames.len() + 1,
        frames.len() >= 1,
        0 <= k <= frames.len() - 1,
        forall|t: int|
            0 <= t < frames.len() ==> #[trigger] starts[t + 1] == starts[t] + 8 + 8
                * spec_frame_record_len(frames[t]),
    ensures
        starts[k] <= starts[frames.len() - 1],
    decreases frames.len() - 1 - k,
{
    if k < frames.len() - 1 {
        assert(starts[k + 1] == starts[k] + 8 + 8 * spec_frame_record_len(frames[k]));
        assert(spec_frame_record_len(frames[k]) >= 4);
        lemma_starts_below_last(d, starts, frames, k + 1);
    }
}

/// Truncation tolerance, from the encoder's published layout: cutting the
/// encoded buffer anywhere inside the last record, past its length byte,
/// decodes to exactly the earlier frames, with no error.
pub proof fn lemma_truncated_encoding(
    d: Seq<u8>,
    pm: int,
    starts: Seq<int>,
    frames: Seq<Frame>,
    cb: int,
)
    requires
        frame_layout(d, pm, starts, frames),
        frames.len() >= 1,
        starts[frames.len() - 1] + 8 <= 8 * cb < 8 * d.len(),
    ensures
        spec_read_frame_list(d.take(cb), pm) == Some(frames.drop_last()),
{
    assert forall|k: int| 0 <= k <= frames.len() - 1 implies #[trigger] starts[k]
        <= starts[frames.len() - 1] by {
        lemma_starts_below_last(d, starts, frames, k);
    }
    assert forall|k: int| 0 <= k < frames.len() implies #[trigger] starts[k + 1] == starts[k] + 8
        + 8 * (bits_val(d, starts[k], 8) as int) by {
        assert(bits_val(d, starts[k], 8) == spec_frame_record_len(frames[k]));
    }
    lemma_frame_list_truncation(d, starts, frames, cb, 0);
    assert(frames.skip(0).drop_last() =~= frames.drop_last());
    assert(starts[0] == pm);
}

impl Recording {
    /// Packs one Frame into its own blob, pads it with zero bytes up to
    /// four, and writes it behind a one-byte length.
    #[verifier::rlimit(100)]
    #[verifier::loop_isolation(false)]
    fn write_frame_blob(bs: &mut BitStream, frame: Frame) -> (r: Result<(), CodecError>)
        requires
            old(bs).write_frontier(),
            old(bs).pos() == 8 * old(bs).bytes_view().len(),
            old(bs).bytes_view().len() + 300 < usize::MAX,
        ensures
            final(bs).write_frontier(),
            old(bs).pos() <= final(bs).pos(),
            final(bs).bytes_view().len() <= old(bs).bytes_view().len() + 257,
            final(bs).pos() == 8 * final(bs).bytes_view().len(),
            forall|i: int|
                0 <= i < old(bs).pos() ==> stream_bit(final(bs).bytes_view(), i) == stream_bit(
                    old(bs).bytes_view(),
                    i,
                ),
            frame.wf() ==> {
                &&& r == Ok::<(), CodecError>(())
                &&& frame_region_ok(final(bs).bytes_view(), old(bs).pos(), frame)
                &&& final(bs).pos() == old(bs).pos() + 8 + 8 * (bits_val(
                    final(bs).bytes_view(),
                    old(bs).pos(),
                    8,
                ) as int)
                &&& bits_val(final(bs).bytes_view(), old(bs).pos(), 8) == spec_frame_record_len(
                    frame,
                )
                &&& record_pad_zero(final(bs).bytes_view(), old(bs).pos(), frame)
            },
            !frame.wf() ==> r == Err::<(), CodecError>(CodecError::BitRange),
    {
        let ghost d0 = old(bs).bytes_view();
        let ghost cur = old(bs).pos();
        let mut inner_stream = BitStream::new(Vec::new());
        match frame.into_stream(&mut inner_stream) {
            Ok(_) => {},
            Err(e) => {
                return Err(e);
            },
        }
        let ghost blob = inner_stream.bytes_view();
        let ghost flen = frame.spec_len();
        proof {
            if frame.wf() {
                crate::bit_stream::lemma_frontier_tail_zero(inner_stream);
            }
        }
        let bytes = inner_stream.bytes();
        let blen = bytes.len();
        proof {
            if frame.wf() {
                assert(flen <= 164);
                assert(8 * blob.len() < flen + 8);
                assert(flen <= 8 * blob.len());
                assert(blob.len() <= 21);
                // the blob holds exactly the packed width, rounded up
                vstd::arithmetic::div_mod::lemma_fundamental_div_mod_converse(
                    flen + 7,
                    8,
                    blob.len() as int,
                    flen + 7 - 8 * blob.len(),
                );
                assert((flen + 7) / 8 == blob.len());
            }
        }
        let len = if blen < 4 {
            4
        } else {
            blen
        };
        let extra = len - blen;
        match bs.write_u8(len as u8) {
            Ok(_) => {},
            Err(e) => {
                return Err(e);
            },
        }
        let mut j: usize = 0;
        while j < bytes.len()
            invariant
                j <= bytes@.len(),
                bytes@ == blob,
                bs.write_frontier(),
                bs.pos() == 8 * bs.bytes_view().len(),
                bs.pos() == cur + 8 + 8 * j,
                bs.bytes_view().len() <= d0.len() + 1 + j,
                forall|q: int| 0 <= q < cur ==> stream_bit(bs.bytes_view(), q) == stream_bit(d0, q),
                bits_val(bs.bytes_view(), cur, 8) == len,
                forall|t: int|
                    0 <= t < j ==> bits_val(bs.bytes_view(), cur + 8 + 8 * t, 8) == bytes@[t],
            decreases bytes@.len() - j,
        {
            let ghost dmid = bs.bytes_view();
            let b = bytes[j];
            match bs.write_u8(b) {
                Ok(_) => {},
                Err(e) => {
                    return Err(e);
                },
            }
            proof {
                let dcur = bs.bytes_view();
                lemma_bits_val_agree(dcur, dmid, cur, 8);
                assert forall|t: int| 0 <= t < j implies bits_val(dcur, cur + 8 + 8 * t, 8)
                    == bytes@[t] by {
                    lemma_bits_val_agree(dcur, dmid, cur + 8 + 8 * t, 8);
                }
            }
            j = j + 1;
        }
        let mut x: usize = 0;
        while x < extra
            invariant
                x <= extra,
                extra == len - blob.len(),
                bytes@ == blob,
                blob.len() <= len,
                bs.write_frontier(),
                bs.pos() == 8 * bs.bytes_view().len(),
                bs.pos() == cur + 8 + 8 * (blob.len() + x),
                bs.bytes_view().len() <= d0.len() + 1 + blob.len() + x,
                forall|q: int| 0 <= q < cur ==> stream_bit(bs.bytes_view(), q) == stream_bit(d0, q),
                bits_val(bs.bytes_view(), cur, 8) == len,
                forall|t: int|
                    0 <= t < blob.len() ==> bits_val(bs.bytes_view(), cur + 8 + 8 * t, 8)
                        == bytes@[t],
                forall|t: int|
                    blob.len() <= t < blob.len() + x ==> #[trigger] bits_val(
                        bs.bytes_view(),
                        cur + 8 + 8 * t,
                        8,
                    ) == 0,
            decreases extra - x,
        {
            let ghost dmid = bs.bytes_view();
            match bs.write_u8(0) {
                Ok(_) => {},
                Err(e) => {
                    return Err(e);
                },
            }
            proof {
                let dcur = bs.bytes_view();
                lemma_bits_val_agree(dcur, dmid, cur, 8);
                assert forall|t: int| 0 <= t < blob.len() implies bits_val(
                    dcur,
                    cur + 8 + 8 * t,
                    8,
                ) == bytes@[t] by {
                    lemma_bits_val_agree(dcur, dmid, cur + 8 + 8 * t, 8);
                }
                assert forall|t: int| blob.len() <= t < blob.len() + x + 1 implies #[trigger] bits_val(
                    dcur,
                    cur + 8 + 8 * t,
                    8,
                ) == 0 by {
                    if t < blob.len() + x {
                        lemma_bits_val_agree(dcur, dmid, cur + 8 + 8 * t, 8);
                    }
                }
            }
            x = x + 1;
        }
        proof {
            if frame.wf() {
                let d = bs.bytes_view();
                let padded = bytes_at(d, cur + 8, len as nat);
                lemma_blob_bits(d, cur + 8, blob, len as int);
                lemma_frame_agree(blob, padded, 0, frame, flen);
                assert(frame_region_ok(d, cur, frame));
                assert forall|q: int| flen <= q < 8 * spec_frame_record_len(frame) implies !(
                #[trigger] stream_bit(d, cur + 8 + q)) by {
                    lemma_fundamental_div_mod(q, 8);
                    let t = q / 8;
                    let i = q % 8;
                    vstd::arithmetic::power2::lemma_pow2_pos(i as nat);
                    crate::bit_stream::lemma_bits_val_to_bits(d, cur + 8 + 8 * t, 8, i);
                    if t < blob.len() {
                        crate::bit_stream::lemma_byte_extract(blob, t);
                        crate::bit_stream::lemma_bits_val_to_bits(blob, 8 * t, 8, i);
                        assert(!stream_bit(blob, 8 * t + i));
                    } else {
                        assert(bits_val(d, cur + 8 + 8 * t, 8) == 0);
                        assert(0nat / pow2(i as nat) == 0) by (nonlinear_arith)
                            requires
                                pow2(i as nat) >= 1,
                        ;
                    }
                }
                assert(record_pad_zero(d, cur, frame));
            }
        }
        Ok(())
    }

    /// Writes a whole Recording: the mission string, then each Frame packed
    /// into its own length-prefixed blob, padded with zero bytes up to a
    /// four-byte floor. No terminating zero length byte is emitted. Fails
    /// with a range error when a Frame does not fit its wire widths.
    #[verifier::rlimit(100)]
    #[verifier::loop_isolation(false)]
    pub fn into_stream(self, bs: &mut BitStream) -> (r: Result<(), CodecError>)
        requires
            old(bs).write_frontier(),
            old(bs).pos() == 8 * old(bs).bytes_view().len(),
            encode_utf8(self.mission@).len() <= 255,
            old(bs).bytes_view().len() + 300 + 300 * self.frames@.len() < usize::MAX,
        ensures
            final(bs).write_frontier(),
            old(bs).pos() <= final(bs).pos(),
            forall|i: int|
                0 <= i < old(bs).pos() ==> stream_bit(final(bs).bytes_view(), i) == stream_bit(
                    old(bs).bytes_view(),
                    i,
                ),
            self.wf() ==> {
                &&& r == Ok::<(), CodecError>(())
                &&& old(bs).pos() + 8 + 8 * encode_utf8(self.mission@).len() <= final(bs).pos()
                &&& bits_val(final(bs).bytes_view(), old(bs).pos(), 8) == encode_utf8(
                    self.mission@,
                ).len()
                &&& bytes_at(
                    final(bs).bytes_view(),
                    old(bs).pos() + 8,
                    encode_utf8(self.mission@).len(),
                ) == encode_utf8(self.mission@)
                &&& spec_read_frame_list(
                    final(bs).bytes_view(),
                    old(bs).pos() + 8 + 8 * encode_utf8(self.mission@).len(),
                ) == Some(self.frames@)
                &&& exists|starts: Seq<int>|
                    #[trigger] frame_layout(
                        final(bs).bytes_view(),
                        old(bs).pos() + 8 + 8 * encode_utf8(self.mission@).len(),
                        starts,
                        self.frames@,
                    )
            },
            !self.wf() ==> r == Err::<(), CodecError>(CodecError::BitRange),
    {
        let ghost d0 = old(bs).bytes_view();
        let ghost p = old(bs).pos();
        let ghost mlen = encode_utf8(self.mission@).len() as int;
        match bs.write_string(self.mission) {
            Ok(_) => {},
            Err(e) => {
                return Err(e);
            },
        }
        let ghost pm = bs.pos();
        let ghost mut starts: Seq<int> = seq![pm];
        let mut i: usize = 0;
        while i < self.frames.len()
            invariant
                i <= self.frames@.len(),
                bs.write_frontier(),
                bs.pos() == 8 * bs.bytes_view().len(),
                pm <= bs.pos(),
                bs.bytes_view().len() <= d0.len() + 257 + 257 * i,
                forall|q: int| 0 <= q < p ==> stream_bit(bs.bytes_view(), q) == stream_bit(d0, q),
                bits_val(bs.bytes_view(), p, 8) == mlen,
                bytes_at(bs.bytes_view(), p + 8, mlen as nat) == encode_utf8(self.mission@),
                forall|k: int| 0 <= k < i ==> (#[trigger] self.frames@[k]).wf(),
                starts.len() == i + 1,
                starts[0] == pm,
                starts[i as int] == bs.pos(),
                forall|k: int| 0 <= k <= i ==> #[trigger] starts[k] <= bs.pos(),
                forall|k: int| 0 <= k <= i ==> #[trigger] starts[k] >= pm,
                forall|k: int|
                    0 <= k < i ==> frame_region_ok(
                        bs.bytes_view(),
                        #[trigger] starts[k],
                        self.frames@[k],
                    ),
                forall|k: int|
                    0 <= k < i ==> #[trigger] starts[k + 1] == starts[k] + 8 + 8 * (bits_val(
                        bs.bytes_view(),
                        starts[k],
                        8,
                    ) as int),
                forall|k: int|
                    0 <= k < i ==> #[trigger] bits_val(bs.bytes_view(), starts[k], 8)
                        == spec_frame_record_len(self.frames@[k]),
                forall|k: int|
                    0 <= k < i ==> record_pad_zero(
                        bs.bytes_view(),
                        #[trigger] starts[k],
                        self.frames@[k],
                    ),
            decreases self.frames@.len() - i,
        {
            let ghost dprev = bs.bytes_view();
            let ghost cur = bs.pos();
            let frame = self.frames[i];
            match Recording::write_frame_blob(bs, frame) {
                Ok(_) => {},
                Err(e) => {
                    return Err(e);
                },
            }
            proof {
                let d = bs.bytes_view();
                assert forall|k: int| 0 <= k < i implies frame_region_ok(
                    d,
                    #[trigger] starts[k],
                    self.frames@[k],
                ) && bits_val(d, starts[k], 8) == bits_val(dprev, starts[k], 8) by {
                    assert(starts[k + 1] <= cur);
                    lemma_region_preserved(dprev, d, starts[k], self.frames@[k], cur);
                }
                assert forall|k: int| 0 <= k < i implies record_pad_zero(
                    d,
                    #[trigger] starts[k],
                    self.frames@[k],
                ) by {
                    assert(starts[k + 1] <= cur);
                    assert forall|q: int|
                        self.frames@[k].spec_len() <= q < 8 * spec_frame_record_len(
                            self.frames@[k],
                        ) implies !(#[trigger] stream_bit(d, starts[k] + 8 + q)) by {
                        assert(starts[k] + 8 + q < cur);
                        assert(stream_bit(d, starts[k] + 8 + q) == stream_bit(
                            dprev,
                            starts[k] + 8 + q,
                        ));
                    }
                }
                assert(bits_val(d, p, 8) == mlen) by {
                    lemma_bits_val_agree(d, dprev, p, 8);
                }
                assert(bytes_at(d, p + 8, mlen as nat) =~= bytes_at(dprev, p + 8, mlen as nat))
                    by {
                    assert forall|t: int| 0 <= t < mlen implies #[trigger] bits_val(
                        d,
                        p + 8 + 8 * t,
                        8,
                    ) == bits_val(dprev, p + 8 + 8 * t, 8) by {
                        lemma_bits_val_agree(d, dprev, p + 8 + 8 * t, 8);
                    }
                }
                starts = starts.push(bs.pos());
            }
            i = i + 1;
        }
        proof {
            if self.wf() {
                lemma_frame_list_compose(bs.bytes_view(), starts, self.frames@, 0);
                assert(self.frames@.skip(0) =~= self.frames@);
                assert(frame_layout(bs.bytes_view(), pm, starts, self.frames@));
            }
        }
        Ok(())
    }
}

} // verus!
