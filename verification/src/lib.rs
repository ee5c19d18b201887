//! Conversion between a bit-packed binary game-replay format and a
//! human-editable text scripting format.
//!
//! The crate has three layers: a bit-level stream codec ([`bit_stream`]),
//! the binary recording format built on it ([`recording`]), and the text
//! script parser and printer ([`tas_rec`]). All values that the wire format
//! quantizes (camera angles, movement axes) are carried as their raw
//! fixed-point integers; [`num`] holds the decimal-number conversions the
//! text format needs.

pub mod error;
pub mod bit_stream;
pub mod recording;
pub mod num;
pub mod tas_rec;
pub mod timefmt;

use vstd::prelude::*;
use vstd::utf8::{valid_utf8, decode_utf8, encode_utf8};
use crate::bit_stream::{BitStream, bits_val, bytes_at, str_body};
use crate::recording::{Recording, spec_read_frame_list, frame_layout};
use crate::tas_rec::{TasFile, Sequence, flatten_frames, spec_parse_text, spec_strip, seq_model};
use crate::error::{CodecError, ParseError, Rule};
use crate::recording::Frame;

verus! {

broadcast use vstd::utf8::encode_utf8_valid_utf8, vstd::utf8::encode_utf8_decode_utf8, crate::bit_stream::lemma_frontier_bounds;

/// Decodes a binary replay. A stream cut off in the middle of a frame blob
/// yields the frames decoded so far rather than an error.
pub fn decode_recording(bytes: Vec<u8>) -> (r: Result<Recording, CodecError>)
    ensures
        bytes@.len() < 1 ==> r == Err::<Recording, CodecError>(CodecError::EndOfData),
        8 + 8 * bits_val(bytes@, 0, 8) <= 8 * bytes@.len() && !valid_utf8(str_body(bytes@, 0))
            ==> r == Err::<Recording, CodecError>(CodecError::Utf8),
        8 + 8 * bits_val(bytes@, 0, 8) <= 8 * bytes@.len() && valid_utf8(str_body(bytes@, 0))
            ==> {
            &&& (spec_read_frame_list(bytes@, (8 + 8 * bits_val(bytes@, 0, 8)) as int) matches Some(
                frames,
            ) ==> (r matches Ok(rec) && rec.mission@ == decode_utf8(str_body(bytes@, 0))
                && rec.frames@ == frames))
            &&& (spec_read_frame_list(bytes@, (8 + 8 * bits_val(bytes@, 0, 8)) as int) is None ==> r
                == Err::<Recording, CodecError>(CodecError::EndOfData))
        },
{
    let mut bs = BitStream::new(bytes);
    Recording::from_stream(&mut bs)
}

/// Encodes a Recording into its binary form. Decoding the result
/// reconstructs the same mission and frame list: the ensured facts are
/// exactly what [`decode_recording`] needs to return this Recording again.
pub fn encode_recording(rec: Recording) -> (r: Vec<u8>)
    requires
        rec.wf(),
        300 + 300 * rec.frames@.len() < usize::MAX,
    ensures
        bits_val(r@, 0, 8) == encode_utf8(rec.mission@).len(),
        str_body(r@, 0) == encode_utf8(rec.mission@),
        valid_utf8(str_body(r@, 0)),
        decode_utf8(str_body(r@, 0)) == rec.mission@,
        spec_read_frame_list(r@, (8 + 8 * encode_utf8(rec.mission@).len()) as int) == Some(rec.frames@),
        exists|starts: Seq<int>|
            #[trigger] frame_layout(
                r@,
                (8 + 8 * encode_utf8(rec.mission@).len()) as int,
                starts,
                rec.frames@,
            ),
        8 + 8 * encode_utf8(rec.mission@).len() <= 8 * r@.len(),
{
    let ghost mission = rec.mission@;
    let mut bs = BitStream::new(Vec::new());
    let res = rec.into_stream(&mut bs);
    proof {
        vstd::utf8::encode_utf8_valid_utf8(mission);
        vstd::utf8::encode_utf8_decode_utf8(mission);
        let d = bs.bytes_view();
        assert(str_body(d, 0) =~= bytes_at(d, 8, encode_utf8(mission).len()));
    }
    bs.bytes()
}

/// Parses a script into its grouped form. The result is exactly what the
/// grammar gives over the comment-stripped text; a grammar violation gives
/// the offending position and the trace of rules entered.
pub fn parse_tas_script(text: String) -> (r: Result<TasFile, ParseError>)
    ensures
        r matches Ok(tf) ==> (spec_parse_text(spec_strip(text@, 0)) matches Ok((mission, seqs))
            && tf.mission@ == mission && tf.sequences@.map_values(|q: Sequence| seq_model(q))
            == seqs),
        r matches Err(e) ==> spec_parse_text(spec_strip(text@, 0)) == Err::<
            (Seq<char>, Seq<(Seq<char>, Seq<Frame>)>),
            (Seq<Rule>, int),
        >((e.context@, e.at as int)),
        r matches Ok(tf) ==> forall|q: int|
            0 <= q < tf.sequences@.len() ==> crate::tas_rec::all_moves_wf(
                (#[trigger] tf.sequences@[q]).frames@,
            ),
{
    TasFile::parse(text)
}

/// Renders a script to text: exactly the statement lines the printer's
/// rendering function gives, with run compaction and elapsed-time comments.
pub fn render_tas_script(tf: &TasFile) -> (r: String)
    requires
        forall|q: int|
            0 <= q < tf.sequences@.len() ==> crate::tas_rec::all_moves_wf(
                (#[trigger] tf.sequences@[q]).frames@,
            ),
    ensures
        r@ == TasFile::spec_render(*tf),
{
    tf.print()
}

/// Wraps a Recording into a single-sequence script.
pub fn recording_to_tasfile(rec: Recording) -> (r: TasFile)
    ensures
        r.mission == rec.mission,
        r.sequences@.len() == 1,
        r.sequences@[0].name@ == crate::tas_rec::imported_name(),
        r.sequences@[0].frames == rec.frames,
{
    TasFile::from_rec(rec)
}

/// Flattens a script back into a Recording, concatenating the sequences\'
/// frames in order.
pub fn tasfile_to_recording(tf: TasFile) -> (r: Recording)
    ensures
        r.mission == tf.mission,
        r.frames@ == flatten_frames(tf.sequences@),
{
    tf.into_rec()
}

} // verus!
