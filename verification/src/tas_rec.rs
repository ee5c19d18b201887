//! Script format: a brace-delimited text form of a Recording, grouping
//! Frames into named Sequences.
//!
//! Comments run from `//` to the end of the line and are stripped over the
//! whole document before parsing, also inside quoted strings. The printer
//! compacts runs of two or more no-move Frames sharing one delta into a
//! single `frames` statement and adds an elapsed-time comment to every
//! statement.

use vstd::prelude::*;
use crate::error::{ParseError, Rule};
use crate::num::{Num, num_u16, num_u64, axis_raw, angle_raw, spec_num_u16, spec_num_u64, spec_axis_raw, spec_angle_raw};
use crate::recording::{Move, Frame, Recording, decode_angle, spec_decode_angle};

verus! {

broadcast use crate::bit_stream::lemma_pos_nonneg;

/// A named run of Frames in a script.
#[derive(Debug, Clone, PartialEq)]
pub struct Sequence {
    pub name: String,
    pub frames: Vec<Frame>,
}

/// A parsed script: a mission name plus named Sequences.
#[derive(Debug, Clone, PartialEq)]
pub struct TasFile {
    pub mission: String,
    pub sequences: Vec<Sequence>,
}

/// Insignificant whitespace between tokens.
pub open spec fn is_ws(c: char) -> bool {
    c == ' ' || c == '\t' || c == '\r' || c == '\n'
}

/// The comment-stripped text from position `i` on: each `//` removes
/// everything up to, but not including, the next line break.
pub open spec fn spec_strip(s: Seq<char>, i: int) -> Seq<char>
    decreases s.len() - i, 0int,
{
    if i < 0 || i >= s.len() {
        Seq::empty()
    } else if s[i] == '/' && i + 1 < s.len() && s[i + 1] == '/' {
        spec_strip_comment(s, i + 2)
    } else {
        seq![s[i]] + spec_strip(s, i + 1)
    }
}

/// The comment-stripped text once inside a comment: everything up to the
/// next line break is dropped.
pub open spec fn spec_strip_comment(s: Seq<char>, i: int) -> Seq<char>
    decreases s.len() - i, 1int,
{
    if i < 0 || i >= s.len() {
        Seq::empty()
    } else if s[i] == '\n' {
        spec_strip(s, i)
    } else {
        spec_strip_comment(s, i + 1)
    }
}

/// Removes `//` comments over the whole document, byte for byte as the
/// grammar demands, also inside quoted strings.
pub fn strip_comments(src: &Vec<char>) -> (out: Vec<char>)
    ensures
        out@ == spec_strip(src@, 0),
{
    let mut out: Vec<char> = Vec::new();
    let mut i: usize = 0;
    while i < src.len()
        invariant
            i <= src@.len(),
            spec_strip(src@, 0) == out@ + spec_strip(src@, i as int),
        decreases src@.len() - i,
    {
        if src[i] == '/' && i + 1 < src.len() && src[i + 1] == '/' {
            let ghost i0 = i as int;
            i = i + 2;
            while i < src.len() && src[i] != '\n'
                invariant
                    i <= src@.len(),
                    i0 + 2 <= i,
                    spec_strip(src@, 0) == out@ + spec_strip_comment(src@, i as int),
                decreases src@.len() - i,
            {
                i = i + 1;
            }
            proof {
                if i < src@.len() {
                    assert(spec_strip_comment(src@, i as int) == spec_strip(src@, i as int));
                }
            }
        } else {
            out.push(src[i]);
            proof {
                assert(spec_strip(src@, i as int) == seq![src@[i as int]] + spec_strip(
                    src@,
                    i + 1,
                ));
                assert(out@ + spec_strip(src@, i + 1) =~= out@.drop_last() + spec_strip(
                    src@,
                    i as int,
                ));
            }
            i = i + 1;
        }
    }
    proof {
        assert(out@ + spec_strip(src@, i as int) =~= out@);
    }
    out
}

/// The first position at or after `i` holding a non-whitespace character.
pub open spec fn spec_skip_ws(s: Seq<char>, i: int) -> int
    decreases s.len() - i,
{
    if 0 <= i < s.len() && is_ws(s[i]) {
        spec_skip_ws(s, i + 1)
    } else {
        i
    }
}

/// Skips insignificant whitespace.
fn skip_ws(s: &Vec<char>, i: usize) -> (r: usize)
    requires
        i <= s@.len(),
    ensures
        i <= r <= s@.len(),
        r == spec_skip_ws(s@, i as int),
        forall|k: int| i <= k < r ==> is_ws(s@[k]),
        r < s@.len() ==> !is_ws(s@[r as int]),
{
    let mut j = i;
    while j < s.len() && (s[j] == ' ' || s[j] == '\t' || s[j] == '\r' || s[j] == '\n')
        invariant
            i <= j <= s@.len(),
            spec_skip_ws(s@, i as int) == spec_skip_ws(s@, j as int),
            forall|k: int| i <= k < j ==> is_ws(s@[k]),
        decreases s@.len() - j,
    {
        j = j + 1;
    }
    j
}

/// The literal `tag` occurs in `s` at position `i`.
pub open spec fn tag_at(s: Seq<char>, i: int, tag: Seq<char>) -> bool {
    i + tag.len() <= s.len() && s.subrange(i, i + tag.len()) == tag
}

/// Tests whether the literal `tag` occurs in `s` at position `i`.
fn has_tag(s: &Vec<char>, i: usize, tag: &Vec<char>) -> (r: bool)
    requires
        i <= s@.len(),
    ensures
        r == tag_at(s@, i as int, tag@),
{
    if s.len() - i < tag.len() {
        return false;
    }
    let mut k: usize = 0;
    while k < tag.len()
        invariant
            k <= tag@.len(),
            i + tag@.len() <= s@.len(),
            s@.len() <= usize::MAX,
            forall|t: int| 0 <= t < k ==> s@[i + t] == tag@[t],
        decreases tag@.len() - k,
    {
        if s[i + k] != tag[k] {
            proof {
                assert(s@.subrange(i as int, i + tag@.len())[k as int] == s@[i + k]);
            }
            return false;
        }
        k = k + 1;
    }
    proof {
        assert(s@.subrange(i as int, i + tag@.len()) =~= tag@);
    }
    true
}

/// An error at `at` whose trace holds the one named rule.
fn rule_err(rule: Rule, at: usize) -> (e: ParseError)
    ensures
        e.context@ == seq![rule],
        e.at == at,
{
    let mut context: Vec<Rule> = Vec::new();
    context.push(rule);
    proof {
        assert(context@ =~= seq![rule]);
    }
    ParseError { context, at }
}

/// Prepends the named rule to an error's context trace.
fn in_rule(e: ParseError, rule: Rule) -> (r: ParseError)
    ensures
        r.context@ == seq![rule] + e.context@,
        r.at == e.at,
{
    let mut context = e.context;
    context.insert(0, rule);
    ParseError { context, at: e.at }
}

/// Scanning the integer digits at `j`: the accumulated mantissa (digits
/// past the 64-bit range saturate it) and the next position.
pub open spec fn spec_int_digits(s: Seq<char>, j: int, mant: u64) -> (u64, int)
    decreases s.len() - j,
{
    if 0 <= j < s.len() && '0' <= s[j] && s[j] <= '9' {
        let d = s[j] as u32 - '0' as u32;
        let m2: u64 = if mant <= 0xFFFF_FFFF_FFFF_FFFFu64 / 10 - 1 {
            (mant * 10 + d) as u64
        } else {
            0xFFFF_FFFF_FFFF_FFFFu64
        };
        spec_int_digits(s, j + 1, m2)
    } else {
        (mant, j)
    }
}

/// Scanning the fraction digits at `j`: digits past the fifteenth, or past
/// the mantissa's range, are dropped.
pub open spec fn spec_frac_digits(s: Seq<char>, j: int, mant: u64, scale: u8) -> (u64, u8, int)
    decreases s.len() - j,
{
    if 0 <= j < s.len() && '0' <= s[j] && s[j] <= '9' {
        let d = s[j] as u32 - '0' as u32;
        if scale < 15 && mant <= 0xFFFF_FFFF_FFFF_FFFFu64 / 10 - 1 {
            spec_frac_digits(s, j + 1, (mant * 10 + d) as u64, (scale + 1) as u8)
        } else {
            spec_frac_digits(s, j + 1, mant, scale)
        }
    } else {
        (mant, scale, j)
    }
}

/// The number at position `i`: an optional sign, digits, and an optional
/// fraction, or an error at `i` when no digit at all is present.
#[verifier::opaque]
pub open spec fn spec_parse_number(s: Seq<char>, i: int) -> Result<(Num, int), (Seq<Rule>, int)> {
    let j1: int = if 0 <= i < s.len() && (s[i] == '-' || s[i] == '+') {
        i + 1
    } else {
        i
    };
    let neg = 0 <= i < s.len() && s[i] == '-';
    let (m1, j2) = spec_int_digits(s, j1, 0);
    if j2 < s.len() && s[j2] == '.' {
        let (m2, sc, j3) = spec_frac_digits(s, j2 + 1, m1, 0);
        if j2 == j1 && j3 == j2 + 1 {
            Err((Seq::empty(), i))
        } else {
            Ok((Num { neg, mant: m2, scale: sc }, j3))
        }
    } else {
        if j2 == j1 {
            Err((Seq::empty(), i))
        } else {
            Ok((Num { neg, mant: m1, scale: 0 }, j2))
        }
    }
}

/// Parses a decimal number: an optional sign, digits, and an optional
/// fraction. Exponent forms are not recognized: a script number is plain
/// decimal. At most fifteen fraction digits are kept; the rest are
/// truncated toward zero. A mantissa past the 64-bit range saturates.
fn parse_number(s: &Vec<char>, i: usize) -> (r: Result<(Num, usize), ParseError>)
    requires
        i <= s@.len(),
    ensures
        r matches Ok((n, j)) ==> n.wf() && i < j <= s@.len() && spec_parse_number(s@, i as int)
            == Ok::<(Num, int), (Seq<Rule>, int)>((n, j as int)),
        r matches Err(e) ==> e.at == i && spec_parse_number(s@, i as int) == Err::<
            (Num, int),
            (Seq<Rule>, int),
        >((e.context@, e.at as int)),
{
    proof {
        reveal(spec_parse_number);
    }
    let mut j = i;
    let mut neg = false;
    if j < s.len() && (s[j] == '-' || s[j] == '+') {
        neg = s[j] == '-';
        j = j + 1;
    }
    let ghost j1 = j as int;
    let mut mant: u64 = 0;
    let mut scale: u8 = 0;
    let mut any = false;
    while j < s.len() && s[j] >= '0' && s[j] <= '9'
        invariant
            i <= j1 <= j <= s@.len(),
            scale == 0,
            any == (j > j1),
            spec_int_digits(s@, j as int, mant) == spec_int_digits(s@, j1, 0),
        decreases s@.len() - j,
    {
        let d = (s[j] as u32) - ('0' as u32);
        if mant <= 0xFFFF_FFFF_FFFF_FFFFu64 / 10 - 1 {
            mant = mant * 10 + (d as u64);
        } else {
            mant = 0xFFFF_FFFF_FFFF_FFFFu64;
        }
        any = true;
        j = j + 1;
    }
    let ghost j2 = j as int;
    proof {
        assert(spec_int_digits(s@, j2, mant) == (mant, j2));
    }
    if j < s.len() && s[j] == '.' {
        j = j + 1;
        while j < s.len() && s[j] >= '0' && s[j] <= '9'
            invariant
                i <= j1 <= j2 < j2 + 1 <= j <= s@.len(),
                scale <= 15,
                any == ((j2 > j1) || (j > j2 + 1)),
                spec_frac_digits(s@, j as int, mant, scale) == spec_frac_digits(
                    s@,
                    j2 + 1,
                    spec_int_digits(s@, j1, 0).0,
                    0,
                ),
            decreases s@.len() - j,
        {
            let d = (s[j] as u32) - ('0' as u32);
            if scale < 15 && mant <= 0xFFFF_FFFF_FFFF_FFFFu64 / 10 - 1 {
                mant = mant * 10 + (d as u64);
                scale = scale + 1;
            }
            any = true;
            j = j + 1;
        }
        proof {
            assert(spec_frac_digits(s@, j as int, mant, scale) == (mant, scale, j as int));
        }
    }
    if !any {
        return Err(ParseError { context: Vec::new(), at: i });
    }
    Ok((Num { neg, mant, scale }, j))
}

/// Parses a quoted string, keeping escape sequences exactly as written.
/// Recognized escapes are a backslash before a quote, an `n` or another
/// backslash.
/// Scanning a quoted string's body from `j` with `acc` already read: the
/// raw content, escapes kept as written, and the position past the closing
/// quote, or an error at the offending position.
#[verifier::opaque]
pub open spec fn spec_str_body(s: Seq<char>, j: int, acc: Seq<char>) -> Result<
    (Seq<char>, int),
    (Seq<Rule>, int),
>
    decreases s.len() - j,
{
    if 0 <= j < s.len() && s[j] != '"' {
        if s[j] == '\\' {
            if j + 1 < s.len() && (s[j + 1] == '"' || s[j + 1] == 'n' || s[j + 1] == '\\') {
                spec_str_body(s, j + 2, acc + seq![s[j], s[j + 1]])
            } else {
                Err((seq![Rule::Str], j))
            }
        } else {
            spec_str_body(s, j + 1, acc + seq![s[j]])
        }
    } else if !(0 <= j < s.len()) {
        Err((seq![Rule::Str], j))
    } else {
        Ok((acc, j + 1))
    }
}

/// The quoted string at position `i`.
#[verifier::opaque]
pub open spec fn spec_string_lit(s: Seq<char>, i: int) -> Result<
    (Seq<char>, int),
    (Seq<Rule>, int),
> {
    if !(0 <= i < s.len() && s[i] == '"') {
        Err((seq![Rule::Str], i))
    } else {
        spec_str_body(s, i + 1, Seq::empty())
    }
}

fn parse_string_lit(s: &Vec<char>, i: usize) -> (r: Result<(String, usize), ParseError>)
    requires
        i <= s@.len(),
    ensures
        r matches Ok((v, j)) ==> i < j <= s@.len() && spec_string_lit(s@, i as int) == Ok::<
            (Seq<char>, int),
            (Seq<Rule>, int),
        >((v@, j as int)),
        r matches Err(e) ==> spec_string_lit(s@, i as int) == Err::<
            (Seq<char>, int),
            (Seq<Rule>, int),
        >((e.context@, e.at as int)),
{
    proof {
        reveal(spec_string_lit);
        reveal(spec_str_body);
    }
    if !(i < s.len() && s[i] == '"') {
        return Err(rule_err(Rule::Str, i));
    }
    let mut j = i + 1;
    let mut content: Vec<char> = Vec::new();
    while j < s.len() && s[j] != '"'
        invariant
            i < j <= s@.len(),
            s@[i as int] == '"',
            spec_str_body(s@, j as int, content@) == spec_str_body(s@, i + 1, Seq::empty()),
        decreases s@.len() - j,
    {
        proof {
            reveal(spec_string_lit);
            reveal(spec_str_body);
        }
        if s[j] == '\\' {
            if j + 1 < s.len() && (s[j + 1] == '"' || s[j + 1] == 'n' || s[j + 1] == '\\') {
                proof {
                    assert(content@ + seq![s@[j as int], s@[j + 1]] =~= content@.push(
                        s@[j as int],
                    ).push(s@[j + 1]));
                }
                content.push(s[j]);
                content.push(s[j + 1]);
                j = j + 2;
            } else {
                return Err(rule_err(Rule::Str, j));
            }
        } else {
            proof {
                assert(content@ + seq![s@[j as int]] =~= content@.push(s@[j as int]));
            }
            content.push(s[j]);
            j = j + 1;
        }
    }
    proof {
        reveal(spec_string_lit);
        reveal(spec_str_body);
    }
    if j >= s.len() {
        return Err(rule_err(Rule::Str, j));
    }
    Ok((chars_to_string(&content), j + 1))
}

/// Relies on `String::from_iter` over `char`: collecting characters builds
/// the string of exactly those characters.
#[verifier::external_body]
pub(crate) fn chars_to_string(v: &Vec<char>) -> (s: String)
    ensures
        s@ == v@,
{
    v.iter().collect()
}

/// The statement and field keywords of the grammar.
pub open spec fn kw_camera() -> Seq<char> {
    seq!['c', 'a', 'm', 'e', 'r', 'a']
}

pub open spec fn kw_move() -> Seq<char> {
    seq!['m', 'o', 'v', 'e']
}

pub open spec fn kw_triggers() -> Seq<char> {
    seq!['t', 'r', 'i', 'g', 'g', 'e', 'r', 's']
}

pub open spec fn kw_frames() -> Seq<char> {
    seq!['f', 'r', 'a', 'm', 'e', 's']
}

pub open spec fn kw_frame() -> Seq<char> {
    seq!['f', 'r', 'a', 'm', 'e']
}

pub open spec fn kw_moveframe() -> Seq<char> {
    seq!['m', 'o', 'v', 'e', 'f', 'r', 'a', 'm', 'e']
}

pub open spec fn kw_ms() -> Seq<char> {
    seq!['m', 's']
}

/// The number triple `( NUM NUM NUM )` at position `i`.
#[verifier::opaque]
pub open spec fn spec_float3(s: Seq<char>, i: int) -> Result<
    ((Num, Num, Num), int),
    (Seq<Rule>, int),
> {
    if !(0 <= i < s.len() && s[i] == '(') {
        Err((seq![Rule::Float3], i))
    } else {
        match spec_parse_number(s, spec_skip_ws(s, i + 1)) {
            Err((c, at)) => Err((seq![Rule::Float3] + c, at)),
            Ok((a, j1)) => match spec_parse_number(s, spec_skip_ws(s, j1)) {
                Err((c, at)) => Err((seq![Rule::Float3] + c, at)),
                Ok((b, j2)) => match spec_parse_number(s, spec_skip_ws(s, j2)) {
                    Err((c, at)) => Err((seq![Rule::Float3] + c, at)),
                    Ok((c3, j3)) => {
                        let j4 = spec_skip_ws(s, j3);
                        if j4 < s.len() && s[j4] == ')' {
                            Ok(((a, b, c3), j4 + 1))
                        } else {
                            Err((seq![Rule::Float3], j4))
                        }
                    },
                },
            },
        }
    }
}

/// One trigger bit after optional whitespace.
#[verifier::opaque]
pub open spec fn spec_bit(s: Seq<char>, j: int) -> Result<(bool, int), (Seq<Rule>, int)> {
    let j2 = spec_skip_ws(s, j);
    if j2 < s.len() && (s[j2] == '0' || s[j2] == '1') {
        Ok((s[j2] == '1', j2 + 1))
    } else {
        Err((seq![Rule::Bool6], j2))
    }
}

/// The trigger sextuple `( BIT BIT BIT BIT BIT BIT )` at position `i`.
#[verifier::opaque]
pub open spec fn spec_bool6(s: Seq<char>, i: int) -> Result<([bool; 6], int), (Seq<Rule>, int)> {
    if !(0 <= i < s.len() && s[i] == '(') {
        Err((seq![Rule::Bool6], i))
    } else {
        match spec_bit(s, i + 1) {
            Err(e) => Err(e),
            Ok((b0, j1)) => match spec_bit(s, j1) {
                Err(e) => Err(e),
                Ok((b1, j2)) => match spec_bit(s, j2) {
                    Err(e) => Err(e),
                    Ok((b2, j3)) => match spec_bit(s, j3) {
                        Err(e) => Err(e),
                        Ok((b3, j4)) => match spec_bit(s, j4) {
                            Err(e) => Err(e),
                            Ok((b4, j5)) => match spec_bit(s, j5) {
                                Err(e) => Err(e),
                                Ok((b5, j6)) => {
                                    let j7 = spec_skip_ws(s, j6);
                                    if j7 < s.len() && s[j7] == ')' {
                                        Ok(([b0, b1, b2, b3, b4, b5], j7 + 1))
                                    } else {
                                        Err((seq![Rule::Bool6], j7))
                                    }
                                },
                            },
                        },
                    },
                },
            },
        }
    }
}

/// Parses `( NUM NUM NUM )` into three numbers.
fn parse_float3(s: &Vec<char>, i: usize) -> (r: Result<((Num, Num, Num), usize), ParseError>)
    requires
        i <= s@.len(),
    ensures
        r matches Ok(((a, b, c), j)) ==> a.wf() && b.wf() && c.wf() && i < j <= s@.len()
            && spec_float3(s@, i as int) == Ok::<((Num, Num, Num), int), (Seq<Rule>, int)>(
            ((a, b, c), j as int),
        ),
        r matches Err(e) ==> spec_float3(s@, i as int) == Err::<
            ((Num, Num, Num), int),
            (Seq<Rule>, int),
        >((e.context@, e.at as int)),
{
    proof {
        reveal(spec_float3);
    }
    if !(i < s.len() && s[i] == '(') {
        return Err(rule_err(Rule::Float3, i));
    }
    let j0 = skip_ws(s, i + 1);
    let (a, j1) = match parse_number(s, j0) {
        Ok(v) => v,
        Err(e) => {
            return Err(in_rule(e, Rule::Float3));
        },
    };
    let j1 = skip_ws(s, j1);
    let (b, j2) = match parse_number(s, j1) {
        Ok(v) => v,
        Err(e) => {
            return Err(in_rule(e, Rule::Float3));
        },
    };
    let j2 = skip_ws(s, j2);
    let (c, j3) = match parse_number(s, j2) {
        Ok(v) => v,
        Err(e) => {
            return Err(in_rule(e, Rule::Float3));
        },
    };
    let j3 = skip_ws(s, j3);
    if !(j3 < s.len() && s[j3] == ')') {
        return Err(rule_err(Rule::Float3, j3));
    }
    Ok(((a, b, c), j3 + 1))
}

/// Parses one trigger bit after optional whitespace.
fn parse_bit(s: &Vec<char>, j: usize) -> (r: Result<(bool, usize), ParseError>)
    requires
        j <= s@.len(),
    ensures
        r matches Ok((b, j2)) ==> j < j2 <= s@.len() && spec_bit(s@, j as int) == Ok::<
            (bool, int),
            (Seq<Rule>, int),
        >((b, j2 as int)),
        r matches Err(e) ==> spec_bit(s@, j as int) == Err::<(bool, int), (Seq<Rule>, int)>(
            (e.context@, e.at as int),
        ),
{
    proof {
        reveal(spec_bit);
    }
    let j2 = skip_ws(s, j);
    if j2 < s.len() && (s[j2] == '0' || s[j2] == '1') {
        Ok((s[j2] == '1', j2 + 1))
    } else {
        Err(rule_err(Rule::Bool6, j2))
    }
}

/// Parses `( BIT BIT BIT BIT BIT BIT )` into six trigger flags.
fn parse_bool6(s: &Vec<char>, i: usize) -> (r: Result<([bool; 6], usize), ParseError>)
    requires
        i <= s@.len(),
    ensures
        r matches Ok((t, j)) ==> i < j <= s@.len() && spec_bool6(s@, i as int) == Ok::<
            ([bool; 6], int),
            (Seq<Rule>, int),
        >((t, j as int)),
        r matches Err(e) ==> spec_bool6(s@, i as int) == Err::<([bool; 6], int), (Seq<Rule>, int)>(
            (e.context@, e.at as int),
        ),
{
    proof {
        reveal(spec_bool6);
    }
    if !(i < s.len() && s[i] == '(') {
        return Err(rule_err(Rule::Bool6, i));
    }
    let (b0, j1) = match parse_bit(s, i + 1) {
        Ok(v) => v,
        Err(e) => {
            return Err(e);
        },
    };
    let (b1, j2) = match parse_bit(s, j1) {
        Ok(v) => v,
        Err(e) => {
            return Err(e);
        },
    };
    let (b2, j3) = match parse_bit(s, j2) {
        Ok(v) => v,
        Err(e) => {
            return Err(e);
        },
    };
    let (b3, j4) = match parse_bit(s, j3) {
        Ok(v) => v,
        Err(e) => {
            return Err(e);
        },
    };
    let (b4, j5) = match parse_bit(s, j4) {
        Ok(v) => v,
        Err(e) => {
            return Err(e);
        },
    };
    let (b5, j6) = match parse_bit(s, j5) {
        Ok(v) => v,
        Err(e) => {
            return Err(e);
        },
    };
    let j7 = skip_ws(s, j6);
    if !(j7 < s.len() && s[j7] == ')') {
        return Err(rule_err(Rule::Bool6, j7));
    }
    Ok(([b0, b1, b2, b3, b4, b5], j7 + 1))
}

/// The move body `camera float3 move float3 triggers bool6` at `i`: a
/// move written in text always carries all three camera angles, quantized
/// to their raw wire values, and sets free-look.
#[verifier::opaque]
pub open spec fn spec_move_inner(s: Seq<char>, i: int) -> Result<(Move, int), (Seq<Rule>, int)> {
    if !tag_at(s, i, kw_camera()) {
        Err((seq![Rule::MoveBlock], i))
    } else {
        match spec_float3(s, spec_skip_ws(s, i + 6)) {
            Err((c, at)) => Err((seq![Rule::MoveBlock] + c, at)),
            Ok(((yaw, pitch, roll), ja)) => {
                let jb = spec_skip_ws(s, ja);
                if !tag_at(s, jb, kw_move()) {
                    Err((seq![Rule::MoveBlock], jb))
                } else {
                    match spec_float3(s, spec_skip_ws(s, jb + 4)) {
                        Err((c, at)) => Err((seq![Rule::MoveBlock] + c, at)),
                        Ok(((mx, my, mz), jc)) => {
                            let jd = spec_skip_ws(s, jc);
                            if !tag_at(s, jd, kw_triggers()) {
                                Err((seq![Rule::MoveBlock], jd))
                            } else {
                                match spec_bool6(s, spec_skip_ws(s, jd + 8)) {
                                    Err((c, at)) => Err((seq![Rule::MoveBlock] + c, at)),
                                    Ok((triggers, je)) => Ok(
                                        (
                                            Move {
                                                yaw: Some(spec_angle_raw(yaw)),
                                                pitch: Some(spec_angle_raw(pitch)),
                                                roll: Some(spec_angle_raw(roll)),
                                                mx: spec_axis_raw(mx),
                                                my: spec_axis_raw(my),
                                                mz: spec_axis_raw(mz),
                                                freelook: true,
                                                triggers,
                                            },
                                            je,
                                        ),
                                    ),
                                }
                            }
                        },
                    }
                }
            },
        }
    }
}

/// The move block at `i`: `{` with an optional move body, then `}`; an
/// empty block stands for an absent Move slot.
#[verifier::opaque]
pub open spec fn spec_move_block(s: Seq<char>, i: int) -> Result<
    (Option<Move>, int),
    (Seq<Rule>, int),
> {
    if !(0 <= i < s.len() && s[i] == '{') {
        Err((seq![Rule::MoveBlock], i))
    } else {
        let j = spec_skip_ws(s, i + 1);
        if j < s.len() && s[j] == '}' {
            Ok((None, j + 1))
        } else {
            match spec_move_inner(s, j) {
                Err(e) => Err(e),
                Ok((m, j2)) => {
                    let j3 = spec_skip_ws(s, j2);
                    if j3 < s.len() && s[j3] == '}' {
                        Ok((Some(m), j3 + 1))
                    } else {
                        Err((seq![Rule::MoveBlock], j3))
                    }
                },
            }
        }
    }
}

/// Parses the inside of a move block: `camera float3 move float3 triggers
/// bool6`. A move written in text always carries all three camera angles
/// and sets free-look.
fn parse_move_inner(s: &Vec<char>, i: usize) -> (r: Result<(Move, usize), ParseError>)
    requires
        i <= s@.len(),
    ensures
        r matches Ok((m, j)) ==> m.wf() && m.yaw is Some && m.pitch is Some && m.roll is Some
            && m.freelook && i < j <= s@.len() && spec_move_inner(s@, i as int) == Ok::<
            (Move, int),
            (Seq<Rule>, int),
        >((m, j as int)),
        r matches Err(e) ==> spec_move_inner(s@, i as int) == Err::<(Move, int), (Seq<Rule>, int)>(
            (e.context@, e.at as int),
        ),
{
    proof {
        reveal(spec_move_inner);
    }
    let tag_camera: Vec<char> = vec!['c', 'a', 'm', 'e', 'r', 'a'];
    let tag_move: Vec<char> = vec!['m', 'o', 'v', 'e'];
    let tag_triggers: Vec<char> = vec!['t', 'r', 'i', 'g', 'g', 'e', 'r', 's'];
    proof {
        assert(tag_camera@ =~= kw_camera());
        assert(tag_move@ =~= kw_move());
        assert(tag_triggers@ =~= kw_triggers());
        assert(tag_camera@.len() == 6 && tag_move@.len() == 4 && tag_triggers@.len() == 8);
    }
    let slen = s.len();
    proof {
        assert(s@.len() == slen as int);
    }
    if !has_tag(s, i, &tag_camera) {
        return Err(rule_err(Rule::MoveBlock, i));
    }
    let j = skip_ws(s, i + 6);
    let ((yaw, pitch, roll), j) = match parse_float3(s, j) {
        Ok(v) => v,
        Err(e) => {
            return Err(in_rule(e, Rule::MoveBlock));
        },
    };
    let j = skip_ws(s, j);
    if !has_tag(s, j, &tag_move) {
        return Err(rule_err(Rule::MoveBlock, j));
    }
    let j = skip_ws(s, j + 4);
    let ((mx, my, mz), j) = match parse_float3(s, j) {
        Ok(v) => v,
        Err(e) => {
            return Err(in_rule(e, Rule::MoveBlock));
        },
    };
    let j = skip_ws(s, j);
    if !has_tag(s, j, &tag_triggers) {
        return Err(rule_err(Rule::MoveBlock, j));
    }
    let j = skip_ws(s, j + 8);
    let (triggers, j) = match parse_bool6(s, j) {
        Ok(v) => v,
        Err(e) => {
            return Err(in_rule(e, Rule::MoveBlock));
        },
    };
    let m = Move {
        yaw: Some(angle_raw(yaw)),
        pitch: Some(angle_raw(pitch)),
        roll: Some(angle_raw(roll)),
        mx: axis_raw(mx),
        my: axis_raw(my),
        mz: axis_raw(mz),
        freelook: true,
        triggers,
    };
    Ok((m, j))
}

/// Parses a move block: `{` with an optional move body, then `}`. An empty
/// block stands for an absent Move slot.
fn parse_move_block(s: &Vec<char>, i: usize) -> (r: Result<(Option<Move>, usize), ParseError>)
    requires
        i <= s@.len(),
    ensures
        r matches Ok((m, j)) ==> (m matches Some(mv) ==> mv.wf()) && i < j <= s@.len()
            && spec_move_block(s@, i as int) == Ok::<(Option<Move>, int), (Seq<Rule>, int)>(
            (m, j as int),
        ),
        r matches Err(e) ==> spec_move_block(s@, i as int) == Err::<
            (Option<Move>, int),
            (Seq<Rule>, int),
        >((e.context@, e.at as int)),
{
    proof {
        reveal(spec_move_block);
    }
    if !(i < s.len() && s[i] == '{') {
        return Err(rule_err(Rule::MoveBlock, i));
    }
    let j = skip_ws(s, i + 1);
    if j < s.len() && s[j] == '}' {
        return Ok((None, j + 1));
    }
    let (m, j) = match parse_move_inner(s, j) {
        Ok(v) => v,
        Err(e) => {
            return Err(e);
        },
    };
    let j = skip_ws(s, j);
    if !(j < s.len() && s[j] == '}') {
        return Err(rule_err(Rule::MoveBlock, j));
    }
    Ok((Some(m), j + 1))
}

/// A no-move Frame with the given delta.
pub open spec fn spec_plain_frame(delta: u16) -> Frame {
    Frame { moves: [None, None], delta }
}

/// The frame statement at `i` and the Frames it yields: `frames N [M ms]`
/// gives `N` no-move Frames (delta `M`, or one millisecond when absent);
/// `frame N ms` one no-move Frame; `moveframe N ms mv mv` one Frame with
/// the two parsed Move slots.
#[verifier::opaque]
pub open spec fn spec_frame_stmt(s: Seq<char>, i: int) -> Result<
    (Seq<Frame>, int),
    (Seq<Rule>, int),
> {
    if tag_at(s, i, kw_frames()) {
        match spec_parse_number(s, spec_skip_ws(s, i + 6)) {
            Err((c, at)) => Err((seq![Rule::Frames] + c, at)),
            Ok((count, j)) => {
                let n = spec_num_u64(count);
                match spec_parse_number(s, spec_skip_ws(s, j)) {
                    Ok((d, jd)) => {
                        let ja = spec_skip_ws(s, jd);
                        if !tag_at(s, ja, kw_ms()) {
                            Err((seq![Rule::Frames], ja))
                        } else {
                            Ok(
                                (
                                    Seq::new(n as nat, |t: int| spec_plain_frame(spec_num_u16(d))),
                                    ja + 2,
                                ),
                            )
                        }
                    },
                    Err(dead) => Ok((Seq::new(n as nat, |t: int| spec_plain_frame(1u16)), j)),
                }
            },
        }
    } else if tag_at(s, i, kw_frame()) {
        match spec_parse_number(s, spec_skip_ws(s, i + 5)) {
            Err((c, at)) => Err((seq![Rule::FrameStmt] + c, at)),
            Ok((d, j)) => {
                let ja = spec_skip_ws(s, j);
                if !tag_at(s, ja, kw_ms()) {
                    Err((seq![Rule::FrameStmt], ja))
                } else {
                    Ok((seq![spec_plain_frame(spec_num_u16(d))], ja + 2))
                }
            },
        }
    } else if tag_at(s, i, kw_moveframe()) {
        match spec_parse_number(s, spec_skip_ws(s, i + 9)) {
            Err((c, at)) => Err((seq![Rule::Moveframe] + c, at)),
            Ok((d, j)) => {
                let ja = spec_skip_ws(s, j);
                if !tag_at(s, ja, kw_ms()) {
                    Err((seq![Rule::Moveframe], ja))
                } else {
                    match spec_move_block(s, spec_skip_ws(s, ja + 2)) {
                        Err((c, at)) => Err((seq![Rule::Moveframe] + c, at)),
                        Ok((m0, jb)) => match spec_move_block(s, spec_skip_ws(s, jb)) {
                            Err((c, at)) => Err((seq![Rule::Moveframe] + c, at)),
                            Ok((m1, jc)) => Ok(
                                (
                                    seq![
                                        Frame { moves: [m0, m1], delta: spec_num_u16(d) },
                                    ],
                                    jc,
                                ),
                            ),
                        },
                    }
                }
            },
        }
    } else {
        Err((seq![Rule::FrameStmt], i))
    }
}

/// Parses one frame statement after its keyword has been recognized, and
/// appends the resulting Frames.
///
/// `frame N ms` gives one no-move Frame with delta `N`; `frames N [M ms]`
/// gives `N` no-move Frames with delta `M` (1 when absent); `moveframe N ms
/// mv mv` gives one Frame with the two parsed Move slots.
#[verifier::rlimit(100)]
fn parse_frame_stmt(s: &Vec<char>, i: usize, out: &mut Vec<Frame>) -> (r: Result<
    usize,
    ParseError,
>)
    requires
        i <= s@.len(),
    ensures
        r matches Ok(j) ==> i < j <= s@.len() && old(out)@.len() <= final(out)@.len() && (forall|
            k: int,
        |
            0 <= k < old(out)@.len() ==> final(out)@[k] == old(out)@[k]),
        r matches Ok(j) ==> (spec_frame_stmt(s@, i as int) matches Ok((fs, jj)) && jj == j as int
            && final(out)@ == old(out)@ + fs),
        all_moves_wf(old(out)@) ==> all_moves_wf(final(out)@),
        r matches Err(e) ==> final(out)@ == old(out)@ && spec_frame_stmt(s@, i as int) == Err::<
            (Seq<Frame>, int),
            (Seq<Rule>, int),
        >((e.context@, e.at as int)),
{
    proof {
        reveal(spec_frame_stmt);
    }
    let tag_frames: Vec<char> = vec!['f', 'r', 'a', 'm', 'e', 's'];
    let tag_frame: Vec<char> = vec!['f', 'r', 'a', 'm', 'e'];
    let tag_moveframe: Vec<char> = vec!['m', 'o', 'v', 'e', 'f', 'r', 'a', 'm', 'e'];
    let tag_ms: Vec<char> = vec!['m', 's'];
    proof {
        assert(tag_frames@ =~= kw_frames());
        assert(tag_frame@ =~= kw_frame());
        assert(tag_moveframe@ =~= kw_moveframe());
        assert(tag_ms@ =~= kw_ms());
        assert(tag_frames@.len() == 6 && tag_frame@.len() == 5 && tag_moveframe@.len() == 9
            && tag_ms@.len() == 2);
    }
    let slen = s.len();
    proof {
        assert(s@.len() == slen as int);
    }
    if has_tag(s, i, &tag_frames) {
        // frames N [M ms]
        let j = skip_ws(s, i + 6);
        let (count, j) = match parse_number(s, j) {
            Ok(v) => v,
            Err(e) => {
                return Err(in_rule(e, Rule::Frames));
            },
        };
        let n = num_u64(count);
        let jw = skip_ws(s, j);
        let mut delta: u16 = 1;
        let mut j2 = j;
        match parse_number(s, jw) {
            Ok((d, jd)) => {
                let ja = skip_ws(s, jd);
                if !has_tag(s, ja, &tag_ms) {
                    return Err(rule_err(Rule::Frames, ja));
                }
                delta = num_u16(d);
                j2 = ja + 2;
            },
            Err(_) => {
                // a lone count: each frame lasts one millisecond
            },
        }
        let mut c: u64 = 0;
        while c < n
            invariant
                c <= n,
                old(out)@.len() <= out@.len(),
                forall|k: int| 0 <= k < old(out)@.len() ==> out@[k] == old(out)@[k],
                all_moves_wf(old(out)@) ==> all_moves_wf(out@),
                out@ =~= old(out)@ + Seq::new(c as nat, |t: int| spec_plain_frame(delta)),
            decreases n - c,
        {
            out.push(Frame { moves: [None, None], delta });
            c = c + 1;
            proof {
                assert(out@ =~= old(out)@ + Seq::new(c as nat, |t: int| spec_plain_frame(delta)));
            }
        }
        Ok(if j2 > j {
            j2
        } else {
            j
        })
    } else if has_tag(s, i, &tag_frame) {
        // frame N ms
        let j = skip_ws(s, i + 5);
        let (d, j) = match parse_number(s, j) {
            Ok(v) => v,
            Err(e) => {
                return Err(in_rule(e, Rule::FrameStmt));
            },
        };
        let j = skip_ws(s, j);
        if !has_tag(s, j, &tag_ms) {
            return Err(rule_err(Rule::FrameStmt, j));
        }
        let dd = num_u16(d);
        out.push(Frame { moves: [None, None], delta: dd });
        proof {
            assert(out@ =~= old(out)@ + seq![spec_plain_frame(dd)]);
        }
        Ok(j + 2)
    } else if has_tag(s, i, &tag_moveframe) {
        // moveframe N ms mv mv
        let j = skip_ws(s, i + 9);
        let (d, j) = match parse_number(s, j) {
            Ok(v) => v,
            Err(e) => {
                return Err(in_rule(e, Rule::Moveframe));
            },
        };
        let j = skip_ws(s, j);
        if !has_tag(s, j, &tag_ms) {
            return Err(rule_err(Rule::Moveframe, j));
        }
        let j = skip_ws(s, j + 2);
        let (m0, j) = match parse_move_block(s, j) {
            Ok(v) => v,
            Err(e) => {
                return Err(in_rule(e, Rule::Moveframe));
            },
        };
        let j = skip_ws(s, j);
        let (m1, j) = match parse_move_block(s, j) {
            Ok(v) => v,
            Err(e) => {
                return Err(in_rule(e, Rule::Moveframe));
            },
        };
        let dd = num_u16(d);
        out.push(Frame { moves: [m0, m1], delta: dd });
        proof {
            assert(out@ =~= old(out)@ + seq![Frame { moves: [m0, m1], delta: dd }]);
        }
        Ok(j)
    } else {
        Err(rule_err(Rule::FrameStmt, i))
    }
}

/// The frame statements of a sequence body from `j` on, with `acc` already
/// parsed, up to and past the closing brace. The guard on the recursion
/// records that a parsed statement always advances.
#[verifier::opaque]
pub open spec fn spec_seq_frames(s: Seq<char>, j: int, acc: Seq<Frame>) -> Result<
    (Seq<Frame>, int),
    (Seq<Rule>, int),
>
    decreases s.len() - j,
{
    if !(0 <= j < s.len()) {
        Err((seq![Rule::Sequence], j))
    } else if s[j] == '}' {
        Ok((acc, j + 1))
    } else {
        match spec_frame_stmt(s, j) {
            Err((c, at)) => Err((seq![Rule::Sequence] + c, at)),
            Ok((fs, j2)) => {
                let jn = spec_skip_ws(s, j2);
                if j < jn <= s.len() {
                    spec_seq_frames(s, jn, acc + fs)
                } else {
                    Err((seq![Rule::Sequence], j))
                }
            },
        }
    }
}

/// The sequence at `i`: `{ string frame_stmt* }`, as its name and frames.
#[verifier::opaque]
pub open spec fn spec_sequence(s: Seq<char>, i: int) -> Result<
    ((Seq<char>, Seq<Frame>), int),
    (Seq<Rule>, int),
> {
    if !(0 <= i < s.len() && s[i] == '{') {
        Err((seq![Rule::Sequence], i))
    } else {
        match spec_string_lit(s, spec_skip_ws(s, i + 1)) {
            Err((c, at)) => Err((seq![Rule::Sequence] + c, at)),
            Ok((nm, j)) => match spec_seq_frames(s, spec_skip_ws(s, j), Seq::empty()) {
                Err(e) => Err(e),
                Ok((fs, j2)) => Ok(((nm, fs), j2)),
            },
        }
    }
}

/// Parses one sequence: `{ string frame_stmt* }`.
fn parse_sequence(s: &Vec<char>, i: usize) -> (r: Result<(Sequence, usize), ParseError>)
    requires
        i <= s@.len(),
    ensures
        r matches Ok((sq, j)) ==> i < j <= s@.len() && all_moves_wf(sq.frames@) && spec_sequence(
            s@,
            i as int,
        ) == Ok::<((Seq<char>, Seq<Frame>), int), (Seq<Rule>, int)>(
            ((sq.name@, sq.frames@), j as int),
        ),
        r matches Err(e) ==> spec_sequence(s@, i as int) == Err::<
            ((Seq<char>, Seq<Frame>), int),
            (Seq<Rule>, int),
        >((e.context@, e.at as int)),
{
    proof {
        reveal(spec_sequence);
        reveal(spec_seq_frames);
    }
    let slen = s.len();
    if !(i < s.len() && s[i] == '{') {
        return Err(rule_err(Rule::Sequence, i));
    }
    let j = skip_ws(s, i + 1);
    let (name, j) = match parse_string_lit(s, j) {
        Ok(v) => v,
        Err(e) => {
            proof {
                assert(spec_string_lit(s@, spec_skip_ws(s@, i + 1)) == Err::<
                    (Seq<char>, int),
                    (Seq<Rule>, int),
                >((e.context@, e.at as int)));
                assert(spec_sequence(s@, i as int) == Err::<
                    ((Seq<char>, Seq<Frame>), int),
                    (Seq<Rule>, int),
                >((seq![Rule::Sequence] + e.context@, e.at as int)));
            }
            return Err(in_rule(e, Rule::Sequence));
        },
    };
    let mut frames: Vec<Frame> = Vec::new();
    let ghost jstr = j as int;
    let ghost j0 = spec_skip_ws(s@, j as int);
    let mut j = skip_ws(s, j);
    while j < s.len() && s[j] != '}'
        invariant
            i < j <= s@.len(),
            i < s@.len() && s@[i as int] == '{',
            spec_string_lit(s@, spec_skip_ws(s@, i + 1)) == Ok::<
                (Seq<char>, int),
                (Seq<Rule>, int),
            >((name@, jstr)),
            j0 == spec_skip_ws(s@, jstr),
            all_moves_wf(frames@),
            spec_seq_frames(s@, j as int, frames@) == spec_seq_frames(s@, j0, Seq::empty()),
        decreases s@.len() - j,
    {
        proof {
            reveal(spec_sequence);
            reveal(spec_seq_frames);
        }
        let j2 = match parse_frame_stmt(s, j, &mut frames) {
            Ok(v) => v,
            Err(e) => {
                return Err(in_rule(e, Rule::Sequence));
            },
        };
        j = skip_ws(s, j2);
    }
    proof {
        reveal(spec_sequence);
        reveal(spec_seq_frames);
    }
    if j >= s.len() {
        return Err(rule_err(Rule::Sequence, j));
    }
    Ok((Sequence { name, frames }, j + 1))
}

/// The model of a parsed sequence: its name and frames as plain sequences.
pub open spec fn seq_model(q: Sequence) -> (Seq<char>, Seq<Frame>) {
    (q.name@, q.frames@)
}

/// The sequence blocks from `j` on, ending at the first position that does
/// not open a block. The guard on the recursion records that a parsed
/// sequence always advances.
#[verifier::opaque]
pub open spec fn spec_seq_list(
    s: Seq<char>,
    j: int,
    acc: Seq<(Seq<char>, Seq<Frame>)>,
) -> Result<(Seq<(Seq<char>, Seq<Frame>)>, int), (Seq<Rule>, int)>
    decreases s.len() - j,
{
    if 0 <= j < s.len() && s[j] == '{' {
        match spec_sequence(s, j) {
            Err((c, at)) => Err((seq![Rule::Tasfile] + c, at)),
            Ok((sq, j2)) => {
                let jn = spec_skip_ws(s, j2);
                if j < jn <= s.len() {
                    spec_seq_list(s, jn, acc.push(sq))
                } else {
                    Err((seq![Rule::Tasfile], j))
                }
            },
        }
    } else {
        Ok((acc, j))
    }
}

/// The whole document: `{ string sequence* }` over the comment-stripped
/// text, as the mission name and the sequences' models. Anything after the
/// closing brace is ignored.
#[verifier::opaque]
pub open spec fn spec_parse_text(s: Seq<char>) -> Result<
    (Seq<char>, Seq<(Seq<char>, Seq<Frame>)>),
    (Seq<Rule>, int),
> {
    let i = spec_skip_ws(s, 0);
    if !(0 <= i < s.len() && s[i] == '{') {
        Err((seq![Rule::Tasfile], i))
    } else {
        match spec_string_lit(s, spec_skip_ws(s, i + 1)) {
            Err((c, at)) => Err((seq![Rule::Tasfile] + c, at)),
            Ok((mission, j)) => match spec_seq_list(s, spec_skip_ws(s, j), Seq::empty()) {
                Err(e) => Err(e),
                Ok((seqs, j2)) => {
                    if j2 < s.len() && s[j2] == '}' {
                        Ok((mission, seqs))
                    } else {
                        Err((seq![Rule::Tasfile], j2))
                    }
                },
            },
        }
    }
}

impl TasFile {
    /// Wraps a Recording into a script with a single imported sequence.
    pub fn from_rec(recording: Recording) -> (r: TasFile)
        ensures
            r.mission == recording.mission,
            r.sequences@.len() == 1,
            r.sequences@[0].name@ == imported_name(),
            r.sequences@[0].frames == recording.frames,
    {
        TasFile {
            mission: recording.mission,
            sequences: vec![
                Sequence { name: new_imported_name(), frames: recording.frames },
            ],
        }
    }

    /// Flattens the script back into a Recording by concatenating the
    /// sequences' frames in order. The sequence grouping is lost: it is not
    /// representable in the binary format.
    pub fn into_rec(self) -> (r: Recording)
        ensures
            r.mission == self.mission,
            r.frames@ == flatten_frames(self.sequences@),
    {
        let ghost all = self.sequences@;
        let mut frames: Vec<Frame> = Vec::new();
        let mut seqs = self.sequences;
        while seqs.len() > 0
            invariant
                flatten_frames(all) == frames@ + flatten_frames(seqs@),
            decreases seqs@.len(),
        {
            let ghost before = seqs@;
            let sq = seqs.remove(0);
            let mut sf = sq.frames;
            frames.append(&mut sf);
            proof {
                assert(seqs@ =~= before.skip(1));
                assert(flatten_frames(before) == before[0].frames@ + flatten_frames(
                    before.skip(1),
                ));
            }
        }
        proof {
            assert(flatten_frames(seqs@) == Seq::<Frame>::empty());
            assert(frames@ + Seq::<Frame>::empty() =~= frames@);
        }
        Recording { mission: self.mission, frames }
    }

    /// Parses a script. Comments are stripped over the whole document
    /// first. On a grammar violation the error carries the offending
    /// position in the stripped text and the trace of named rules entered.
    pub fn parse(input: String) -> (r: Result<TasFile, ParseError>)
        ensures
            r matches Ok(tf) ==> (spec_parse_text(spec_strip(input@, 0)) matches Ok(
                (mission, seqs),
            ) && tf.mission@ == mission && tf.sequences@.map_values(|q: Sequence| seq_model(q))
                == seqs),
            r matches Err(e) ==> spec_parse_text(spec_strip(input@, 0)) == Err::<
                (Seq<char>, Seq<(Seq<char>, Seq<Frame>)>),
                (Seq<Rule>, int),
            >((e.context@, e.at as int)),
            r matches Ok(tf) ==> forall|q: int|
                0 <= q < tf.sequences@.len() ==> all_moves_wf(
                    (#[trigger] tf.sequences@[q]).frames@,
                ),
    {
        proof {
            reveal(spec_parse_text);
            reveal(spec_seq_list);
        }
        let chars = string_chars(&input);
        let s = strip_comments(&chars);
        let i = skip_ws(&s, 0);
        if !(i < s.len() && s[i] == '{') {
            return Err(rule_err(Rule::Tasfile, i));
        }
        let j = skip_ws(&s, i + 1);
        let (mission, j) = match parse_string_lit(&s, j) {
            Ok(v) => v,
            Err(e) => {
                return Err(in_rule(e, Rule::Tasfile));
            },
        };
        let ghost jstr = j as int;
        let ghost i0 = spec_skip_ws(s@, 0);
        let mut sequences: Vec<Sequence> = Vec::new();
        let ghost j0 = spec_skip_ws(s@, j as int);
        let mut j = skip_ws(&s, j);
        proof {
            assert(sequences@.map_values(|q: Sequence| seq_model(q)) =~= Seq::<
                (Seq<char>, Seq<Frame>),
            >::empty());
        }
        while j < s.len() && s[j] == '{'
            invariant
                j <= s@.len(),
                s@ == spec_strip(input@, 0),
                i0 == spec_skip_ws(s@, 0),
                0 <= i0 < s@.len() && s@[i0] == '{',
                0 <= jstr,
                spec_string_lit(s@, spec_skip_ws(s@, i0 + 1)) == Ok::<
                    (Seq<char>, int),
                    (Seq<Rule>, int),
                >((mission@, jstr)),
                j0 == spec_skip_ws(s@, jstr),
                j0 <= j,
                spec_seq_list(s@, j as int, sequences@.map_values(|q: Sequence| seq_model(q)))
                    == spec_seq_list(s@, j0, Seq::empty()),
                forall|q: int|
                    0 <= q < sequences@.len() ==> all_moves_wf(
                        (#[trigger] sequences@[q]).frames@,
                    ),
            decreases s@.len() - j,
        {
            proof {
                reveal(spec_parse_text);
                reveal(spec_seq_list);
            }
            let (sq, j2) = match parse_sequence(&s, j) {
                Ok(v) => v,
                Err(e) => {
                    proof {
                        assert(spec_sequence(s@, j as int) == Err::<
                            ((Seq<char>, Seq<Frame>), int),
                            (Seq<Rule>, int),
                        >((e.context@, e.at as int)));
                        assert(spec_seq_list(
                            s@,
                            j as int,
                            sequences@.map_values(|q: Sequence| seq_model(q)),
                        ) == Err::<(Seq<(Seq<char>, Seq<Frame>)>, int), (Seq<Rule>, int)>(
                            (seq![Rule::Tasfile] + e.context@, e.at as int),
                        ));
                        assert(spec_seq_list(s@, j0, Seq::empty()) == Err::<
                            (Seq<(Seq<char>, Seq<Frame>)>, int),
                            (Seq<Rule>, int),
                        >((seq![Rule::Tasfile] + e.context@, e.at as int)));
                        assert(spec_parse_text(s@) == Err::<
                            (Seq<char>, Seq<(Seq<char>, Seq<Frame>)>),
                            (Seq<Rule>, int),
                        >((seq![Rule::Tasfile] + e.context@, e.at as int)));
                    }
                    return Err(in_rule(e, Rule::Tasfile));
                },
            };
            let ghost before = sequences@;
            sequences.push(sq);
            proof {
                assert(sequences@.map_values(|q: Sequence| seq_model(q)) =~= before.map_values(
                    |q: Sequence| seq_model(q),
                ).push(seq_model(sq)));
            }
            j = skip_ws(&s, j2);
        }
        proof {
            reveal(spec_parse_text);
            reveal(spec_seq_list);
        }
        if !(j < s.len() && s[j] == '}') {
            return Err(rule_err(Rule::Tasfile, j));
        }
        Ok(TasFile { mission, sequences })
    }
}


/// One character of a name, escaped for a quoted string: backslashes and
/// quotes get a backslash prefix.
pub open spec fn spec_escape_char(c: char) -> Seq<char> {
    if c == '\\' {
        seq!['\\', '\\']
    } else if c == '"' {
        seq!['\\', '"']
    } else {
        seq![c]
    }
}

/// A name escaped and wrapped in quotes.
pub open spec fn spec_escape(s: Seq<char>) -> Seq<char>
    decreases s.len(),
{
    if s.len() == 0 {
        Seq::empty()
    } else {
        spec_escape_char(s[0]) + spec_escape(s.skip(1))
    }
}

/// The decimal digits of `v`, most significant first.
#[verifier::opaque]
pub open spec fn spec_digits(v: nat) -> Seq<char>
    decreases v,
{
    if v < 10 {
        seq![crate::timefmt::spec_digit_char(v)]
    } else {
        spec_digits(v / 10) + seq![crate::timefmt::spec_digit_char(v % 10)]
    }
}

/// Exactly the `k` low decimal digits of `v`, most significant first.
#[verifier::opaque]
pub open spec fn spec_exact_digits(v: nat, k: nat) -> Seq<char>
    decreases k,
{
    if k == 0 {
        Seq::empty()
    } else {
        spec_exact_digits(v / 10, (k - 1) as nat) + seq![crate::timefmt::spec_digit_char(v % 10)]
    }
}

/// The decimal text of a value with its `k` low digits behind a decimal
/// point: integer digits, the point, then exactly `k` fraction digits.
#[verifier::opaque]
pub open spec fn spec_fixed_inner(v: nat, k: nat) -> Seq<char>
    decreases k,
{
    if k == 0 {
        spec_digits(v) + seq!['.']
    } else {
        spec_fixed_inner(v / 10, (k - 1) as nat) + seq![crate::timefmt::spec_digit_char(v % 10)]
    }
}

/// The decimal text of `v` with exactly `frac` fraction digits (a plain
/// integer when `frac` is zero).
#[verifier::opaque]
pub open spec fn spec_fixed_text(v: nat, frac: nat) -> Seq<char> {
    if frac == 0 {
        spec_digits(v)
    } else {
        spec_fixed_inner(v, frac)
    }
}

/// Pushes the decimal digits of `v`.
fn push_digits(out: &mut Vec<char>, v: u128)
    ensures
        final(out)@ == old(out)@ + spec_digits(v as nat),
    decreases v,
{
    proof {
        reveal(spec_digits);
    }
    if v < 10 {
        out.push(crate::timefmt::digit_char(v as u32));
        proof {
            assert(final(out)@ =~= old(out)@ + spec_digits(v as nat));
        }
    } else {
        push_digits(out, v / 10);
        out.push(crate::timefmt::digit_char((v % 10) as u32));
        proof {
            assert(final(out)@ =~= old(out)@ + spec_digits(v as nat));
        }
    }
}

/// Pushes exactly the `k` low decimal digits of `v`.
fn push_exact_digits(out: &mut Vec<char>, v: u128, k: u32)
    ensures
        final(out)@ == old(out)@ + spec_exact_digits(v as nat, k as nat),
    decreases k,
{
    proof {
        reveal(spec_exact_digits);
    }
    if k == 0 {
        proof {
            assert(final(out)@ =~= old(out)@ + spec_exact_digits(v as nat, 0));
        }
    } else {
        push_exact_digits(out, v / 10, k - 1);
        out.push(crate::timefmt::digit_char((v % 10) as u32));
        proof {
            assert(final(out)@ =~= old(out)@ + spec_exact_digits(v as nat, k as nat));
        }
    }
}

/// Pushes integer digits, a decimal point and exactly `k` fraction digits.
fn push_fixed_inner(out: &mut Vec<char>, v: u128, k: u32)
    ensures
        final(out)@ == old(out)@ + spec_fixed_inner(v as nat, k as nat),
    decreases k,
{
    proof {
        reveal(spec_fixed_inner);
    }
    if k == 0 {
        push_digits(out, v);
        out.push('.');
        proof {
            assert(final(out)@ =~= old(out)@ + spec_fixed_inner(v as nat, 0));
        }
    } else {
        push_fixed_inner(out, v / 10, k - 1);
        out.push(crate::timefmt::digit_char((v % 10) as u32));
        proof {
            assert(final(out)@ =~= old(out)@ + spec_fixed_inner(v as nat, k as nat));
        }
    }
}

/// Pushes the decimal text of a u128 value with exactly `frac` fraction
/// digits behind a decimal point (none when `frac` is zero).
fn push_u128_fixed(out: &mut Vec<char>, v: u128, frac: u32)
    ensures
        final(out)@ == old(out)@ + spec_fixed_text(v as nat, frac as nat),
{
    proof {
        reveal(spec_fixed_text);
    }
    if frac == 0 {
        push_digits(out, v);
    } else {
        push_fixed_inner(out, v, frac);
    }
}

/// Pushes the decimal text of an unsigned value.
fn push_u64_text(out: &mut Vec<char>, v: u64)
    ensures
        final(out)@ == old(out)@ + spec_digits(v as nat),
{
    push_digits(out, v as u128);
}

/// Pushes every character of a literal.
fn push_all(out: &mut Vec<char>, cs: &Vec<char>)
    ensures
        final(out)@ == old(out)@ + cs@,
{
    let mut k: usize = 0;
    while k < cs.len()
        invariant
            k <= cs@.len(),
            out@ == old(out)@ + cs@.take(k as int),
        decreases cs@.len() - k,
    {
        out.push(cs[k]);
        proof {
            assert(old(out)@ + cs@.take(k as int) + seq![cs@[k as int]] =~= old(out)@ + cs@.take(
                k + 1,
            ));
        }
        k = k + 1;
    }
    proof {
        assert(old(out)@ + cs@.take(cs@.len() as int) =~= old(out)@ + cs@);
    }
}

/// The rendered text of an angle's raw wire value: the midpoint of its
/// quantization cell, in radians, carrying thirty-one fraction digits.
#[verifier::opaque]
pub open spec fn spec_angle_text(raw: u16) -> Seq<char> {
    let m = 2 * spec_decode_angle(raw) + 1;
    let mag = ((if m < 0 {
        -m
    } else {
        m
    }) * (crate::num::PI_SCALED as int) * 152587890625) as nat;
    (if m < 0 {
        seq!['-']
    } else {
        Seq::<char>::empty()
    }) + spec_fixed_text(mag, 31)
}

/// Pushes the decimal text of an angle's raw wire value: the midpoint of
/// its quantization cell, in radians, so that parsing the text quantizes
/// back to the same raw value.
fn push_angle_text(out: &mut Vec<char>, raw: u16)
    ensures
        final(out)@ == old(out)@ + spec_angle_text(raw),
{
    proof {
        reveal(spec_angle_text);
    }
    let units = decode_angle(raw);
    let m: i64 = 2 * (units as i64) + 1;
    if m < 0 {
        out.push('-');
    }
    let mag: u128 = if m < 0 {
        (-m) as u128
    } else {
        m as u128
    };
    // magnitude times pi (scaled) times 5^16: the cell midpoint carries
    // exactly 31 fraction digits
    proof {
        assert((mag as int) * (crate::num::PI_SCALED as int) <= 65535 * (
        crate::num::PI_SCALED as int)) by (nonlinear_arith)
            requires
                mag <= 65535,
        ;
        assert((mag as int) * (crate::num::PI_SCALED as int) * 152587890625 <= 65535 * (
        crate::num::PI_SCALED as int) * 152587890625) by (nonlinear_arith)
            requires
                (mag as int) * (crate::num::PI_SCALED as int) <= 65535 * (
                crate::num::PI_SCALED as int),
        ;
    }
    let fixed: u128 = mag * (crate::num::PI_SCALED as u128) * 152587890625u128;
    push_u128_fixed(out, fixed, 31);
    proof {
        assert(final(out)@ =~= old(out)@ + spec_angle_text(raw));
    }
}

/// Fraction-digit trimming: drops trailing zero digits, keeping at least
/// one digit.
pub open spec fn spec_trim(tail: nat, digits: nat) -> (nat, nat)
    decreases digits,
{
    if tail % 10 == 0 && digits > 1 {
        spec_trim(tail / 10, (digits - 1) as nat)
    } else {
        (tail, digits)
    }
}

/// The rendered text of a movement axis' raw 6-bit wire value:
/// `raw/16 - 1`, an exact decimal with trailing fraction zeros trimmed.
#[verifier::opaque]
pub open spec fn spec_axis_text(raw: u8) -> Seq<char> {
    let units = raw - 16;
    let mag = (if units < 0 {
        -units
    } else {
        units
    }) as nat;
    let whole = mag / 16;
    let frac = (mag % 16) * 625;
    (if units < 0 {
        seq!['-']
    } else {
        Seq::<char>::empty()
    }) + spec_digits(whole) + (if frac == 0 {
        Seq::<char>::empty()
    } else {
        seq!['.'] + spec_exact_digits(spec_trim(frac, 4).0, spec_trim(frac, 4).1)
    })
}

/// Pushes the decimal text of a movement axis' raw 6-bit wire value.
fn push_axis_text(out: &mut Vec<char>, raw: u8)
    requires
        raw < 64,
    ensures
        final(out)@ == old(out)@ + spec_axis_text(raw),
{
    proof {
        reveal(spec_axis_text);
    }
    let units: i32 = (raw as i32) - 16;
    if units < 0 {
        out.push('-');
    }
    let mag: u32 = if units < 0 {
        (-units) as u32
    } else {
        units as u32
    };
    let whole = mag / 16;
    let frac = (mag % 16) * 625;
    if frac == 0 {
        push_u64_text(out, whole as u64);
        proof {
            assert(final(out)@ =~= old(out)@ + spec_axis_text(raw));
        }
    } else {
        let mut tail: u32 = frac;
        let mut digits: u32 = 4;
        while tail % 10 == 0 && digits > 1
            invariant
                1 <= digits <= 4,
                spec_trim(tail as nat, digits as nat) == spec_trim(frac as nat, 4),
            decreases digits,
        {
            tail = tail / 10;
            digits = digits - 1;
        }
        push_u64_text(out, whole as u64);
        out.push('.');
        push_exact_digits(out, tail as u128, digits);
        proof {
            assert(final(out)@ =~= old(out)@ + spec_axis_text(raw));
        }
    }
}

/// Neither move slot of the frame is present.
pub open spec fn spec_no_move(f: Frame) -> bool {
    f.moves[0] is None && f.moves[1] is None
}

/// Addition that saturates at the 64-bit range.
pub open spec fn sat_add(a: u64, d: u64) -> u64 {
    if a <= u64::MAX - d {
        (a + d) as u64
    } else {
        u64::MAX
    }
}

/// The elapsed-time span of a compacted run's tail, saturating.
pub open spec fn spec_span(cm1: u64, delta: u64) -> u64
    recommends
        delta < 65536,
{
    if cm1 <= u64::MAX / 65536 {
        (cm1 * delta) as u64
    } else {
        u64::MAX
    }
}

/// The first position at or past `j` that ends a run of no-move frames
/// sharing `delta`.
pub open spec fn spec_run_end(frames: Seq<Frame>, j: int, delta: u16) -> int
    decreases frames.len() - j,
{
    if 0 <= j < frames.len() && spec_no_move(frames[j]) && frames[j].delta == delta {
        spec_run_end(frames, j + 1, delta)
    } else {
        j
    }
}

/// Finds the end of the run of no-move frames sharing `delta` that starts
/// at `i`.
fn run_end(frames: &Vec<Frame>, i: usize, delta: u16) -> (r: usize)
    requires
        i <= frames@.len(),
    ensures
        i <= r <= frames@.len(),
        r == spec_run_end(frames@, i as int, delta),
{
    let mut j = i;
    while j < frames.len()
        invariant
            i <= j <= frames@.len(),
            spec_run_end(frames@, j as int, delta) == spec_run_end(frames@, i as int, delta),
        decreases frames@.len() - j,
    {
        let g = frames[j];
        if g.moves[0].is_some() || g.moves[1].is_some() {
            return j;
        }
        if g.delta != delta {
            return j;
        }
        j = j + 1;
    }
    j
}

impl TasFile {
    /// One `moveframe` statement with its two move blocks.
    pub open spec fn spec_moveframe_stmt(f: Frame, e1: u64) -> Seq<char> {
        seq![' ', ' ', ' ', ' ', ' ', ' '] + kw_moveframe() + seq![' '] + spec_digits(
            f.delta as nat,
        ) + seq![' '] + kw_ms() + seq![' ', '/', '/'] + spec_digits(e1 as nat) + seq!['\n']
            + Self::spec_print_move(f.moves[0]) + Self::spec_print_move(f.moves[1])
    }

    /// One compacted `frames` run statement with its span comment.
    pub open spec fn spec_frames_stmt(combined: nat, delta: u16, e1: u64, e2: u64) -> Seq<char> {
        seq![' ', ' ', ' ', ' ', ' ', ' '] + kw_frames() + seq![' '] + spec_digits(combined)
            + seq![' '] + spec_digits(delta as nat) + seq![' '] + kw_ms() + seq![
            ' ', '/', '/', ' ',
        ] + spec_digits(e1 as nat) + seq![' ', '-', '>', ' '] + spec_digits(e2 as nat)
            + seq!['\n']
    }

    /// One lone `frame` statement.
    pub open spec fn spec_frame_stmt_text(delta: u16, e1: u64) -> Seq<char> {
        seq![' ', ' ', ' ', ' ', ' ', ' '] + kw_frame() + seq![' '] + spec_digits(delta as nat)
            + seq![' '] + kw_ms() + seq![' ', '/', '/', ' '] + spec_digits(e1 as nat)
            + seq!['\n']
    }

    /// The rendered statements of the frames from `i` on: a run of two or
    /// more no-move frames sharing one delta becomes one `frames`
    /// statement, a lone no-move frame a `frame` statement, and a frame
    /// with moves a `moveframe` statement. The guard on the recursion
    /// records that a run always ends past its start.
    #[verifier::opaque]
    pub open spec fn spec_render_frames(frames: Seq<Frame>, i: int, elapsed: u64) -> Seq<char>
        decreases frames.len() - i,
    {
        if !(0 <= i < frames.len()) {
            Seq::empty()
        } else {
            let f = frames[i];
            let e1 = sat_add(elapsed, f.delta as u64);
            if !spec_no_move(f) {
                Self::spec_moveframe_stmt(f, e1) + Self::spec_render_frames(frames, i + 1, e1)
            } else {
                let end_i = spec_run_end(frames, i, f.delta);
                if end_i - i > 1 {
                    let e2 = sat_add(e1, spec_span((end_i - i - 1) as u64, f.delta as u64));
                    if i < end_i <= frames.len() {
                        Self::spec_frames_stmt((end_i - i) as nat, f.delta, e1, e2)
                            + Self::spec_render_frames(frames, end_i, e2)
                    } else {
                        Seq::empty()
                    }
                } else {
                    Self::spec_frame_stmt_text(f.delta, e1) + Self::spec_render_frames(
                        frames,
                        i + 1,
                        e1,
                    )
                }
            }
        }
    }

    /// The elapsed-time counter after rendering the frames from `i` on.
    #[verifier::opaque]
    pub open spec fn spec_elapsed_after(frames: Seq<Frame>, i: int, elapsed: u64) -> u64
        decreases frames.len() - i,
    {
        if !(0 <= i < frames.len()) {
            elapsed
        } else {
            let f = frames[i];
            let e1 = sat_add(elapsed, f.delta as u64);
            if !spec_no_move(f) {
                Self::spec_elapsed_after(frames, i + 1, e1)
            } else {
                let end_i = spec_run_end(frames, i, f.delta);
                if end_i - i > 1 {
                    let e2 = sat_add(e1, spec_span((end_i - i - 1) as u64, f.delta as u64));
                    if i < end_i <= frames.len() {
                        Self::spec_elapsed_after(frames, end_i, e2)
                    } else {
                        e2
                    }
                } else {
                    Self::spec_elapsed_after(frames, i + 1, e1)
                }
            }
        }
    }

    /// One rendered sequence: its header with the escaped name, its frame
    /// statements, and its closing brace.
    pub open spec fn spec_print_sequence(name: Seq<char>, frames: Seq<Frame>, elapsed: u64) -> Seq<
        char,
    > {
        seq![' ', ' ', ' ', '{', '\n'] + seq![' ', ' ', ' ', ' ', ' ', ' '] + seq!['"']
            + spec_escape(name) + seq!['"'] + seq!['\n'] + Self::spec_render_frames(
            frames,
            0,
            elapsed,
        ) + seq![' ', ' ', ' ', '}', '\n']
    }

    /// The rendered sequences from `q` on, threading the elapsed counter.
    #[verifier::opaque]
    pub open spec fn spec_render_seqs(seqs: Seq<Sequence>, q: int, e: u64) -> Seq<char>
        decreases seqs.len() - q,
    {
        if !(0 <= q < seqs.len()) {
            Seq::empty()
        } else {
            Self::spec_print_sequence(seqs[q].name@, seqs[q].frames@, e) + Self::spec_render_seqs(
                seqs,
                q + 1,
                Self::spec_elapsed_after(seqs[q].frames@, 0, e),
            )
        }
    }

    /// The whole rendered script.
    pub open spec fn spec_render(tf: TasFile) -> Seq<char> {
        seq!['{', '\n', ' ', ' ', ' '] + (seq!['"'] + spec_escape(tf.mission@) + seq!['"'])
            + seq!['\n'] + Self::spec_render_seqs(tf.sequences@, 0, 0) + seq!['}', '\n']
    }
}


impl TasFile {
    /// The rendered text of one angle slot: an absent angle prints as zero.
    pub open spec fn spec_opt_angle_text(a: Option<u16>) -> Seq<char> {
        match a {
            Some(raw) => spec_angle_text(raw),
            None => seq!['0'],
        }
    }

    /// The character of one trigger flag.
    pub open spec fn spec_trigger_char(b: bool) -> char {
        if b {
            '1'
        } else {
            '0'
        }
    }

    /// The camera line of a move block.
    pub open spec fn spec_camera_line(mv: Move) -> Seq<char> {
        seq![' ', ' ', ' ', ' ', ' ', ' ', ' ', ' ', ' '] + kw_camera() + seq![' ', '(']
            + Self::spec_opt_angle_text(mv.yaw) + seq![' '] + Self::spec_opt_angle_text(mv.pitch)
            + seq![' '] + Self::spec_opt_angle_text(mv.roll) + seq![')', '\n']
    }

    /// The move line of a move block.
    pub open spec fn spec_move_line(mv: Move) -> Seq<char> {
        seq![' ', ' ', ' ', ' ', ' ', ' ', ' ', ' ', ' '] + kw_move() + seq![' ', '(']
            + spec_axis_text(mv.mx) + seq![' '] + spec_axis_text(mv.my) + seq![' ']
            + spec_axis_text(mv.mz) + seq![')', '\n']
    }

    /// The triggers line of a move block.
    pub open spec fn spec_trigger_line(mv: Move) -> Seq<char> {
        seq![' ', ' ', ' ', ' ', ' ', ' ', ' ', ' ', ' '] + kw_triggers() + seq![' ', '('] + seq![
            Self::spec_trigger_char(mv.triggers[0]),
            ' ',
            Self::spec_trigger_char(mv.triggers[1]),
            ' ',
            Self::spec_trigger_char(mv.triggers[2]),
            ' ',
            Self::spec_trigger_char(mv.triggers[3]),
            ' ',
            Self::spec_trigger_char(mv.triggers[4]),
            ' ',
            Self::spec_trigger_char(mv.triggers[5]),
        ] + seq![')', '\n']
    }

    /// The rendered block of one move slot: an absent slot is an empty
    /// block; a present one carries its camera, move and triggers lines.
    pub open spec fn spec_print_move(m: Option<Move>) -> Seq<char> {
        let open_line = seq![' ', ' ', ' ', ' ', ' ', ' ', '{', '\n'];
        let close_line = seq![' ', ' ', ' ', ' ', ' ', ' ', '}', '\n'];
        match m {
            None => open_line + close_line,
            Some(mv) => open_line + Self::spec_camera_line(mv) + Self::spec_move_line(mv)
                + Self::spec_trigger_line(mv) + close_line,
        }
    }

    /// Renders the camera line of a present move.
    #[verifier::rlimit(100)]
    fn print_camera_line(mv: &Move, out: &mut Vec<char>)
        ensures
            final(out)@ == old(out)@ + Self::spec_camera_line(*mv),
    {
        let camera: Vec<char> = vec![
            ' ', ' ', ' ', ' ', ' ', ' ', ' ', ' ', ' ', 'c', 'a', 'm', 'e', 'r', 'a', ' ', '(',
        ];
        push_all(out, &camera);
        match mv.yaw {
            Some(raw) => push_angle_text(out, raw),
            None => out.push('0'),
        }
        out.push(' ');
        match mv.pitch {
            Some(raw) => push_angle_text(out, raw),
            None => out.push('0'),
        }
        out.push(' ');
        match mv.roll {
            Some(raw) => push_angle_text(out, raw),
            None => out.push('0'),
        }
        out.push(')');
        out.push('\n');
        proof {
            assert(final(out)@ =~= old(out)@ + Self::spec_camera_line(*mv));
        }
    }

    /// Renders the move line of a present move.
    #[verifier::rlimit(100)]
    fn print_move_line(mv: &Move, out: &mut Vec<char>)
        requires
            mv.wf(),
        ensures
            final(out)@ == old(out)@ + Self::spec_move_line(*mv),
    {
        let movetag: Vec<char> = vec![
            ' ', ' ', ' ', ' ', ' ', ' ', ' ', ' ', ' ', 'm', 'o', 'v', 'e', ' ', '(',
        ];
        push_all(out, &movetag);
        push_axis_text(out, mv.mx);
        out.push(' ');
        push_axis_text(out, mv.my);
        out.push(' ');
        push_axis_text(out, mv.mz);
        out.push(')');
        out.push('\n');
        proof {
            assert(final(out)@ =~= old(out)@ + Self::spec_move_line(*mv));
        }
    }

    /// Renders the triggers line of a present move.
    #[verifier::rlimit(100)]
    fn print_trigger_line(mv: &Move, out: &mut Vec<char>)
        ensures
            final(out)@ == old(out)@ + Self::spec_trigger_line(*mv),
    {
        let trig: Vec<char> = vec![
            ' ', ' ', ' ', ' ', ' ', ' ', ' ', ' ', ' ', 't', 'r', 'i', 'g', 'g', 'e', 'r', 's',
            ' ', '(',
        ];
        push_all(out, &trig);
        out.push(if mv.triggers[0] {
            '1'
        } else {
            '0'
        });
        out.push(' ');
        out.push(if mv.triggers[1] {
            '1'
        } else {
            '0'
        });
        out.push(' ');
        out.push(if mv.triggers[2] {
            '1'
        } else {
            '0'
        });
        out.push(' ');
        out.push(if mv.triggers[3] {
            '1'
        } else {
            '0'
        });
        out.push(' ');
        out.push(if mv.triggers[4] {
            '1'
        } else {
            '0'
        });
        out.push(' ');
        out.push(if mv.triggers[5] {
            '1'
        } else {
            '0'
        });
        out.push(')');
        out.push('\n');
        proof {
            assert(final(out)@ =~= old(out)@ + Self::spec_trigger_line(*mv));
        }
    }

    /// Renders one move slot as its block; an absent slot renders as an
    /// empty block. Absent camera angles print as zero, as the text grammar
    /// cannot express them.
    fn print_move(opt_mv: &Option<Move>, out: &mut Vec<char>)
        requires
            opt_mv matches Some(m) ==> m.wf(),
        ensures
            final(out)@ == old(out)@ + Self::spec_print_move(*opt_mv),
    {
        let open_line: Vec<char> = vec![' ', ' ', ' ', ' ', ' ', ' ', '{', '\n'];
        push_all(out, &open_line);
        match opt_mv {
            Some(mv) => {
                Self::print_camera_line(mv, out);
                Self::print_move_line(mv, out);
                Self::print_trigger_line(mv, out);
            },
            None => {},
        }
        let close_line: Vec<char> = vec![' ', ' ', ' ', ' ', ' ', ' ', '}', '\n'];
        push_all(out, &close_line);
        proof {
            assert(final(out)@ =~= old(out)@ + Self::spec_print_move(*opt_mv));
        }
    }

    /// Renders one sequence. A run of two or more no-move frames sharing
    /// one delta renders as a single `frames` statement; a lone no-move
    /// frame renders as `frame`; a frame with moves renders as `moveframe`
    /// with two move blocks. Every statement carries a cumulative elapsed
    /// time comment, saturating at the counter's range.
    #[verifier::rlimit(100)]
    fn print_sequence(seq: &Sequence, out: &mut Vec<char>, elapsed: &mut u64)
        requires
            all_moves_wf(seq.frames@),
        ensures
            final(out)@ == old(out)@ + Self::spec_print_sequence(
                seq.name@,
                seq.frames@,
                *old(elapsed),
            ),
            *final(elapsed) == Self::spec_elapsed_after(seq.frames@, 0, *old(elapsed)),
    {
        let ghost e0 = *elapsed;
        let indent3: Vec<char> = vec![' ', ' ', ' '];
        let indent6: Vec<char> = vec![' ', ' ', ' ', ' ', ' ', ' '];
        push_all(out, &indent3);
        out.push('{');
        out.push('\n');
        push_all(out, &indent6);
        let esc = TasFile::escape(seq.name.as_str());
        let esc_chars = string_chars(esc.as_str());
        push_all(out, &esc_chars);
        out.push('\n');
        proof {
            assert(out@ =~= old(out)@ + (seq![' ', ' ', ' ', '{', '\n'] + seq![
                ' ', ' ', ' ', ' ', ' ', ' ',
            ] + seq!['"'] + spec_escape(seq.name@) + seq!['"'] + seq!['\n']));
        }
        let ghost hdr = out@;

        let mut i: usize = 0;
        while i < seq.frames.len()
            invariant
                i <= seq.frames@.len(),
                all_moves_wf(seq.frames@),
                out@ + Self::spec_render_frames(seq.frames@, i as int, *elapsed) == hdr
                    + Self::spec_render_frames(seq.frames@, 0, e0),
                Self::spec_elapsed_after(seq.frames@, i as int, *elapsed)
                    == Self::spec_elapsed_after(seq.frames@, 0, e0),
            decreases seq.frames@.len() - i,
        {
            proof {
                reveal(TasFile::spec_render_frames);
                reveal(TasFile::spec_elapsed_after);
            }
            let ghost out_at = out@;
            let frame = seq.frames[i];
            let delta64 = frame.delta as u64;
            *elapsed = if *elapsed <= u64::MAX - delta64 {
                *elapsed + delta64
            } else {
                u64::MAX
            };
            if frame.has_move() {
                proof {
                    assert(seq.frames@[i as int].moves[0] matches Some(m) ==> m.wf());
                    assert(seq.frames@[i as int].moves[1] matches Some(m) ==> m.wf());
                }
                Self::print_moveframe_stmt(&frame, *elapsed, out);
                proof {
                    assert(out_at + (Self::spec_moveframe_stmt(frame, *elapsed)
                        + Self::spec_render_frames(seq.frames@, i + 1, *elapsed)) =~= (out_at
                        + Self::spec_moveframe_stmt(frame, *elapsed)) + Self::spec_render_frames(
                        seq.frames@,
                        i + 1,
                        *elapsed,
                    ));
                }
            } else {
                // count how many identical no-move frames follow
                let j = run_end(&seq.frames, i, frame.delta);
                let combined: usize = j - i;
                proof {
                    assert(combined == spec_run_end(seq.frames@, i as int, frame.delta) - i);
                }
                if combined > 1 {
                    i = i + (combined - 1);
                    let cm1 = (combined - 1) as u64;
                    let span = if cm1 <= u64::MAX / 65536 {
                        proof {
                            assert((cm1 as int) * (delta64 as int) <= 281474976710655int
                                * 65535int) by (nonlinear_arith)
                                requires
                                    cm1 <= 281474976710655,
                                    delta64 <= 65535,
                            ;
                        }
                        cm1 * delta64
                    } else {
                        u64::MAX
                    };
                    let end = if *elapsed <= u64::MAX - span {
                        *elapsed + span
                    } else {
                        u64::MAX
                    };
                    Self::print_frames_stmt(combined as u64, delta64, *elapsed, end, out);
                    proof {
                        assert(out_at + (Self::spec_frames_stmt(
                            combined as nat,
                            frame.delta,
                            *elapsed,
                            end,
                        ) + Self::spec_render_frames(seq.frames@, i + 1, end)) =~= (out_at
                            + Self::spec_frames_stmt(combined as nat, frame.delta, *elapsed, end))
                            + Self::spec_render_frames(seq.frames@, i + 1, end));
                    }
                    *elapsed = end;
                } else {
                    Self::print_frame_stmt_text(delta64, *elapsed, out);
                    proof {
                        assert(out_at + (Self::spec_frame_stmt_text(frame.delta, *elapsed)
                            + Self::spec_render_frames(seq.frames@, i + 1, *elapsed)) =~= (out_at
                            + Self::spec_frame_stmt_text(frame.delta, *elapsed))
                            + Self::spec_render_frames(seq.frames@, i + 1, *elapsed));
                    }
                }
            }
            i = i + 1;
        }
        proof {
            reveal(TasFile::spec_render_frames);
            reveal(TasFile::spec_elapsed_after);
        }
        push_all(out, &indent3);
        out.push('}');
        out.push('\n');
        proof {
            assert(final(out)@ =~= old(out)@ + Self::spec_print_sequence(
                seq.name@,
                seq.frames@,
                e0,
            ));
        }
    }

    /// Renders one `moveframe` statement with its two move blocks.
    #[verifier::rlimit(100)]
    fn print_moveframe_stmt(frame: &Frame, e1: u64, out: &mut Vec<char>)
        requires
            frame.moves[0] matches Some(m) ==> m.wf(),
            frame.moves[1] matches Some(m) ==> m.wf(),
        ensures
            final(out)@ == old(out)@ + Self::spec_moveframe_stmt(*frame, e1),
    {
        let indent6: Vec<char> = vec![' ', ' ', ' ', ' ', ' ', ' '];
        let kw: Vec<char> = vec!['m', 'o', 'v', 'e', 'f', 'r', 'a', 'm', 'e'];
        let ms: Vec<char> = vec!['m', 's'];
        push_all(out, &indent6);
        push_all(out, &kw);
        out.push(' ');
        push_u64_text(out, frame.delta as u64);
        out.push(' ');
        push_all(out, &ms);
        out.push(' ');
        out.push('/');
        out.push('/');
        push_u64_text(out, e1);
        out.push('\n');
        let m0 = frame.moves[0];
        let m1 = frame.moves[1];
        TasFile::print_move(&m0, out);
        TasFile::print_move(&m1, out);
        proof {
            assert(final(out)@ =~= old(out)@ + Self::spec_moveframe_stmt(*frame, e1));
        }
    }

    /// Renders one compacted `frames` run statement.
    #[verifier::rlimit(100)]
    fn print_frames_stmt(combined: u64, delta64: u64, e1: u64, e2: u64, out: &mut Vec<char>)
        requires
            delta64 < 65536,
        ensures
            final(out)@ == old(out)@ + Self::spec_frames_stmt(
                combined as nat,
                delta64 as u16,
                e1,
                e2,
            ),
    {
        let indent6: Vec<char> = vec![' ', ' ', ' ', ' ', ' ', ' '];
        let kw: Vec<char> = vec!['f', 'r', 'a', 'm', 'e', 's'];
        let ms: Vec<char> = vec!['m', 's'];
        push_all(out, &indent6);
        push_all(out, &kw);
        out.push(' ');
        push_u64_text(out, combined);
        out.push(' ');
        push_u64_text(out, delta64);
        out.push(' ');
        push_all(out, &ms);
        out.push(' ');
        out.push('/');
        out.push('/');
        out.push(' ');
        push_u64_text(out, e1);
        out.push(' ');
        out.push('-');
        out.push('>');
        out.push(' ');
        push_u64_text(out, e2);
        out.push('\n');
        proof {
            assert(final(out)@ =~= old(out)@ + Self::spec_frames_stmt(
                combined as nat,
                delta64 as u16,
                e1,
                e2,
            ));
        }
    }

    /// Renders one lone `frame` statement.
    #[verifier::rlimit(100)]
    fn print_frame_stmt_text(delta64: u64, e1: u64, out: &mut Vec<char>)
        requires
            delta64 < 65536,
        ensures
            final(out)@ == old(out)@ + Self::spec_frame_stmt_text(delta64 as u16, e1),
    {
        let indent6: Vec<char> = vec![' ', ' ', ' ', ' ', ' ', ' '];
        let kw: Vec<char> = vec!['f', 'r', 'a', 'm', 'e'];
        let ms: Vec<char> = vec!['m', 's'];
        push_all(out, &indent6);
        push_all(out, &kw);
        out.push(' ');
        push_u64_text(out, delta64);
        out.push(' ');
        push_all(out, &ms);
        out.push(' ');
        out.push('/');
        out.push('/');
        out.push(' ');
        push_u64_text(out, e1);
        out.push('\n');
        proof {
            assert(final(out)@ =~= old(out)@ + Self::spec_frame_stmt_text(delta64 as u16, e1));
        }
    }

    /// Renders the whole script: the mission line, each sequence in order
    /// with the elapsed-time counter threaded through, and the closing
    /// brace. The inverse of [`TasFile::parse`] up to comments, which the
    /// parser strips.
    #[verifier::rlimit(100)]
    pub fn print(&self) -> (r: String)
        requires
            forall|q: int|
                0 <= q < self.sequences@.len() ==> all_moves_wf(
                    (#[trigger] self.sequences@[q]).frames@,
                ),
        ensures
            r@ == Self::spec_render(*self),
    {
        let mut out: Vec<char> = Vec::new();
        out.push('{');
        out.push('\n');
        let indent3: Vec<char> = vec![' ', ' ', ' '];
        push_all(&mut out, &indent3);
        let esc = TasFile::escape(self.mission.as_str());
        let esc_chars = string_chars(esc.as_str());
        push_all(&mut out, &esc_chars);
        out.push('\n');
        proof {
            assert(out@ =~= seq!['{', '\n', ' ', ' ', ' '] + (seq!['"'] + spec_escape(
                self.mission@,
            ) + seq!['"']) + seq!['\n']);
        }
        let ghost hdr = out@;
        let mut elapsed: u64 = 0;
        let mut q: usize = 0;
        while q < self.sequences.len()
            invariant
                q <= self.sequences@.len(),
                forall|t: int|
                    0 <= t < self.sequences@.len() ==> all_moves_wf(
                        (#[trigger] self.sequences@[t]).frames@,
                    ),
                out@ + Self::spec_render_seqs(self.sequences@, q as int, elapsed) == hdr
                    + Self::spec_render_seqs(self.sequences@, 0, 0),
            decreases self.sequences@.len() - q,
        {
            proof {
                reveal(TasFile::spec_render_seqs);
            }
            let ghost out_at = out@;
            let ghost e_at = elapsed;
            TasFile::print_sequence(&self.sequences[q], &mut out, &mut elapsed);
            proof {
                let sq = self.sequences@[q as int];
                assert(out_at + (Self::spec_print_sequence(sq.name@, sq.frames@, e_at)
                    + Self::spec_render_seqs(self.sequences@, q + 1, elapsed)) =~= (out_at
                    + Self::spec_print_sequence(sq.name@, sq.frames@, e_at))
                    + Self::spec_render_seqs(self.sequences@, q + 1, elapsed));
            }
            q = q + 1;
        }
        proof {
            reveal(TasFile::spec_render_seqs);
        }
        out.push('}');
        out.push('\n');
        proof {
            assert(out@ =~= Self::spec_render(*self));
        }
        chars_to_string(&out)
    }

    /// Wraps a name in quotes, escaping backslashes and quotes.
    pub fn escape(value: &str) -> (r: String)
        ensures
            r@ == seq!['"'] + spec_escape(value@) + seq!['"'],
    {
        let chars = string_chars(value);
        let mut out: Vec<char> = Vec::new();
        out.push('"');
        let mut i: usize = 0;
        while i < chars.len()
            invariant
                i <= chars@.len(),
                out@ == seq!['"'] + spec_escape(chars@.take(i as int)),
            decreases chars@.len() - i,
        {
            let c = chars[i];
            if c == '\\' {
                out.push('\\');
                out.push('\\');
            } else if c == '"' {
                out.push('\\');
                out.push('"');
            } else {
                out.push(c);
            }
            proof {
                lemma_escape_snoc(chars@, i as int);
            }
            i = i + 1;
        }
        proof {
            assert(chars@.take(chars@.len() as int) =~= chars@);
        }
        out.push('"');
        chars_to_string(&out)
    }
}

/// Escaping one more character appends that character's escape.
proof fn lemma_escape_snoc(s: Seq<char>, i: int)
    requires
        0 <= i < s.len(),
    ensures
        spec_escape(s.take(i + 1)) == spec_escape(s.take(i)) + spec_escape_char(s[i]),
    decreases i,
{
    if i == 0 {
        let t1 = s.take(1);
        assert(t1.len() == 1 && t1[0] == s[0]);
        assert(t1.skip(1) =~= Seq::<char>::empty());
        assert(spec_escape(t1.skip(1)) == Seq::<char>::empty());
        assert(spec_escape(t1) == spec_escape_char(s[0]) + spec_escape(t1.skip(1)));
        assert(spec_escape_char(s[0]) + Seq::<char>::empty() =~= spec_escape_char(s[0]));
        assert(s.take(0) =~= Seq::<char>::empty());
        assert(spec_escape(s.take(0)) == Seq::<char>::empty());
        assert(Seq::<char>::empty() + spec_escape_char(s[0]) =~= spec_escape_char(s[0]));
    } else {
        lemma_escape_snoc(s.skip(1), i - 1);
        assert(s.take(i + 1)[0] == s[0]);
        assert(s.take(i + 1).skip(1) =~= s.skip(1).take(i));
        assert(s.take(i).skip(1) =~= s.skip(1).take(i - 1));
        assert(s.take(i)[0] == s[0]);
        assert(s.skip(1)[i - 1] == s[i]);
        assert(spec_escape(s.take(i + 1)) == spec_escape_char(s[0]) + spec_escape(
            s.skip(1).take(i),
        ));
        assert(spec_escape(s.take(i)) == spec_escape_char(s[0]) + spec_escape(
            s.skip(1).take(i - 1),
        ));
        assert((spec_escape_char(s[0]) + (spec_escape(s.skip(1).take(i - 1)) + spec_escape_char(
            s[i],
        ))) =~= (spec_escape_char(s[0]) + spec_escape(s.skip(1).take(i - 1))) + spec_escape_char(
            s[i],
        ));
    }
}

/// The frames of all sequences, concatenated in order.
pub open spec fn flatten_frames(seqs: Seq<Sequence>) -> Seq<Frame>
    decreases seqs.len(),
{
    if seqs.len() == 0 {
        Seq::empty()
    } else {
        seqs[0].frames@ + flatten_frames(seqs.skip(1))
    }
}

/// Every present Move in the given frames is wire-valid.
pub open spec fn all_moves_wf(frames: Seq<Frame>) -> bool {
    forall|k: int|
        0 <= k < frames.len() ==> ((#[trigger] frames[k]).moves[0] matches Some(m) ==> m.wf())
            && (frames[k].moves[1] matches Some(m) ==> m.wf())
}

/// Relies on `str::chars`: the characters of the string, in order.
#[verifier::external_body]
fn string_chars(s: &str) -> (v: Vec<char>)
    ensures
        v@ == s@,
{
    s.chars().collect()
}

/// The name given to the single sequence of an imported Recording.
pub open spec fn imported_name() -> Seq<char> {
    seq!['I', 'm', 'p', 'o', 'r', 't', 'e', 'd']
}

/// Builds the imported-sequence name.
fn new_imported_name() -> (r: String)
    ensures
        r@ == imported_name(),
{
    let v: Vec<char> = vec!['I', 'm', 'p', 'o', 'r', 't', 'e', 'd'];
    proof {
        assert(v@ =~= imported_name());
    }
    chars_to_string(&v)
}

} // verus!
