use vstd::prelude::*;
use crate::error::ErrorV;
use crate::reply::ReplyV;

verus! {

// Byte values of the protocol's fixed characters.
pub const CR: u8 = 13;
pub const LF: u8 = 10;
pub const TAG_SINGLE: u8 = 43;
pub const TAG_ERROR: u8 = 45;
pub const TAG_INTEGER: u8 = 58;
pub const TAG_BULK: u8 = 36;
pub const TAG_ARRAY: u8 = 42;
pub const PLUS_SIGN: u8 = 43;
pub const MINUS_SIGN: u8 = 45;
pub const DIGIT_ZERO: u8 = 48;

/// How many nested array levels the decoder will follow before treating the
/// input as hostile; beyond it decoding fails with a protocol violation.
pub const MAX_DEPTH: u64 = 64;

/// The two-byte line terminator.
pub open spec fn crlf() -> Seq<u8> {
    seq![CR, LF]
}

pub open spec fn is_ascii_digit(b: u8) -> bool {
    DIGIT_ZERO <= b <= DIGIT_ZERO + 9
}

pub open spec fn all_digits(s: Seq<u8>) -> bool {
    forall|i: int| 0 <= i < s.len() ==> is_ascii_digit(#[trigger] s[i])
}

/// The numeric value of a string of decimal digits, most significant first.
pub open spec fn dec_val(s: Seq<u8>) -> nat
    decreases s.len(),
{
    if s.len() == 0 {
        0
    } else {
        (dec_val(s.drop_last()) * 10 + (s.last() - DIGIT_ZERO)) as nat
    }
}

/// The decimal digits of `n`, most significant first, with no leading
/// zeros (0 itself writes as "0").
pub open spec fn dec_rep(n: nat) -> Seq<u8>
    decreases n,
{
    if n < 10 {
        seq![(DIGIT_ZERO + n) as u8]
    } else {
        dec_rep(n / 10).push((DIGIT_ZERO + n % 10) as u8)
    }
}

/// Parse a payload as a base-10 signed 64-bit integer, as the wire uses
/// them: an optional `+` or `-` sign, then one or more digits, with the
/// value within the 64-bit signed range. Anything else is `None`.
pub open spec fn parse_int(s: Seq<u8>) -> Option<int> {
    let negative = s.len() > 0 && s[0] == MINUS_SIGN;
    let digits = if s.len() > 0 && (s[0] == PLUS_SIGN || s[0] == MINUS_SIGN) {
        s.subrange(1, s.len() as int)
    } else {
        s
    };
    if digits.len() == 0 || !all_digits(digits) {
        None
    } else {
        let v = if negative {
            -(dec_val(digits) as int)
        } else {
            dec_val(digits) as int
        };
        if i64::MIN <= v <= i64::MAX {
            Some(v)
        } else {
            None
        }
    }
}

/// One argument on the wire: `$<len>\r\n<bytes>\r\n`.
pub open spec fn encode_arg(a: Seq<u8>) -> Seq<u8> {
    seq![TAG_BULK] + dec_rep(a.len()) + crlf() + a + crlf()
}

/// The arguments of a command, one encoded after the other.
pub open spec fn encode_args(args: Seq<Seq<u8>>) -> Seq<u8>
    decreases args.len(),
{
    if args.len() == 0 {
        Seq::empty()
    } else {
        encode_arg(args.first()) + encode_args(args.drop_first())
    }
}

/// A whole command on the wire: `*<argc>\r\n` then each argument in turn.
pub open spec fn encode_command(args: Seq<Seq<u8>>) -> Seq<u8> {
    seq![TAG_ARRAY] + dec_rep(args.len()) + crlf() + encode_args(args)
}

/// The smallest index `j >= pos` with `s[j] == LF`, if any: where a read
/// up to and including a line feed would stop.
pub open spec fn find_lf(s: Seq<u8>, pos: int) -> Option<int>
    decreases s.len() - pos,
{
    if pos < 0 || pos >= s.len() {
        None
    } else if s[pos] == LF {
        Some(pos)
    } else {
        find_lf(s, pos + 1)
    }
}

/// What decoding one frame out of a byte sequence yields.
pub enum SpecFrame {
    /// A complete frame: its value, and the position just past it.
    Done(ReplyV, int),
    /// The bytes so far hold only part of a frame.
    More,
    /// The bytes hold a complete but invalid frame, or a failure sentinel.
    Bad(ErrorV),
}

/// What decoding a run of consecutive element frames yields.
pub enum SpecElems {
    Done(Seq<ReplyV>, int),
    More,
    Bad(ErrorV),
}

/// Decode exactly one frame of `s` starting at `pos`, following nested
/// arrays at most `depth` levels deep.
///
/// The frame's first line runs to the first line feed at or after `pos`;
/// it must end in `\r\n` and hold a tag byte. The tag then fixes the rest
/// of the grammar: `+`, `-` and `:` frames are the line alone; `$` is
/// followed by a counted blob and a terminator; `*` by counted nested
/// frames. A negative bulk length is the absent-value sentinel and fails
/// with `KeyNotFound`; a negative array count is the absent array, a value
/// of its own.
pub open spec fn spec_decode(s: Seq<u8>, pos: int, depth: nat) -> SpecFrame
    decreases depth, 0int, 0int,
{
    if depth == 0 {
        SpecFrame::Bad(ErrorV::ProtocolViolation)
    } else {
        match find_lf(s, pos) {
            Option::None => SpecFrame::More,
            Option::Some(j) => {
                if j < pos + 2 || s[j - 1] != CR {
                    SpecFrame::Bad(ErrorV::ProtocolViolation)
                } else {
                    let tag = s[pos];
                    let payload = s.subrange(pos + 1, j - 1);
                    let next = j + 1;
                    if tag == TAG_SINGLE {
                        SpecFrame::Done(ReplyV::SingleLine(payload), next)
                    } else if tag == TAG_ERROR {
                        SpecFrame::Done(ReplyV::ErrorLine(payload), next)
                    } else if tag == TAG_INTEGER {
                        match parse_int(payload) {
                            Option::Some(v) => SpecFrame::Done(ReplyV::Integer(v), next),
                            Option::None => SpecFrame::Bad(ErrorV::MalformedInteger),
                        }
                    } else if tag == TAG_BULK {
                        match parse_int(payload) {
                            Option::None => SpecFrame::Bad(ErrorV::ProtocolViolation),
                            Option::Some(len) => {
                                if len < 0 {
                                    SpecFrame::Bad(ErrorV::KeyNotFound)
                                } else if s.len() < next + len + 2 {
                                    SpecFrame::More
                                } else if s[next + len] != CR || s[next + len + 1] != LF {
                                    SpecFrame::Bad(ErrorV::ProtocolViolation)
                                } else {
                                    SpecFrame::Done(
                                        ReplyV::BulkPayload(s.subrange(next, next + len)),
                                        next + len + 2,
                                    )
                                }
                            },
                        }
                    } else if tag == TAG_ARRAY {
                        match parse_int(payload) {
                            Option::None => SpecFrame::Bad(ErrorV::ProtocolViolation),
                            Option::Some(count) => {
                                if count < 0 {
                                    SpecFrame::Done(ReplyV::AbsentArray, next)
                                } else {
                                    match spec_decode_elems(s, next, count, (depth - 1) as nat) {
                                        SpecElems::Done(vs, p) => SpecFrame::Done(
                                            ReplyV::Array(vs),
                                            p,
                                        ),
                                        SpecElems::More => SpecFrame::More,
                                        SpecElems::Bad(e) => SpecFrame::Bad(e),
                                    }
                                }
                            },
                        }
                    } else {
                        SpecFrame::Bad(ErrorV::UnknownTypeTag)
                    }
                }
            },
        }
    }
}

/// Decode `count` consecutive frames of `s` starting at `pos`, in order.
pub open spec fn spec_decode_elems(s: Seq<u8>, pos: int, count: int, depth: nat) -> SpecElems
    decreases depth, 1int, count,
{
    if count <= 0 {
        SpecElems::Done(Seq::empty(), pos)
    } else {
        match spec_decode(s, pos, depth) {
            SpecFrame::Done(v, p) => match spec_decode_elems(s, p, count - 1, depth) {
                SpecElems::Done(vs, q) => SpecElems::Done(seq![v] + vs, q),
                SpecElems::More => SpecElems::More,
                SpecElems::Bad(e) => SpecElems::Bad(e),
            },
            SpecFrame::More => SpecElems::More,
            SpecFrame::Bad(e) => SpecElems::Bad(e),
        }
    }
}

/// Where a line feed is found, it lies within the sequence.
pub proof fn lemma_find_lf_bounds(s: Seq<u8>, pos: int)
    ensures
        find_lf(s, pos) matches Some(j) ==> pos <= j < s.len() && s[j] == LF,
    decreases s.len() - pos,
{
    if pos < 0 || pos >= s.len() {
    } else if s[pos] == LF {
    } else {
        lemma_find_lf_bounds(s, pos + 1);
    }
}

/// A complete frame ends at or before the end of the input, and consumes
/// at least one byte.
pub proof fn lemma_decode_bounds(s: Seq<u8>, pos: int, depth: nat)
    requires
        0 <= pos <= s.len(),
    ensures
        spec_decode(s, pos, depth) matches SpecFrame::Done(v, p) ==> pos < p <= s.len(),
    decreases depth, 0int, 0int,
{
    if depth == 0 {
    } else {
        match find_lf(s, pos) {
            Option::None => {},
            Option::Some(j) => {
                lemma_find_lf_bounds(s, pos);
                if j < pos + 2 || s[j - 1] != CR {
                } else if s[pos] == TAG_ARRAY {
                    match parse_int(s.subrange(pos + 1, j - 1)) {
                        Option::None => {},
                        Option::Some(count) => {
                            if count >= 0 {
                                lemma_elems_bounds(s, j + 1, count, (depth - 1) as nat);
                            }
                        },
                    }
                }
            },
        }
    }
}

/// A complete run of element frames ends at or before the end of the
/// input.
pub proof fn lemma_elems_bounds(s: Seq<u8>, pos: int, count: int, depth: nat)
    requires
        0 <= pos <= s.len(),
    ensures
        spec_decode_elems(s, pos, count, depth) matches SpecElems::Done(vs, q) ==> pos <= q
            <= s.len(),
    decreases depth, 1int, count,
{
    if count <= 0 {
    } else {
        lemma_decode_bounds(s, pos, depth);
        match spec_decode(s, pos, depth) {
            SpecFrame::Done(v, p) => {
                lemma_elems_bounds(s, p, count - 1, depth);
            },
            _ => {},
        }
    }
}

} // verus!
