use vstd::prelude::*;
use vstd::slice::slice_subrange;
use vstd::slice::slice_to_vec;
use crate::error::Error;
use crate::numbers::byte_at;
use crate::numbers::parse_i64_range;
use crate::reply::views_of;
use crate::reply::Reply;
use crate::reply::ReplyV;
use crate::wire::find_lf;
use crate::wire::lemma_decode_bounds;
use crate::wire::lemma_find_lf_bounds;
use crate::wire::spec_decode;
use crate::wire::spec_decode_elems;
use crate::wire::SpecElems;
use crate::wire::SpecFrame;
use crate::wire::CR;
use crate::wire::LF;
use crate::wire::MAX_DEPTH;
use crate::wire::TAG_ARRAY;
use crate::wire::TAG_BULK;
use crate::wire::TAG_ERROR;
use crate::wire::TAG_INTEGER;
use crate::wire::TAG_SINGLE;

verus! {

/// Why `decode_frame` returned no reply.
#[derive(Debug, PartialEq)]
pub enum DecodeError {
    /// The buffer ends before the frame does: not a fault, the rest of the
    /// frame has not arrived yet. Read more bytes and decode again.
    Incomplete,
    /// The frame is complete but cannot be accepted.
    Failed(Error),
}

/// The outcome a decode result stands for.
pub open spec fn frame_outcome(r: Result<(Reply, usize), DecodeError>) -> SpecFrame {
    match r {
        Ok((reply, next)) => SpecFrame::Done(reply@, next as int),
        Err(DecodeError::Incomplete) => SpecFrame::More,
        Err(DecodeError::Failed(e)) => SpecFrame::Bad(e@),
    }
}

/// The outcome a run-of-elements decode result stands for.
pub open spec fn elems_outcome(r: Result<(Vec<Reply>, usize), DecodeError>) -> SpecElems {
    match r {
        Ok((elems, next)) => SpecElems::Done(views_of(elems@), next as int),
        Err(DecodeError::Incomplete) => SpecElems::More,
        Err(DecodeError::Failed(e)) => SpecElems::Bad(e@),
    }
}

/// Element values already decoded, glued onto whatever the rest of the
/// run yields.
spec fn elems_glue(ws: Seq<ReplyV>, o: SpecElems) -> SpecElems {
    match o {
        SpecElems::Done(vs, q) => SpecElems::Done(ws + vs, q),
        SpecElems::More => SpecElems::More,
        SpecElems::Bad(e) => SpecElems::Bad(e),
    }
}

proof fn lemma_glue_glue(ws: Seq<ReplyV>, hs: Seq<ReplyV>, o: SpecElems)
    ensures
        elems_glue(ws, elems_glue(hs, o)) == elems_glue(ws + hs, o),
{
    match o {
        SpecElems::Done(vs, q) => {
            assert(ws + (hs + vs) =~= (ws + hs) + vs);
        },
        _ => {},
    }
}

proof fn lemma_views_push(elems: Seq<Reply>, x: Reply)
    ensures
        views_of(elems.push(x)) == views_of(elems) + seq![x@],
{
    assert(views_of(elems.push(x)) =~= views_of(elems) + seq![x@]);
}

/// The position just past the first line, where the line runs to the
/// first line feed at or after `pos`.
#[verifier::loop_isolation(false)]
fn find_line_end(buf: &[u8], pos: usize) -> (r: Option<usize>)
    requires
        pos <= buf@.len(),
    ensures
        match r {
            Some(j) => find_lf(buf@, pos as int) == Some(j as int) && pos <= j < buf@.len(),
            None => find_lf(buf@, pos as int) is None,
        },
{
    let mut k: usize = pos;
    while k < buf.len()
        invariant
            pos <= k <= buf@.len(),
            find_lf(buf@, pos as int) == find_lf(buf@, k as int),
        decreases buf@.len() - k,
    {
        if byte_at(buf, k) == LF {
            return Some(k);
        }
        proof {
            assert(find_lf(buf@, k as int) == find_lf(buf@, k + 1));
        }
        k = k + 1;
    }
    None
}

/// Decode one frame of `buf` at `pos`, following nested arrays at most
/// `depth` levels deep.
fn decode_at(buf: &[u8], pos: usize, depth: u64) -> (r: Result<(Reply, usize), DecodeError>)
    requires
        pos <= buf@.len(),
    ensures
        frame_outcome(r) == spec_decode(buf@, pos as int, depth as nat),
    decreases depth, 0int, 0int,
{
    if depth == 0 {
        return Err(DecodeError::Failed(Error::ProtocolViolation));
    }
    // Pins the slice's length as a machine word, so the positions that the
    // frame's grammar yields are known to fit one too.
    let buf_len: usize = buf.len();
    let line_end = find_line_end(buf, pos);
    match line_end {
        None => Err(DecodeError::Incomplete),
        Some(j) => {
            if j - pos < 2 || byte_at(buf, j - 1) != CR {
                return Err(DecodeError::Failed(Error::ProtocolViolation));
            }
            let tag = byte_at(buf, pos);
            let next = j + 1;
            if tag == TAG_SINGLE {
                let data = slice_to_vec(slice_subrange(buf, pos + 1, j - 1));
                Ok((Reply::SingleLine(data), next))
            } else if tag == TAG_ERROR {
                let data = slice_to_vec(slice_subrange(buf, pos + 1, j - 1));
                Ok((Reply::ErrorLine(data), next))
            } else if tag == TAG_INTEGER {
                match parse_i64_range(buf, pos + 1, j - 1) {
                    Some(v) => Ok((Reply::Integer(v), next)),
                    None => Err(DecodeError::Failed(Error::MalformedInteger)),
                }
            } else if tag == TAG_BULK {
                match parse_i64_range(buf, pos + 1, j - 1) {
                    None => Err(DecodeError::Failed(Error::ProtocolViolation)),
                    Some(len) => {
                        if len < 0 {
                            Err(DecodeError::Failed(Error::KeyNotFound))
                        } else {
                            let avail: usize = buf_len - next;
                            if (len as u128) + 2 > (avail as u128) {
                                Err(DecodeError::Incomplete)
                            } else {
                                let l: usize = len as usize;
                                let data_end = next + l;
                                if byte_at(buf, data_end) != CR || byte_at(buf, data_end + 1) != LF
                                {
                                    Err(DecodeError::Failed(Error::ProtocolViolation))
                                } else {
                                    let data = slice_to_vec(slice_subrange(buf, next, data_end));
                                    Ok((Reply::BulkPayload(data), data_end + 2))
                                }
                            }
                        }
                    },
                }
            } else if tag == TAG_ARRAY {
                match parse_i64_range(buf, pos + 1, j - 1) {
                    None => Err(DecodeError::Failed(Error::ProtocolViolation)),
                    Some(count) => {
                        if count < 0 {
                            Ok((Reply::AbsentArray, next))
                        } else {
                            match decode_elems(buf, next, count, depth - 1) {
                                Err(e) => Err(e),
                                Ok((elems, p)) => Ok((Reply::Array(elems), p)),
                            }
                        }
                    },
                }
            } else {
                Err(DecodeError::Failed(Error::UnknownTypeTag))
            }
        },
    }
}

/// Decode `count` consecutive element frames of `buf` at `pos`, in order.
#[verifier::loop_isolation(false)]
fn decode_elems(buf: &[u8], pos: usize, count: i64, depth: u64) -> (r: Result<
    (Vec<Reply>, usize),
    DecodeError,
>)
    requires
        pos <= buf@.len(),
        0 <= count,
    ensures
        elems_outcome(r) == spec_decode_elems(buf@, pos as int, count as int, depth as nat),
    decreases depth, 1int, 0int,
{
    let mut elems: Vec<Reply> = Vec::new();
    let mut p: usize = pos;
    let mut idx: i64 = 0;
    while idx < count
        invariant
            0 <= idx <= count,
            pos <= p <= buf@.len(),
            spec_decode_elems(buf@, pos as int, count as int, depth as nat) == elems_glue(
                views_of(elems@),
                spec_decode_elems(buf@, p as int, count - idx, depth as nat),
            ),
        decreases count - idx,
    {
        proof {
            lemma_decode_bounds(buf@, p as int, depth as nat);
        }
        match decode_at(buf, p, depth) {
            Err(e) => {
                return Err(e);
            },
            Ok((head, p2)) => {
                proof {
                    assert(spec_decode_elems(buf@, p as int, count - idx, depth as nat)
                        == elems_glue(
                        seq![head@],
                        spec_decode_elems(buf@, p2 as int, count - idx - 1, depth as nat),
                    ));
                    lemma_glue_glue(
                        views_of(elems@),
                        seq![head@],
                        spec_decode_elems(buf@, p2 as int, count - idx - 1, depth as nat),
                    );
                    lemma_views_push(elems@, head);
                }
                elems.push(head);
                p = p2;
                idx = idx + 1;
            },
        }
    }
    proof {
        assert(views_of(elems@) + Seq::<ReplyV>::empty() =~= views_of(elems@));
    }
    Ok((elems, p))
}

/// Decode exactly one reply frame of `buf` starting at `pos`, consuming
/// nothing past it: on success the returned position is just past the
/// frame, so a caller that buffered more than one frame decodes the next
/// from there.
///
/// The frame's value is exactly what [`spec_decode`] gives for these
/// bytes, with nesting followed at most [`MAX_DEPTH`] levels deep.
pub fn decode_frame(buf: &[u8], pos: usize) -> (r: Result<(Reply, usize), DecodeError>)
    requires
        pos <= buf@.len(),
    ensures
        frame_outcome(r) == spec_decode(buf@, pos as int, MAX_DEPTH as nat),
        r matches Ok(p) ==> pos < p.1 <= buf@.len(),
{
    proof {
        lemma_decode_bounds(buf@, pos as int, MAX_DEPTH as nat);
    }
    decode_at(buf, pos, MAX_DEPTH)
}

} // verus!
