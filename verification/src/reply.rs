use vstd::prelude::*;
use crate::error::Error;
use crate::error::ErrorV;
use crate::numbers::parse_i64_range;
use crate::wire::parse_int;

verus! {

/// The five single-byte type tags a reply frame may begin with.
#[derive(Clone, Copy, Debug, PartialEq, Eq, Structural)]
pub enum ReplyKind {
    /// `+`: a short status line.
    SingleLine,
    /// `-`: a short error line reported by the peer.
    ErrorLine,
    /// `:`: a signed 64-bit integer, textual on the wire.
    Integer,
    /// `$`: a length-prefixed, binary-safe byte blob.
    BulkPayload,
    /// `*`: an ordered sequence of nested reply frames.
    Array,
}

/// The mathematical value of a decoded reply frame.
pub enum ReplyV {
    SingleLine(Seq<u8>),
    ErrorLine(Seq<u8>),
    Integer(int),
    BulkPayload(Seq<u8>),
    Array(Seq<ReplyV>),
    AbsentArray,
}

/// One reply from the peer, decoded from exactly one frame.
///
/// A negative array count on the wire (`*-1`) denotes an absent array,
/// distinct from an empty one; it decodes to `AbsentArray`.
#[derive(Debug, PartialEq)]
pub enum Reply {
    SingleLine(Vec<u8>),
    ErrorLine(Vec<u8>),
    Integer(i64),
    BulkPayload(Vec<u8>),
    Array(Vec<Reply>),
    AbsentArray,
}

impl View for Reply {
    type V = ReplyV;

    open spec fn view(&self) -> ReplyV
        decreases self,
    {
        match self {
            Reply::SingleLine(d) => ReplyV::SingleLine(d@),
            Reply::ErrorLine(d) => ReplyV::ErrorLine(d@),
            Reply::Integer(v) => ReplyV::Integer(*v as int),
            Reply::BulkPayload(d) => ReplyV::BulkPayload(d@),
            Reply::Array(elems) => ReplyV::Array(views_of(elems@)),
            Reply::AbsentArray => ReplyV::AbsentArray,
        }
    }
}

/// The values of a sequence of replies, in order.
pub open spec fn views_of(elems: Seq<Reply>) -> Seq<ReplyV>
    decreases elems,
{
    Seq::new(
        elems.len(),
        |i: int| if 0 <= i < elems.len() {
            elems[i]@
        } else {
            ReplyV::AbsentArray
        },
    )
}

impl ReplyV {
    /// The tag a reply value arrives under on the wire. An absent array
    /// arrives under the array tag, as its `-1` count sentinel.
    pub open spec fn kind(self) -> ReplyKind {
        match self {
            ReplyV::SingleLine(_) => ReplyKind::SingleLine,
            ReplyV::ErrorLine(_) => ReplyKind::ErrorLine,
            ReplyV::Integer(_) => ReplyKind::Integer,
            ReplyV::BulkPayload(_) => ReplyKind::BulkPayload,
            ReplyV::Array(_) => ReplyKind::Array,
            ReplyV::AbsentArray => ReplyKind::Array,
        }
    }
}

impl Reply {
    /// Build a reply of the given kind out of its payload bytes: the bytes
    /// after the tag for a status, error or integer line, the blob itself
    /// for a bulk payload. An integer payload that does not parse as a
    /// signed 64-bit decimal is refused as malformed. An array reply is
    /// assembled from its decoded element frames, not from one payload, so
    /// `kind` here is one of the other four.
    pub fn new(kind: ReplyKind, data: Vec<u8>) -> (r: Result<Reply, Error>)
        requires
            kind != ReplyKind::Array,
        ensures
            match kind {
                ReplyKind::SingleLine => (r matches Ok(x) && x@ == ReplyV::SingleLine(data@)),
                ReplyKind::ErrorLine => (r matches Ok(x) && x@ == ReplyV::ErrorLine(data@)),
                ReplyKind::BulkPayload => (r matches Ok(x) && x@ == ReplyV::BulkPayload(data@)),
                ReplyKind::Integer => match parse_int(data@) {
                    Some(v) => (r matches Ok(x) && x@ == ReplyV::Integer(v)),
                    None => r == Err::<Reply, Error>(Error::MalformedInteger),
                },
                ReplyKind::Array => true,
            },
    {
        match kind {
            ReplyKind::SingleLine => Ok(Reply::SingleLine(data)),
            ReplyKind::ErrorLine => Ok(Reply::ErrorLine(data)),
            ReplyKind::BulkPayload => Ok(Reply::BulkPayload(data)),
            ReplyKind::Integer => {
                proof {
                    assert(data@.subrange(0, data@.len() as int) =~= data@);
                }
                match parse_i64_range(data.as_slice(), 0, data.len()) {
                    Some(v) => Ok(Reply::Integer(v)),
                    None => Err(Error::MalformedInteger),
                }
            },
            ReplyKind::Array => Err(Error::ProtocolViolation),
        }
    }

    /// The tag this reply arrived under.
    pub fn kind(&self) -> (k: ReplyKind)
        ensures
            k == self@.kind(),
    {
        match self {
            Reply::SingleLine(_) => ReplyKind::SingleLine,
            Reply::ErrorLine(_) => ReplyKind::ErrorLine,
            Reply::Integer(_) => ReplyKind::Integer,
            Reply::BulkPayload(_) => ReplyKind::BulkPayload,
            Reply::Array(_) => ReplyKind::Array,
            Reply::AbsentArray => ReplyKind::Array,
        }
    }

    /// An error line is protocol-valid framing but an application-level
    /// failure; surface it as `ServerError` with the verbatim message, so
    /// a caller cannot mistake the message for data. Every other reply
    /// passes through unchanged.
    pub fn into_result(self) -> (r: Result<Reply, Error>)
        ensures
            match self@ {
                ReplyV::ErrorLine(t) => (r matches Err(e) && e@ == ErrorV::ServerError(t)),
                _ => r == Ok::<Reply, Error>(self),
            },
    {
        match self {
            Reply::ErrorLine(m) => Err(Error::ServerError(m)),
            other => Ok(other),
        }
    }
}

} // verus!
