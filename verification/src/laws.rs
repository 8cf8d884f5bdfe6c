use vstd::prelude::*;
use vstd::arithmetic::div_mod::lemma_fundamental_div_mod;
use crate::reply::ReplyV;
use crate::error::ErrorV;
use crate::wire::all_digits;
use crate::wire::crlf;
use crate::wire::dec_rep;
use crate::wire::dec_val;
use crate::wire::encode_arg;
use crate::wire::encode_args;
use crate::wire::encode_command;
use crate::wire::find_lf;
use crate::wire::lemma_decode_bounds;
use crate::wire::lemma_elems_bounds;
use crate::wire::lemma_find_lf_bounds;
use crate::wire::is_ascii_digit;
use crate::wire::parse_int;
use crate::wire::spec_decode;
use crate::wire::spec_decode_elems;
use crate::wire::SpecElems;
use crate::wire::SpecFrame;
use crate::wire::CR;
use crate::wire::LF;
use crate::wire::DIGIT_ZERO;
use crate::wire::TAG_ARRAY;
use crate::wire::TAG_BULK;
use crate::wire::TAG_ERROR;
use crate::wire::TAG_INTEGER;
use crate::wire::TAG_SINGLE;

verus! {

/// Each argument as the bulk-payload value it decodes back to, in order.
pub open spec fn bulk_views(args: Seq<Seq<u8>>) -> Seq<ReplyV> {
    Seq::new(args.len(), |i: int| ReplyV::BulkPayload(args[i]))
}

/// The decimal digits of a number are digits.
proof fn lemma_dec_rep_digits(n: nat)
    ensures
        all_digits(dec_rep(n)),
        dec_rep(n).len() >= 1,
    decreases n,
{
    if n < 10 {
    } else {
        lemma_dec_rep_digits(n / 10);
    }
}

/// Printing then reading a number gives the number back.
proof fn lemma_dec_val_dec_rep(n: nat)
    ensures
        dec_val(dec_rep(n)) == n,
    decreases n,
{
    if n < 10 {
        reveal_with_fuel(dec_val, 2);
        let s = seq![(DIGIT_ZERO + n) as u8];
        assert(s.drop_last() =~= Seq::<u8>::empty());
        assert(s.last() == (DIGIT_ZERO + n) as u8);
        assert((DIGIT_ZERO + n) as u8 == DIGIT_ZERO + n);
    } else {
        lemma_dec_val_dec_rep(n / 10);
        lemma_fundamental_div_mod(n as int, 10);
        let s = dec_rep(n);
        assert(s.drop_last() =~= dec_rep(n / 10));
        assert(s.last() == (DIGIT_ZERO + n % 10) as u8);
        assert((DIGIT_ZERO + n % 10) as u8 == DIGIT_ZERO + n % 10);
    }
}

/// Every byte a piece of `s` is known to hold stands in `s` itself.
proof fn lemma_piece_bytes(s: Seq<u8>, pos: int, x: Seq<u8>)
    requires
        0 <= pos,
        pos + x.len() <= s.len(),
        s.subrange(pos, pos + x.len()) == x,
    ensures
        forall|k: int| 0 <= k < x.len() ==> s[pos + k] == #[trigger] x[k],
{
    assert forall|k: int| 0 <= k < x.len() implies s[pos + k] == x[k] by {
        assert(s.subrange(pos, pos + x.len())[k] == x[k]);
    }
}

/// The printed form of a number parses back to it.
proof fn lemma_parse_dec_rep(n: nat)
    requires
        n <= i64::MAX,
    ensures
        parse_int(dec_rep(n)) == Some(n as int),
{
    lemma_dec_rep_digits(n);
    lemma_dec_val_dec_rep(n);
    assert(is_ascii_digit(dec_rep(n)[0]));
}

/// The first line feed at or after `pos` is the one at `j`.
proof fn lemma_find_lf_first(s: Seq<u8>, pos: int, j: int)
    requires
        0 <= pos <= j < s.len(),
        s[j] == LF,
        forall|i: int| pos <= i < j ==> s[i] != LF,
    ensures
        find_lf(s, pos) == Some(j),
    decreases j - pos,
{
    if pos == j {
    } else {
        lemma_find_lf_first(s, pos + 1, j);
    }
}

/// A `<tag><decimal>\r\n` header standing at `pos` reads back as its own
/// line, with the number as its payload.
proof fn lemma_header_line(s: Seq<u8>, pos: int, tag: u8, n: nat)
    requires
        0 <= pos,
        pos + 3 + dec_rep(n).len() <= s.len(),
        s.subrange(pos, pos + 3 + dec_rep(n).len()) == seq![tag] + dec_rep(n) + crlf(),
        tag != LF,
        n <= i64::MAX,
    ensures
        find_lf(s, pos) == Some(pos + 2 + dec_rep(n).len()),
        s[pos] == tag,
        s[pos + 1 + dec_rep(n).len()] == CR,
        s.subrange(pos + 1, pos + 1 + dec_rep(n).len()) == dec_rep(n),
        parse_int(s.subrange(pos + 1, pos + 1 + dec_rep(n).len())) == Some(n as int),
{
    let d = dec_rep(n);
    let header = seq![tag] + d + crlf();
    let dlen = d.len() as int;
    lemma_dec_rep_digits(n);
    lemma_piece_bytes(s, pos, header);
    assert(s[pos] == tag) by {
        assert(s[pos + 0] == header[0]);
    }
    assert(s[pos + 1 + dlen] == CR) by {
        assert(s[pos + (1 + dlen)] == header[1 + dlen]);
    }
    assert(s[pos + 2 + dlen] == LF) by {
        assert(s[pos + (2 + dlen)] == header[2 + dlen]);
    }
    assert forall|i: int| pos <= i < pos + 2 + dlen implies s[i] != LF by {
        let k = i - pos;
        assert(s[pos + k] == header[k]);
        if k == 0 {
        } else if k < 1 + dlen {
            assert(header[k] == d[k - 1]);
            assert(is_ascii_digit(d[k - 1]));
        } else {
            assert(header[k] == CR);
        }
    }
    lemma_find_lf_first(s, pos, pos + 2 + dlen);
    assert(s.subrange(pos + 1, pos + 1 + dlen) =~= d) by {
        assert forall|i: int| 0 <= i < dlen implies s.subrange(pos + 1, pos + 1 + dlen)[i] == d[i]
            by {
            assert(s[pos + (1 + i)] == header[1 + i]);
            assert(header[1 + i] == d[i]);
        }
    }
    lemma_parse_dec_rep(n);
}

/// A bulk frame standing at `pos` inside `s` decodes to its payload and
/// ends just past its terminator.
proof fn lemma_bulk_at(s: Seq<u8>, pos: int, a: Seq<u8>, depth: nat)
    requires
        depth >= 1,
        a.len() <= i64::MAX,
        0 <= pos,
        pos + encode_arg(a).len() <= s.len(),
        s.subrange(pos, pos + encode_arg(a).len()) == encode_arg(a),
    ensures
        encode_arg(a).len() == 5 + dec_rep(a.len()).len() + a.len(),
        spec_decode(s, pos, depth) == SpecFrame::Done(
            ReplyV::BulkPayload(a),
            pos + encode_arg(a).len(),
        ),
{
    let d = dec_rep(a.len());
    let dlen = d.len() as int;
    let ea = encode_arg(a);
    let elen = ea.len() as int;
    let alen = a.len() as int;
    assert(elen == 5 + dlen + alen);
    lemma_piece_bytes(s, pos, ea);
    assert(s.subrange(pos, pos + 3 + dlen) =~= seq![TAG_BULK] + d + crlf()) by {
        assert forall|k: int| 0 <= k < 3 + dlen implies s.subrange(pos, pos + 3 + dlen)[k] == (
        seq![TAG_BULK] + d + crlf())[k] by {
            assert(s[pos + k] == ea[k]);
            assert(ea[k] == (seq![TAG_BULK] + d + crlf())[k]);
        }
    }
    lemma_header_line(s, pos, TAG_BULK, a.len());
    let j = pos + 2 + dlen;
    let next = j + 1;
    assert(s.subrange(next, next + alen) =~= a) by {
        assert forall|i: int| 0 <= i < alen implies s.subrange(next, next + alen)[i] == a[i] by {
            assert(s[pos + (3 + dlen + i)] == ea[3 + dlen + i]);
            assert(ea[3 + dlen + i] == a[i]);
        }
    }
    assert(s[next + alen] == CR) by {
        assert(s[pos + (3 + dlen + alen)] == ea[3 + dlen + alen]);
        assert(ea[3 + dlen + alen] == CR);
    }
    assert(s[next + alen + 1] == LF) by {
        assert(s[pos + (4 + dlen + alen)] == ea[4 + dlen + alen]);
        assert(ea[4 + dlen + alen] == LF);
    }
    assert(TAG_BULK != TAG_SINGLE && TAG_BULK != TAG_ERROR && TAG_BULK != TAG_INTEGER);
}

/// Law: for every length, a `$<len>\r\n` frame followed by
/// exactly that many bytes and a terminator decodes to a present bulk
/// payload holding those exact bytes, empty included.
pub proof fn lemma_bulk_frame_decodes(payload: Seq<u8>, depth: nat)
    requires
        depth >= 1,
        payload.len() <= i64::MAX,
    ensures
        spec_decode(encode_arg(payload), 0, depth) == SpecFrame::Done(
            ReplyV::BulkPayload(payload),
            encode_arg(payload).len() as int,
        ),
{
    let s = encode_arg(payload);
    assert(s.subrange(0, s.len() as int) =~= s);
    lemma_bulk_at(s, 0, payload, depth);
}

/// A run of encoded arguments standing at `pos` decodes, element by
/// element and in order, to their bulk payloads.
proof fn lemma_args_at(s: Seq<u8>, pos: int, args: Seq<Seq<u8>>, depth: nat)
    requires
        depth >= 1,
        forall|i: int| 0 <= i < args.len() ==> #[trigger] args[i].len() <= i64::MAX,
        0 <= pos,
        pos + encode_args(args).len() <= s.len(),
        s.subrange(pos, pos + encode_args(args).len()) == encode_args(args),
    ensures
        spec_decode_elems(s, pos, args.len() as int, depth) == SpecElems::Done(
            bulk_views(args),
            pos + encode_args(args).len(),
        ),
    decreases args.len(),
{
    if args.len() == 0 {
        assert(bulk_views(args) =~= Seq::<ReplyV>::empty());
    } else {
        let a0 = args.first();
        let rest = args.drop_first();
        let ea = encode_arg(a0);
        let er = encode_args(rest);
        let elen = ea.len() as int;
        assert(encode_args(args) == ea + er);
        lemma_piece_bytes(s, pos, encode_args(args));
        assert(args[0].len() <= i64::MAX);
        assert forall|i: int| 0 <= i < rest.len() implies #[trigger] rest[i].len() <= i64::MAX by {
            assert(rest[i] == args[i + 1]);
            assert(args[i + 1].len() <= i64::MAX);
        }
        assert(s.subrange(pos, pos + elen) =~= ea) by {
            assert forall|k: int| 0 <= k < elen implies s.subrange(pos, pos + elen)[k] == ea[k] by {
                assert(s[pos + k] == (ea + er)[k]);
            }
        }
        lemma_bulk_at(s, pos, a0, depth);
        let p2 = pos + elen;
        assert(s.subrange(p2, p2 + er.len()) =~= er) by {
            assert forall|k: int| 0 <= k < er.len() implies s.subrange(p2, p2 + er.len())[k]
                == er[k] by {
                assert(s[pos + (elen + k)] == (ea + er)[elen + k]);
            }
        }
        lemma_args_at(s, p2, rest, depth);
        assert(seq![ReplyV::BulkPayload(a0)] + bulk_views(rest) =~= bulk_views(args));
    }
}

/// Law, the round trip: a command of any arguments, binary-safe
/// bytes included, encodes to wire bytes that decode back to the array of
/// exactly those argument payloads, in order, consuming the whole
/// encoding.
pub proof fn lemma_command_round_trip(args: Seq<Seq<u8>>, depth: nat)
    requires
        depth >= 2,
        args.len() <= i64::MAX,
        forall|i: int| 0 <= i < args.len() ==> #[trigger] args[i].len() <= i64::MAX,
    ensures
        spec_decode(encode_command(args), 0, depth) == SpecFrame::Done(
            ReplyV::Array(bulk_views(args)),
            encode_command(args).len() as int,
        ),
{
    let s = encode_command(args);
    let d = dec_rep(args.len());
    let dlen = d.len() as int;
    let h = seq![TAG_ARRAY] + d + crlf();
    let e = encode_args(args);
    assert(s =~= h + e);
    assert(s.subrange(0, 3 + dlen) =~= h) by {
        assert forall|k: int| 0 <= k < 3 + dlen implies s.subrange(0, 3 + dlen)[k] == h[k] by {
            assert(s[k] == (h + e)[k]);
        }
    }
    lemma_header_line(s, 0, TAG_ARRAY, args.len());
    let next = 3 + dlen;
    assert(s.subrange(next, next + e.len()) =~= e) by {
        assert forall|k: int| 0 <= k < e.len() implies s.subrange(next, next + e.len())[k] == e[k]
            by {
            assert(s[next + k] == (h + e)[next + k]);
        }
    }
    lemma_args_at(s, next, args, (depth - 1) as nat);
    assert(TAG_ARRAY != TAG_SINGLE && TAG_ARRAY != TAG_ERROR && TAG_ARRAY != TAG_INTEGER
        && TAG_ARRAY != TAG_BULK);
}

/// No line feed stands before the one that `find_lf` found.
proof fn lemma_find_lf_min(s: Seq<u8>, pos: int, j: int, i: int)
    requires
        find_lf(s, pos) == Some(j),
        pos <= i < j,
    ensures
        s[i] != LF,
    decreases i - pos,
{
    lemma_find_lf_bounds(s, pos);
    if s[pos] == LF {
        assert(false);
    } else if i == pos {
    } else {
        lemma_find_lf_min(s, pos + 1, j, i);
    }
}

/// Law: decoding reads exactly one frame's worth of bytes and no more.
/// A complete frame's bytes decode to the same value wherever they stand
/// and whatever follows them, so a later call starts cleanly on the next
/// frame.
pub proof fn lemma_decode_local(s1: Seq<u8>, pos1: int, s2: Seq<u8>, pos2: int, v: ReplyV, p: int, depth: nat)
    requires
        0 <= pos1 <= s1.len(),
        0 <= pos2,
        spec_decode(s1, pos1, depth) == SpecFrame::Done(v, p),
        pos2 + (p - pos1) <= s2.len(),
        s2.subrange(pos2, pos2 + (p - pos1)) == s1.subrange(pos1, p),
    ensures
        spec_decode(s2, pos2, depth) == SpecFrame::Done(v, pos2 + (p - pos1)),
    decreases depth, 0int, 0int,
{
    lemma_decode_bounds(s1, pos1, depth);
    let frame_len = p - pos1;
    assert forall|k: int| #![trigger s2[pos2 + k]] 0 <= k < frame_len implies s2[pos2 + k] == s1[pos1
        + k] by {
        assert(s2.subrange(pos2, pos2 + frame_len)[k] == s1.subrange(pos1, p)[k]);
    }
    let j1 = find_lf(s1, pos1)->Some_0;
    lemma_find_lf_bounds(s1, pos1);
    let j2 = pos2 + (j1 - pos1);
    assert(j1 < p) by {
        if s1[pos1] == TAG_BULK || s1[pos1] == TAG_ARRAY {
            if s1[pos1] == TAG_ARRAY {
                match parse_int(s1.subrange(pos1 + 1, j1 - 1)) {
                    Some(count) => {
                        if count >= 0 {
                            lemma_elems_bounds(s1, j1 + 1, count, (depth - 1) as nat);
                        }
                    },
                    None => {},
                }
            }
        }
    }
    assert(s2[j2] == LF) by {
        assert(s2[pos2 + (j1 - pos1)] == s1[pos1 + (j1 - pos1)]);
    }
    assert forall|i: int| pos2 <= i < j2 implies s2[i] != LF by {
        assert(s2[pos2 + (i - pos2)] == s1[pos1 + (i - pos2)]);
        lemma_find_lf_min(s1, pos1, j1, pos1 + (i - pos2));
    }
    lemma_find_lf_first(s2, pos2, j2);
    assert(s2[j2 - 1] == s1[j1 - 1]) by {
        assert(s2[pos2 + (j1 - 1 - pos1)] == s1[pos1 + (j1 - 1 - pos1)]);
    }
    assert(s2[pos2] == s1[pos1]) by {
        assert(s2[pos2 + 0] == s1[pos1 + 0]);
    }
    let payload1 = s1.subrange(pos1 + 1, j1 - 1);
    let payload2 = s2.subrange(pos2 + 1, j2 - 1);
    assert(payload2 =~= payload1) by {
        assert forall|k: int| 0 <= k < payload2.len() implies payload2[k] == payload1[k] by {
            assert(payload2[k] == s2[pos2 + 1 + k]);
            assert(payload1[k] == s1[pos1 + 1 + k]);
            assert(s2[pos2 + (1 + k)] == s1[pos1 + (1 + k)]);
        }
    }
    let tag = s1[pos1];
    let next1 = j1 + 1;
    let next2 = j2 + 1;
    if tag == TAG_BULK {
        let len = parse_int(payload1)->Some_0;
        assert(s2[next2 + len] == CR && s2[next2 + len + 1] == LF) by {
            assert(s2[pos2 + (next1 + len - pos1)] == s1[pos1 + (next1 + len - pos1)]);
            assert(s2[pos2 + (next1 + len + 1 - pos1)] == s1[pos1 + (next1 + len + 1 - pos1)]);
        }
        let end1 = next1 + len;
        let end2 = next2 + len;
        assert(s2.subrange(next2, end2) =~= s1.subrange(next1, end1)) by {
            assert forall|k: int| #![trigger s2.subrange(next2, end2)[k]] 0 <= k < len implies s2
                .subrange(next2, end2)[k] == s1.subrange(next1, end1)[k] by {
                assert(s2[pos2 + (next1 + k - pos1)] == s1[pos1 + (next1 + k - pos1)]);
            }
        }
    } else if tag == TAG_ARRAY {
        match parse_int(payload1) {
            Some(count) => {
                if count >= 0 {
                    match spec_decode_elems(s1, next1, count, (depth - 1) as nat) {
                        SpecElems::Done(vs, q) => {
                            lemma_elems_bounds(s1, next1, count, (depth - 1) as nat);
                            let stop2 = next2 + (q - next1);
                            assert(s2.subrange(next2, stop2) =~= s1.subrange(next1, q)) by {
                                assert forall|k: int|
                                    #![trigger s2.subrange(next2, stop2)[k]]
                                    0 <= k < q - next1 implies s2.subrange(next2, stop2)[k]
                                    == s1.subrange(next1, q)[k] by {
                                    assert(s2[pos2 + (next1 + k - pos1)] == s1[pos1 + (next1 + k
                                        - pos1)]);
                                }
                            }
                            lemma_elems_local(
                                s1,
                                next1,
                                s2,
                                next2,
                                vs,
                                q,
                                count,
                                (depth - 1) as nat,
                            );
                        },
                        _ => {
                            assert(false);
                        },
                    }
                }
            },
            None => {
                assert(false);
            },
        }
    }
}

/// Decoding a complete run of element frames reads only their own bytes.
proof fn lemma_elems_local(s1: Seq<u8>, pos1: int, s2: Seq<u8>, pos2: int, vs: Seq<ReplyV>, q: int, count: int, depth: nat)
    requires
        0 <= pos1 <= s1.len(),
        0 <= pos2,
        spec_decode_elems(s1, pos1, count, depth) == SpecElems::Done(vs, q),
        pos2 + (q - pos1) <= s2.len(),
        s2.subrange(pos2, pos2 + (q - pos1)) == s1.subrange(pos1, q),
    ensures
        spec_decode_elems(s2, pos2, count, depth) == SpecElems::Done(vs, pos2 + (q - pos1)),
    decreases depth, 1int, count,
{
    lemma_elems_bounds(s1, pos1, count, depth);
    if count <= 0 {
    } else {
        match spec_decode(s1, pos1, depth) {
            SpecFrame::Done(v1, p1) => {
                lemma_decode_bounds(s1, pos1, depth);
                lemma_elems_bounds(s1, p1, count - 1, depth);
                assert forall|k: int| #![trigger s2[pos2 + k]] 0 <= k < q - pos1 implies s2[pos2
                    + k] == s1[pos1 + k] by {
                    assert(s2.subrange(pos2, pos2 + (q - pos1))[k] == s1.subrange(pos1, q)[k]);
                    assert(s2.subrange(pos2, pos2 + (q - pos1))[k] == s2[pos2 + k]);
                    assert(s1.subrange(pos1, q)[k] == s1[pos1 + k]);
                }
                let head_stop = pos2 + (p1 - pos1);
                assert(s2.subrange(pos2, head_stop) =~= s1.subrange(pos1, p1)) by {
                    assert forall|k: int|
                        #![trigger s2.subrange(pos2, head_stop)[k]]
                        0 <= k < p1 - pos1 implies s2.subrange(pos2, head_stop)[k] == s1.subrange(
                        pos1,
                        p1,
                    )[k] by {
                        assert(s2[pos2 + k] == s1[pos1 + k]);
                    }
                }
                lemma_decode_local(s1, pos1, s2, pos2, v1, p1, depth);
                let pos2b = pos2 + (p1 - pos1);
                match spec_decode_elems(s1, p1, count - 1, depth) {
                    SpecElems::Done(vs2, q2) => {
                        let rest_stop = pos2b + (q - p1);
                        assert(s2.subrange(pos2b, rest_stop) =~= s1.subrange(p1, q)) by {
                            assert forall|k: int|
                                #![trigger s2.subrange(pos2b, rest_stop)[k]]
                                0 <= k < q - p1 implies s2.subrange(pos2b, rest_stop)[k]
                                == s1.subrange(p1, q)[k] by {
                                assert(s2[pos2 + (p1 - pos1 + k)] == s1[pos1 + (p1 - pos1 + k)]);
                            }
                        }
                        lemma_elems_local(s1, p1, s2, pos2b, vs2, q, count - 1, depth);
                    },
                    _ => {
                        assert(false);
                    },
                }
            },
            _ => {
                assert(false);
            },
        }
    }
}

/// Law: elements of an array reply keep their wire order: a count-two
/// array header followed by any two complete frames decodes to the array
/// of their two values, first frame first.
pub proof fn lemma_array_pair_order(f1: Seq<u8>, f2: Seq<u8>, v1: ReplyV, v2: ReplyV, depth: nat)
    requires
        depth >= 2,
        spec_decode(f1, 0, (depth - 1) as nat) == SpecFrame::Done(v1, f1.len() as int),
        spec_decode(f2, 0, (depth - 1) as nat) == SpecFrame::Done(v2, f2.len() as int),
    ensures
        spec_decode(seq![TAG_ARRAY, 50u8] + crlf() + f1 + f2, 0, depth) == SpecFrame::Done(
            ReplyV::Array(seq![v1, v2]),
            4 + f1.len() + f2.len() as int,
        ),
{
    let s = seq![TAG_ARRAY, 50u8] + crlf() + f1 + f2;
    let d1 = (depth - 1) as nat;
    assert(dec_rep(2) =~= seq![50u8]);
    assert(s.subrange(0, 4) =~= seq![TAG_ARRAY] + dec_rep(2) + crlf());
    lemma_header_line(s, 0, TAG_ARRAY, 2);
    lemma_decode_bounds(f1, 0, d1);
    lemma_decode_bounds(f2, 0, d1);
    let e1 = f1.len() as int;
    let e2 = f2.len() as int;
    assert(s.subrange(4, 4 + e1) =~= f1.subrange(0, e1)) by {
        assert forall|k: int| 0 <= k < e1 implies s.subrange(4, 4 + e1)[k] == f1.subrange(0, e1)[k]
            by {
            assert(s[4 + k] == f1[k]);
        }
    }
    lemma_decode_local(f1, 0, s, 4, v1, e1, d1);
    assert(s.subrange(4 + e1, 4 + e1 + e2) =~= f2.subrange(0, e2)) by {
        assert forall|k: int| 0 <= k < e2 implies s.subrange(4 + e1, 4 + e1 + e2)[k] == f2.subrange(
            0,
            e2,
        )[k] by {
            assert(s[4 + e1 + k] == f2[k]);
        }
    }
    lemma_decode_local(f2, 0, s, 4 + e1, v2, e2, d1);
    assert(spec_decode_elems(s, 4 + e1 + e2, 0, d1) == SpecElems::Done(
        Seq::<ReplyV>::empty(),
        4 + e1 + e2,
    ));
    assert(spec_decode_elems(s, 4 + e1, 1, d1) == SpecElems::Done(seq![v2], 4 + e1 + e2)) by {
        assert(seq![v2] + Seq::<ReplyV>::empty() =~= seq![v2]);
    }
    assert(spec_decode_elems(s, 4, 2, d1) == SpecElems::Done(seq![v1, v2], 4 + e1 + e2)) by {
        assert(seq![v1] + seq![v2] =~= seq![v1, v2]);
    }
}

/// Law: an error line `-<text>\r\n` decodes to the error
/// reply carrying the verbatim text, which `Reply::into_result` then
/// surfaces as a server error, never as a normal value.
pub proof fn lemma_error_line_decodes(text: Seq<u8>, depth: nat)
    requires
        depth >= 1,
        forall|i: int| 0 <= i < text.len() ==> text[i] != LF,
    ensures
        spec_decode(seq![TAG_ERROR] + text + crlf(), 0, depth) == SpecFrame::Done(
            ReplyV::ErrorLine(text),
            text.len() + 3int,
        ),
{
    let s = seq![TAG_ERROR] + text + crlf();
    let tlen = text.len() as int;
    let j = tlen + 2;
    assert(s[0] == TAG_ERROR);
    assert(s[j - 1] == CR);
    assert(s[j] == LF);
    assert forall|i: int| 0 <= i < j implies s[i] != LF by {
        if 1 <= i < 1 + tlen {
            assert(s[i] == text[i - 1]);
        }
    }
    lemma_find_lf_first(s, 0, j);
    assert(s.subrange(1, j - 1) =~= text);
}

/// Law: a frame whose leading byte is none of the five
/// type tags is refused as an unknown tag: a reported error, never a
/// crash, whatever the rest of the line holds.
pub proof fn lemma_unknown_tag_rejected(tag: u8, rest: Seq<u8>, depth: nat)
    requires
        depth >= 1,
        tag != TAG_SINGLE,
        tag != TAG_ERROR,
        tag != TAG_INTEGER,
        tag != TAG_BULK,
        tag != TAG_ARRAY,
        tag != LF,
        forall|i: int| 0 <= i < rest.len() ==> rest[i] != LF,
    ensures
        spec_decode(seq![tag] + rest + crlf(), 0, depth) == SpecFrame::Bad(ErrorV::UnknownTypeTag),
{
    let s = seq![tag] + rest + crlf();
    let rlen = rest.len() as int;
    let j = rlen + 2;
    assert(s[0] == tag);
    assert(s[j - 1] == CR);
    assert(s[j] == LF);
    assert forall|i: int| 0 <= i < j implies s[i] != LF by {
        if 1 <= i < 1 + rlen {
            assert(s[i] == rest[i - 1]);
        }
    }
    lemma_find_lf_first(s, 0, j);
}

} // verus!
