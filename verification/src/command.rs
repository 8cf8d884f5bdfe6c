use vstd::prelude::*;
use crate::numbers::push_dec;
use crate::wire::encode_arg;
use crate::wire::encode_args;
use crate::wire::encode_command;
use crate::wire::CR;
use crate::wire::LF;
use crate::wire::TAG_ARRAY;
use crate::wire::TAG_BULK;

verus! {

/// A command to send: an ordered sequence of binary-safe byte-string
/// arguments, the command name first. Any byte sequence is a legal
/// argument; nothing is escaped. It encodes as the protocol's array of
/// bulk strings whatever the argument count, zero included.
pub struct Command {
    args: Vec<Vec<u8>>,
}

impl View for Command {
    type V = Seq<Seq<u8>>;

    closed spec fn view(&self) -> Seq<Seq<u8>> {
        Seq::new(
            self.args@.len(),
            |i: int| if 0 <= i < self.args@.len() {
                self.args@[i]@
            } else {
                Seq::empty()
            },
        )
    }
}

/// Append every byte of `bytes`.
#[verifier::loop_isolation(false)]
fn push_all(out: &mut Vec<u8>, bytes: &Vec<u8>)
    ensures
        final(out)@ == old(out)@ + bytes@,
{
    let mut k: usize = 0;
    while k < bytes.len()
        invariant
            k <= bytes@.len(),
            out@ == old(out)@ + bytes@.subrange(0, k as int),
        decreases bytes@.len() - k,
    {
        out.push(bytes[k]);
        proof {
            assert(old(out)@ + bytes@.subrange(0, k + 1) =~= (old(out)@ + bytes@.subrange(
                0,
                k as int,
            )).push(bytes@[k as int]));
        }
        k = k + 1;
    }
    proof {
        assert(bytes@.subrange(0, bytes@.len() as int) =~= bytes@);
    }
}

/// Stepping the argument sequence one argument at a time from the front.
proof fn lemma_encode_args_step(args: Seq<Seq<u8>>, i: int)
    requires
        0 <= i < args.len(),
    ensures
        encode_args(args.take(i + 1)) == encode_args(args.take(i)) + encode_arg(args[i]),
    decreases i,
{
    if i == 0 {
        assert(args.take(1).first() == args[0]);
        assert(args.take(1).drop_first() =~= args.take(0));
        assert(encode_args(args.take(0)) =~= Seq::empty());
        assert(Seq::empty() + encode_arg(args[0]) =~= encode_arg(args[0]));
    } else {
        let rest = args.drop_first();
        lemma_encode_args_step(rest, i - 1);
        assert(args.take(i + 1).first() == args[0]);
        assert(args.take(i + 1).drop_first() =~= rest.take(i));
        assert(args.take(i).first() == args[0]);
        assert(args.take(i).drop_first() =~= rest.take(i - 1));
        assert(rest[i - 1] == args[i]);
        assert(encode_arg(args[0]) + (encode_args(rest.take(i - 1)) + encode_arg(args[i])) =~= (
        encode_arg(args[0]) + encode_args(rest.take(i - 1))) + encode_arg(args[i]));
    }
}

impl Command {
    /// An empty command, to be filled argument by argument.
    pub fn new() -> (c: Command)
        ensures
            c@ == Seq::<Seq<u8>>::empty(),
    {
        let c = Command { args: Vec::new() };
        proof {
            assert(c@ =~= Seq::<Seq<u8>>::empty());
        }
        c
    }

    /// Append one argument.
    pub fn arg(&mut self, a: Vec<u8>)
        ensures
            final(self)@ == old(self)@.push(a@),
    {
        self.args.push(a);
        proof {
            assert(self@ =~= old(self)@.push(a@));
        }
    }

    /// How many arguments the command holds.
    pub fn len(&self) -> (n: usize)
        ensures
            n == self@.len(),
    {
        self.args.len()
    }

    /// The command on the wire: `*<argc>\r\n`, then for each argument
    /// `$<len>\r\n<bytes>\r\n`, the lengths in decimal with no leading
    /// zeros. A pure transform; the caller performs the actual write.
    #[verifier::loop_isolation(false)]
    pub fn to_vec(&self) -> (r: Vec<u8>)
        ensures
            r@ == encode_command(self@),
    {
        let mut out: Vec<u8> = Vec::new();
        out.push(TAG_ARRAY);
        push_dec(&mut out, self.args.len() as u64);
        out.push(CR);
        out.push(LF);
        proof {
            assert(out@ =~= seq![TAG_ARRAY] + crate::wire::dec_rep(self@.len()) + crate::wire::crlf()
                + encode_args(self@.take(0)));
            assert(encode_args(self@.take(0)) =~= Seq::empty());
        }
        let mut idx: usize = 0;
        while idx < self.args.len()
            invariant
                idx <= self.args@.len(),
                out@ == seq![TAG_ARRAY] + crate::wire::dec_rep(self@.len()) + crate::wire::crlf()
                    + encode_args(self@.take(idx as int)),
            decreases self.args@.len() - idx,
        {
            let a = &self.args[idx];
            out.push(TAG_BULK);
            push_dec(&mut out, a.len() as u64);
            out.push(CR);
            out.push(LF);
            push_all(&mut out, a);
            out.push(CR);
            out.push(LF);
            proof {
                lemma_encode_args_step(self@, idx as int);
                assert(self@[idx as int] == self.args@[idx as int]@);
                assert(encode_arg(self@[idx as int]) =~= seq![TAG_BULK] + crate::wire::dec_rep(
                    self.args@[idx as int]@.len(),
                ) + crate::wire::crlf() + self.args@[idx as int]@ + crate::wire::crlf());
                assert(out@ =~= seq![TAG_ARRAY] + crate::wire::dec_rep(self@.len())
                    + crate::wire::crlf() + encode_args(self@.take(idx + 1)));
            }
            idx = idx + 1;
        }
        proof {
            assert(self@.take(self@.len() as int) =~= self@);
        }
        out
    }
}

} // verus!
