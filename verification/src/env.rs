//! The command line arguments that a program finds on its stack: a word with their
//! count, a word with the length of each, then their bytes one after the other.

use vstd::prelude::*;

verus! {

/// Bytes of a word of the argument block.
pub const WORD: u64 = 8;

/// The sum of the first `k` lengths.
pub open spec fn sum_lengths(lengths: Seq<u64>, k: int) -> int
    decreases k,
{
    if k <= 0 {
        0
    } else {
        sum_lengths(lengths, k - 1) + lengths[k - 1]
    }
}

/// Where argument `k` starts: after the count, the lengths and the arguments before
/// it.
pub open spec fn arg_start(ptr: u64, lengths: Seq<u64>, k: int) -> int {
    ptr + WORD + lengths.len() * WORD + sum_lengths(lengths, k)
}

/// The argument block at `ptr`.
#[derive(Debug, Clone, Copy)]
pub struct CliArgs {
    pub hyperion_cli_args_ptr: u64,
}

impl CliArgs {
    /// Where the length of argument `k` is, for a block of `argc` arguments.
    pub fn length_addr(self, k: u64) -> (r: u64)
        requires
            self.hyperion_cli_args_ptr + WORD + k * WORD <= u64::MAX,
        ensures
            r == self.hyperion_cli_args_ptr + WORD + k * WORD,
    {
        self.hyperion_cli_args_ptr + WORD + k * WORD
    }

    /// Where each argument lies, as its start and length, given the lengths read from
    /// the block; the block must lie below the top of the address space.
    pub fn iter(self, lengths: &Vec<u64>) -> (r: Vec<(u64, u64)>)
        requires
            arg_start(self.hyperion_cli_args_ptr, lengths@, lengths@.len() as int) <= u64::MAX,
        ensures
            r@.len() == lengths@.len(),
            forall|k: int|
                0 <= k < r@.len() ==> (#[trigger] r@[k]).0 == arg_start(self.hyperion_cli_args_ptr, lengths@, k)
                    && r@[k].1 == lengths@[k],
    {
        let ptr = self.hyperion_cli_args_ptr;
        let argc = lengths.len() as u64;
        proof {
            lemma_sum_lengths_grows(lengths@, 0, lengths@.len() as int);
        }
        let mut arg_strings = ptr + WORD + argc * WORD;
        let mut out: Vec<(u64, u64)> = Vec::new();
        let mut k: usize = 0;
        while k < lengths.len()
            invariant
                k <= lengths@.len(),
                argc == lengths@.len(),
                ptr == self.hyperion_cli_args_ptr,
                arg_start(ptr, lengths@, lengths@.len() as int) <= u64::MAX,
                arg_strings == arg_start(ptr, lengths@, k as int),
                out@.len() == k,
                forall|j: int|
                    0 <= j < k ==> (#[trigger] out@[j]).0 == arg_start(ptr, lengths@, j) && out@[j].1 == lengths@[j],
            decreases lengths@.len() - k,
        {
            let len = lengths[k];
            proof {
                lemma_sum_lengths_grows(lengths@, k + 1, lengths@.len() as int);
            }
            out.push((arg_strings, len));
            arg_strings = arg_strings + len;
            k = k + 1;
        }
        out
    }
}

/// The command line arguments of the program, handed out from the front or the back.
pub struct Args {
    top: Vec<&'static str>,
    front: usize,
    back: usize,
}

impl Args {
    /// The arguments not handed out yet, first to last.
    pub closed spec fn remaining(&self) -> Seq<&'static str> {
        self.top@.subrange(self.front as int, self.back as int)
    }

    #[verifier::type_invariant]
    spec fn wf(&self) -> bool {
        self.front <= self.back <= self.top@.len()
    }

    /// All of `args`, in order.
    pub fn new(args: Vec<&'static str>) -> (r: Self)
        ensures
            r.remaining() == args@,
    {
        let back = args.len();
        let r = Args { top: args, front: 0, back };
        assert(r.remaining() =~= r.top@);
        r
    }

    /// The next argument from the front, if any is left.
    pub fn next(&mut self) -> (r: Option<&'static str>)
        ensures
            old(self).remaining().len() == 0 ==> r is None && final(self).remaining() == old(
                self,
            ).remaining(),
            old(self).remaining().len() > 0 ==> r == Some(old(self).remaining()[0])
                && final(self).remaining() == old(self).remaining().drop_first(),
    {
        proof {
            use_type_invariant(&*self);
        }
        if self.front < self.back {
            let a = self.top[self.front];
            self.front = self.front + 1;
            proof {
                assert(self.remaining() =~= old(self).remaining().drop_first());
            }
            Some(a)
        } else {
            None
        }
    }

    /// The next argument from the back, if any is left.
    pub fn next_back(&mut self) -> (r: Option<&'static str>)
        ensures
            old(self).remaining().len() == 0 ==> r is None && final(self).remaining() == old(
                self,
            ).remaining(),
            old(self).remaining().len() > 0 ==> r == Some(old(self).remaining().last())
                && final(self).remaining() == old(self).remaining().drop_last(),
    {
        proof {
            use_type_invariant(&*self);
        }
        if self.front < self.back {
            self.back = self.back - 1;
            let a = self.top[self.back];
            proof {
                assert(self.remaining() =~= old(self).remaining().drop_last());
            }
            Some(a)
        } else {
            None
        }
    }

    /// How many arguments are left.
    pub fn len(&self) -> (r: usize)
        ensures
            r == self.remaining().len(),
    {
        proof {
            use_type_invariant(self);
        }
        self.back - self.front
    }
}

impl Clone for Args {
    fn clone(&self) -> (r: Self)
        ensures
            r.remaining() == self.remaining(),
    {
        proof {
            use_type_invariant(self);
        }
        let mut top: Vec<&'static str> = Vec::new();
        let mut i: usize = 0;
        while i < self.top.len()
            invariant
                i <= self.top@.len(),
                top@ == self.top@.subrange(0, i as int),
            decreases self.top@.len() - i,
        {
            top.push(self.top[i]);
            i = i + 1;
            proof {
                assert(top@ =~= self.top@.subrange(0, i as int));
            }
        }
        proof {
            assert(top@ =~= self.top@);
        }
        Args { top, front: self.front, back: self.back }
    }
}

/// Sums of more lengths are no smaller.
proof fn lemma_sum_lengths_grows(lengths: Seq<u64>, j: int, k: int)
    requires
        0 <= j <= k <= lengths.len(),
    ensures
        sum_lengths(lengths, j) <= sum_lengths(lengths, k),
    decreases k - j,
{
    if j < k {
        lemma_sum_lengths_grows(lengths, j, k - 1);
    }
}

} // verus!
