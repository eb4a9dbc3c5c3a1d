//! Exit codes of user programs and the ids of processes and threads.

use vstd::prelude::*;

use crate::vmm::IdCounter;

verus! {

/// The status a program exits with.
#[derive(Debug, Clone, Copy, PartialEq, Eq, Structural)]
pub struct ExitCode(i32);

impl View for ExitCode {
    type V = i32;

    closed spec fn view(&self) -> i32 {
        self.0
    }
}

impl ExitCode {
    pub fn success() -> (r: Self)
        ensures
            r@ == 0,
    {
        ExitCode(0)
    }

    pub fn failure() -> (r: Self)
        ensures
            r@ == -1,
    {
        ExitCode(-1)
    }

    pub fn from_raw(i: i32) -> (r: Self)
        ensures
            r@ == i,
    {
        Self(i)
    }

    pub fn to_i32(self) -> (r: i32)
        ensures
            r == self@,
    {
        self.0
    }

    /// The exit code of a byte status.
    pub fn from_u8(value: u8) -> (r: Self)
        ensures
            r@ == value as i32,
    {
        ExitCode(value as i32)
    }
}

impl Default for ExitCode {
    fn default() -> (r: Self)
        ensures
            r@ == 0,
    {
        Self::success()
    }
}

/// What a program's `main` returns and how it turns into an exit code.
pub trait Termination {
    spec fn spec_report(self) -> i32;

    fn report(self) -> (r: ExitCode)
        ensures
            r@ == self.spec_report(),
    ;
}

impl Termination for () {
    open spec fn spec_report(self) -> i32 {
        0
    }

    fn report(self) -> (r: ExitCode) {
        ExitCode::success()
    }
}

impl Termination for ExitCode {
    open spec fn spec_report(self) -> i32 {
        self@
    }

    fn report(self) -> (r: ExitCode) {
        self
    }
}

/// A `main` that returns a result: the status of its value, or failure for an
/// error, which the caller prints first.
impl<T: Termination, E> Termination for Result<T, E> {
    open spec fn spec_report(self) -> i32 {
        match self {
            Ok(v) => v.spec_report(),
            Err(_) => -1i32,
        }
    }

    fn report(self) -> (r: ExitCode) {
        match self {
            Ok(v) => v.report(),
            Err(_) => ExitCode::failure(),
        }
    }
}

/// The exit status of a program whose `main` returned `result`.
pub fn lang_start_internal<T: Termination>(result: T) -> (r: isize)
    ensures
        r == result.spec_report() as isize,
{
    result.report().to_i32() as isize
}

/// A process id.
#[derive(Debug, Clone, Copy, PartialEq, Eq, Structural, PartialOrd, Ord, Hash)]
pub struct Pid(usize);

impl View for Pid {
    type V = usize;

    closed spec fn view(&self) -> usize {
        self.0
    }
}

impl Pid {
    pub fn new(num: usize) -> (r: Self)
        ensures
            r@ == num,
    {
        Self(num)
    }

    /// The counter of process ids: the first process gets id 1, and 0 is never handed
    /// out before the counter wraps.
    pub fn counter() -> (r: IdCounter)
        ensures
            r.peek() == 1,
    {
        IdCounter::new(1)
    }

    /// The next process id of `ids`.
    pub fn next(ids: &mut IdCounter) -> (r: Self)
        ensures
            r@ == old(ids).peek(),
            final(ids).peek() == crate::vmm::id_step(old(ids).peek()),
    {
        Self::new(ids.next())
    }

    pub fn num(self) -> (r: usize)
        ensures
            r == self@,
    {
        self.0
    }
}

/// A thread id, local to its process.
#[derive(Debug, Clone, Copy, PartialEq, Eq, Structural, PartialOrd, Ord, Hash)]
pub struct Tid(usize);

impl View for Tid {
    type V = usize;

    closed spec fn view(&self) -> usize {
        self.0
    }
}

impl Tid {
    pub fn new(num: usize) -> (r: Self)
        ensures
            r@ == num,
    {
        Self(num)
    }

    /// The next thread id of a process whose thread ids come from `ids`.
    pub fn next(ids: &mut IdCounter) -> (r: Self)
        ensures
            r@ == old(ids).peek(),
            final(ids).peek() == crate::vmm::id_step(old(ids).peek()),
    {
        Self::new(ids.next())
    }

    pub fn num(self) -> (r: usize)
        ensures
            r == self@,
    {
        self.0
    }
}

/// Process ids from [`Pid::counter`] start at 1 and grow with every call, however far
/// apart two calls are, until the counter reaches the top: the `k`-th pid (from 0) is
/// `1 + k`, never 0 and never handed out twice.
pub proof fn lemma_pids_grow(j: nat, k: nat)
    requires
        j < k,
        1 + k <= usize::MAX,
    ensures
        crate::vmm::id_after(1, j) == 1 + j,
        crate::vmm::id_after(1, j) < crate::vmm::id_after(1, k),
{
    crate::vmm::lemma_ids_count_up(1, j, k);
    crate::vmm::lemma_ids_count_up(1, j, j + 1);
}

} // verus!
