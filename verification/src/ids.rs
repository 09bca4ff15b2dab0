//! Identifiers for variables, and the faults that a reduction can end in.
use vstd::prelude::*;

verus! {

/// The distance between two identifiers drawn from one source. Sources that start at
/// different offsets below it never draw the same identifier.
pub const STRIDE: u64 = 128;

/// Why a reduction or a conversion gave no result.
#[derive(Debug, Copy, Clone, PartialEq, Eq, Structural)]
pub enum Fault {
    /// The permitted nesting depth was used up.
    Overflow,
    /// A term refers to something that its context or the store does not hold.
    Malformed,
    /// The source of identifiers has run out.
    Exhausted,
}

/// A source of identifiers. Each thread has its own.
#[derive(Debug)]
pub struct Ids {
    pub next: u64,
}

impl Ids {
    /// The source of the thread with the given number.
    pub fn new(thread: u64) -> (r: Ids)
        requires
            thread < STRIDE,
        ensures
            r.next == thread,
    {
        Ids { next: thread }
    }

    /// Whether another identifier can be drawn.
    pub open spec fn can_draw(self) -> bool {
        self.next + STRIDE <= u64::MAX
    }

    /// Tests whether another identifier can be drawn.
    pub fn ready(&self) -> (r: bool)
        ensures
            r == self.can_draw(),
    {
        self.next <= u64::MAX - STRIDE
    }
}

/// Generates a fresh `u64` to serve as a variable identifier.
pub fn next_u64(ids: &mut Ids) -> (r: u64)
    requires
        old(ids).can_draw(),
    ensures
        r == old(ids).next,
        final(ids).next == old(ids).next + STRIDE,
{
    let result: u64 = ids.next;
    ids.next = ids.next + STRIDE;
    result
}

/// The `n`th identifier drawn by the source of thread `thread`.
pub open spec fn nth_id(thread: nat, n: nat) -> nat {
    thread + n * STRIDE as nat
}

/// A source that has drawn `n` identifiers stands at the `n`th one of its thread: drawing
/// one more moves it to the next.
pub proof fn law_draws_enumerate(thread: nat, n: nat)
    ensures
        nth_id(thread, 0) == thread,
        nth_id(thread, n + 1) == nth_id(thread, n) + STRIDE,
{
    assert((n + 1) * STRIDE as nat == n * STRIDE as nat + STRIDE as nat) by (nonlinear_arith);
}

/// Threads generate disjoint sets of identifiers, and one thread never draws the same
/// identifier twice.
pub proof fn law_ids_disjoint(t1: nat, n1: nat, t2: nat, n2: nat)
    requires
        t1 < STRIDE,
        t2 < STRIDE,
    ensures
        nth_id(t1, n1) == nth_id(t2, n2) <==> t1 == t2 && n1 == n2,
{
    let s = STRIDE as int;
    assert((t1 + n1 * s) % s == t1 as int % s) by (nonlinear_arith)
        requires
            s == 128,
    ;
    assert((t2 + n2 * s) % s == t2 as int % s) by (nonlinear_arith)
        requires
            s == 128,
    ;
}

} // verus!
