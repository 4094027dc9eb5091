//! The two candidates among which an endpoint is chosen.
use rand::Rng;
use vstd::prelude::*;

verus! {

/// Whether `i0` and `i1` may be the candidates among `n` endpoints: the two
/// there are when `n` is 2, any two different ones when there are more.
pub open spec fn are_candidates(n: nat, i0: int, i1: int) -> bool {
    if n == 2 {
        i0 == 0 && i1 == 1
    } else {
        n >= 3 && 0 <= i0 < n && 0 <= i1 < n && i0 != i1
    }
}

/// `Rng::gen_range(0, n)` on `rand::thread_rng()`: a number at least 0 and
/// below `n`, drawn by the generator of this thread. Nothing else is known
/// of it, and two calls may differ.
#[verifier::external_body]
pub(crate) fn random_below(n: usize) -> (r: usize)
    requires
        n > 0,
    ensures
        r < n,
{
    rand::thread_rng().gen_range(0, n)
}

/// The second candidate, from the first and a number below `n - 1`: the
/// numbers from `first` on stand for the index one higher, so that every
/// index but `first` is hit by exactly one number.
pub fn skip_over(first: usize, below: usize) -> (second: usize)
    requires
        below < usize::MAX,
    ensures
        second != first,
        second == if below >= first {
            below + 1
        } else {
            below as int
        },
{
    if below >= first {
        below + 1
    } else {
        below
    }
}

/// Every index but `first` is the second candidate for exactly one number.
pub proof fn lemma_skip_over_reaches(n: nat, first: int, second: int)
    requires
        0 <= first < n,
        0 <= second < n,
        second != first,
    ensures
        exists|below: int|
            0 <= below < n - 1 && second == #[trigger] spec_skip_over(first, below) && forall|other: int|
                0 <= other < n - 1 && second == #[trigger] spec_skip_over(first, other) ==> other == below,
{
    let below = if second > first {
        second - 1
    } else {
        second
    };
    assert(second == spec_skip_over(first, below));
}

/// [`skip_over`] on mathematical integers.
pub open spec fn spec_skip_over(first: int, below: int) -> int {
    if below >= first {
        below + 1
    } else {
        below
    }
}

/// Draws the two candidates among `n` endpoints. With two endpoints they
/// are 0 and 1. With more, the first is drawn among all and the second
/// among the others, each with equal chance.
pub fn draw_candidates(n: usize) -> (c: (usize, usize))
    requires
        n >= 2,
    ensures
        are_candidates(n as nat, c.0 as int, c.1 as int),
{
    if n == 2 {
        (0, 1)
    } else {
        let i0: usize = random_below(n);
        let below: usize = random_below(n - 1);
        (i0, skip_over(i0, below))
    }
}

} // verus!
