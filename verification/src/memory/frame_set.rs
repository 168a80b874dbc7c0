//! Sets of frame numbers, and what it means to take frames out of one in
//! ascending order.

use vstd::prelude::*;

verus! {

/// `x` is the lowest number in `s`.
pub open spec fn is_least(s: Set<nat>, x: nat) -> bool {
    s.contains(x) && forall|y: nat| s.contains(y) ==> x <= y
}

/// `s` holds a number.
pub open spec fn inhabited(s: Set<nat>) -> bool {
    exists|x: nat| s.contains(x)
}

/// The lowest number in `s`, where `s` has one.
pub open spec fn least(s: Set<nat>) -> nat {
    choose|x: nat| is_least(s, x)
}

/// The number that the request number `n` for a lowest number gets, where
/// every number handed out leaves the set. Requests count from 0.
pub open spec fn nth_least(s: Set<nat>, n: nat) -> Option<nat>
    decreases n,
{
    if !inhabited(s) {
        None
    } else if n == 0 {
        Some(least(s))
    } else {
        nth_least(s.remove(least(s)), (n - 1) as nat)
    }
}

/// What is left of `s` after `n` requests for a lowest number.
pub open spec fn without_least(s: Set<nat>, n: nat) -> Set<nat>
    decreases n,
{
    if n == 0 || !inhabited(s) {
        s
    } else {
        without_least(s.remove(least(s)), (n - 1) as nat)
    }
}

/// How many of `n` requests for a lowest number `s` can serve.
pub open spec fn available(s: Set<nat>, n: nat) -> nat
    decreases n,
{
    if n == 0 || !inhabited(s) {
        0
    } else {
        1 + available(s.remove(least(s)), (n - 1) as nat)
    }
}

proof fn lemma_least_below(s: Set<nat>, bound: nat)
    requires
        exists|x: nat| s.contains(x) && x <= bound,
    ensures
        exists|x: nat| is_least(s, x),
    decreases bound,
{
    if s.contains(0) {
        assert(is_least(s, 0));
    } else if bound == 0 {
    } else {
        let shifted = Set::new(|y: nat| s.contains(y + 1));
        let w = choose|x: nat| s.contains(x) && x <= bound;
        assert(shifted.contains((w - 1) as nat));
        lemma_least_below(shifted, (bound - 1) as nat);
        let m = choose|x: nat| is_least(shifted, x);
        assert forall|y: nat| s.contains(y) implies m + 1 <= y by {
            assert(shifted.contains((y - 1) as nat));
        }
        assert(is_least(s, m + 1));
    }
}

/// A set of numbers that holds a number holds a lowest one.
pub proof fn lemma_least_exists(s: Set<nat>)
    requires
        inhabited(s),
    ensures
        is_least(s, least(s)),
{
    let w = choose|x: nat| s.contains(x);
    lemma_least_below(s, w);
}

/// A set has at most one lowest number.
pub proof fn lemma_least_unique(s: Set<nat>, x: nat)
    requires
        is_least(s, x),
    ensures
        least(s) == x,
        inhabited(s),
{
    lemma_least_exists(s);
}

/// Whatever a later request gets is in the set and above what every
/// earlier request got: the numbers handed out are pairwise distinct and
/// strictly increasing.
pub proof fn lemma_requests_increase(s: Set<nat>, i: nat, j: nat)
    requires
        i < j,
        nth_least(s, j) is Some,
    ensures
        nth_least(s, i) is Some,
        nth_least(s, i).unwrap() < nth_least(s, j).unwrap(),
        s.contains(nth_least(s, i).unwrap()),
        s.contains(nth_least(s, j).unwrap()),
    decreases i,
{
    lemma_least_exists(s);
    let rest = s.remove(least(s));
    lemma_nth_in_set(rest, (j - 1) as nat);
    if i > 0 {
        lemma_requests_increase(rest, (i - 1) as nat, (j - 1) as nat);
    }
}

/// What a request gets is in the set.
pub proof fn lemma_nth_in_set(s: Set<nat>, n: nat)
    requires
        nth_least(s, n) is Some,
    ensures
        s.contains(nth_least(s, n).unwrap()),
        forall|k: nat| k < n ==> nth_least(s, k) is Some,
    decreases n,
{
    lemma_least_exists(s);
    if n > 0 {
        let rest = s.remove(least(s));
        lemma_nth_in_set(rest, (n - 1) as nat);
        assert forall|k: nat| k < n implies nth_least(s, k) is Some by {
            if k > 0 {
                assert(nth_least(rest, (k - 1) as nat) is Some);
            }
        }
    }
}

/// No more requests are served than are made, and as long as the set
/// holds a number one more is.
pub proof fn lemma_available_bound(s: Set<nat>, n: nat)
    ensures
        available(s, n) <= n,
        available(s, n) < n ==> !inhabited(without_least(s, available(s, n))),
        available(s, n) == n <==> (n == 0 || nth_least(s, (n - 1) as nat) is Some),
    decreases n,
{
    if n == 0 || !inhabited(s) {
    } else {
        lemma_available_bound(s.remove(least(s)), (n - 1) as nat);
    }
}

/// Requests only ever shrink the set.
pub proof fn lemma_without_least_subset(s: Set<nat>, n: nat)
    ensures
        without_least(s, n).subset_of(s),
        !inhabited(s) ==> !inhabited(without_least(s, n)),
    decreases n,
{
    if n == 0 || !inhabited(s) {
    } else {
        lemma_without_least_subset(s.remove(least(s)), (n - 1) as nat);
    }
}

} // verus!
