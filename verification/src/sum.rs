//! Sums of a function over the first integers.

use vstd::prelude::*;

verus! {

/// `f(0) + f(1) + ... + f(n - 1)`.
pub open spec fn sum_of(f: spec_fn(int) -> nat, n: int) -> nat
    decreases n,
{
    if n <= 0 {
        0
    } else {
        sum_of(f, n - 1) + f(n - 1)
    }
}

/// Functions that agree have the same sum.
pub proof fn lemma_sum_agree(f: spec_fn(int) -> nat, g: spec_fn(int) -> nat, n: int)
    requires
        forall|i: int| #![trigger f(i)] #![trigger g(i)] 0 <= i < n ==> f(i) == g(i),
    ensures
        sum_of(f, n) == sum_of(g, n),
    decreases n,
{
    if n > 0 {
        assert(f(n - 1) == g(n - 1));
        lemma_sum_agree(f, g, n - 1);
    }
}

/// A sum whose terms are bounded is bounded.
pub proof fn lemma_sum_bound(f: spec_fn(int) -> nat, n: int, bound: nat)
    requires
        0 <= n,
        forall|i: int| #![trigger f(i)] 0 <= i < n ==> f(i) <= bound,
    ensures
        sum_of(f, n) <= n * bound,
    decreases n,
{
    if n > 0 {
        lemma_sum_bound(f, n - 1, bound);
        assert(f(n - 1) <= bound);
        assert((n - 1) * bound + bound == n * bound) by (nonlinear_arith);
    } else {
        assert(n * bound == 0) by (nonlinear_arith)
            requires
                n == 0,
        ;
    }
}

/// More terms make a sum no smaller.
pub proof fn lemma_sum_grows(f: spec_fn(int) -> nat, n: int, m: int)
    requires
        n <= m,
    ensures
        sum_of(f, n) <= sum_of(f, m),
    decreases m - n,
{
    if n < m {
        lemma_sum_grows(f, n, m - 1);
    }
}

/// Terms that are zero can be left out at the end.
pub proof fn lemma_sum_zero_end(f: spec_fn(int) -> nat, n: int, m: int)
    requires
        0 <= n <= m,
        forall|i: int| #![trigger f(i)] n <= i < m ==> f(i) == 0,
    ensures
        sum_of(f, m) == sum_of(f, n),
    decreases m - n,
{
    if n < m {
        assert(f(m - 1) == 0);
        lemma_sum_zero_end(f, n, m - 1);
    }
}

/// The first term can be taken out of a sum.
pub proof fn lemma_sum_front(f: spec_fn(int) -> nat, n: int)
    requires
        0 < n,
    ensures
        sum_of(f, n) == f(0) + sum_of(|i: int| f(i + 1), n - 1),
    decreases n,
{
    let shifted = |i: int| f(i + 1);
    if n == 1 {
        assert(sum_of(f, 0) == 0);
        assert(sum_of(shifted, 0) == 0);
    } else {
        lemma_sum_front(f, n - 1);
        assert(shifted(n - 2) == f(n - 1));
    }
}

/// Sums can be added term by term.
pub proof fn lemma_sum_plus(f: spec_fn(int) -> nat, g: spec_fn(int) -> nat, n: int)
    ensures
        sum_of(|i: int| f(i) + g(i), n) == sum_of(f, n) + sum_of(g, n),
    decreases n,
{
    if n > 0 {
        lemma_sum_plus(f, g, n - 1);
    }
}

/// A sum over a table is the same by rows and by columns.
pub proof fn lemma_sum_swap(f: spec_fn(int, int) -> nat, n: int, m: int)
    ensures
        sum_of(|i: int| sum_of(|j: int| f(i, j), m), n) == sum_of(
            |j: int| sum_of(|i: int| f(i, j), n),
            m,
        ),
    decreases n,
{
    let by_columns = |j: int| sum_of(|i: int| f(i, j), n);
    if n <= 0 {
        lemma_sum_zero_end(by_columns, 0, if m < 0 { 0 } else { m });
    } else {
        lemma_sum_swap(f, n - 1, m);
        let shorter = |j: int| sum_of(|i: int| f(i, j), n - 1);
        let last_row = |j: int| f(n - 1, j);
        lemma_sum_plus(shorter, last_row, m);
        lemma_sum_agree(by_columns, |j: int| shorter(j) + last_row(j), m);
    }
}

/// A sum over a ring does not depend on where it begins.
pub proof fn lemma_sum_turn(f: spec_fn(int) -> nat, n: int, by: int)
    requires
        0 < n,
        0 <= by,
    ensures
        sum_of(|i: int| f((i - by) % n), n) == sum_of(f, n),
    decreases by,
{
    let turned = |i: int| f((i - by) % n);
    if by == 0 {
        assert forall|i: int| #![trigger f(i)] 0 <= i < n implies turned(i) == f(i) by {
            vstd::arithmetic::div_mod::lemma_small_mod(i as nat, n as nat);
        }
        lemma_sum_agree(turned, f, n);
    } else {
        let before = |i: int| f((i - (by - 1)) % n);
        lemma_sum_turn(f, n, by - 1);
        lemma_sum_front(turned, n);
        let rest = |i: int| turned(i + 1);
        lemma_sum_agree(rest, before, n - 1);
        vstd::arithmetic::div_mod::lemma_mod_add_multiples_vanish(-by, n);
        assert(turned(0) == before(n - 1));
    }
}

} // verus!
