//! Common multiples and divisors: the least common multiple as contracts state it, the
//! greatest common divisor by which it is computed, and the proof that the two agree.

use vstd::arithmetic::div_mod::{
    lemma_fundamental_div_mod, lemma_mod_multiples_basic, lemma_mod_self_0, lemma_small_mod,
};
use vstd::prelude::*;

verus! {

/// `m` is a positive number that both `a` and `b` divide.
pub open spec fn is_common_multiple(m: nat, a: nat, b: nat) -> bool {
    m > 0 && m % a == 0 && m % b == 0
}

/// `m` is the least positive number that both `a` and `b` divide.
pub open spec fn is_least_common_multiple(m: nat, a: nat, b: nat) -> bool {
    is_common_multiple(m, a, b) && forall|k: nat| is_common_multiple(k, a, b) ==> m <= k
}

/// The least common multiple of two positive numbers.
pub open spec fn lcm(a: nat, b: nat) -> nat {
    choose|m: nat| is_least_common_multiple(m, a, b)
}

/// The greatest common divisor, by Euclid's algorithm.
pub open spec fn gcd(a: nat, b: nat) -> nat
    decreases b,
{
    if b == 0 {
        a
    } else {
        gcd(b, a % b)
    }
}

/// A multiple of `d` leaves no remainder.
pub proof fn lemma_multiple_mod(q: int, d: int)
    requires
        d > 0,
    ensures
        (q * d) % d == 0,
{
    lemma_mod_multiples_basic(q, d);
}

/// A number that `d` divides is its quotient times `d`.
pub proof fn lemma_divides_quotient(n: int, d: int)
    requires
        d > 0,
        n % d == 0,
    ensures
        n == (n / d) * d,
{
    lemma_fundamental_div_mod(n, d);
    assert(d * (n / d) == (n / d) * d) by (nonlinear_arith);
}

/// A positive multiple of `d` is at least `d`.
pub proof fn lemma_multiple_at_least(k: nat, d: nat)
    requires
        k > 0,
        d > 0,
        k % d == 0,
    ensures
        d <= k,
{
    lemma_divides_quotient(k as int, d as int);
    let q = k as int / d as int;
    assert(d <= k) by (nonlinear_arith)
        requires
            k == q * d,
            k > 0,
            d > 0,
    ;
}

/// Divisibility is transitive.
pub proof fn lemma_divides_trans(a: nat, b: nat, c: nat)
    requires
        a > 0,
        b > 0,
        b % a == 0,
        c % b == 0,
    ensures
        c % a == 0,
{
    lemma_divides_quotient(b as int, a as int);
    lemma_divides_quotient(c as int, b as int);
    let u = b as int / a as int;
    let v = c as int / b as int;
    assert(c == (v * u) * a) by (nonlinear_arith)
        requires
            b == u * a,
            c == v * b,
    ;
    lemma_multiple_mod(v * u, a as int);
}

/// The greatest common divisor divides both numbers.
pub proof fn lemma_gcd_divides(a: nat, b: nat)
    requires
        a > 0 || b > 0,
    ensures
        gcd(a, b) > 0,
        a % gcd(a, b) == 0,
        b % gcd(a, b) == 0,
    decreases b,
{
    if b == 0 {
        lemma_mod_self_0(a as int);
        lemma_small_mod(0, a);
    } else {
        let r = a % b;
        lemma_gcd_divides(b, r);
        let g = gcd(b, r);
        lemma_fundamental_div_mod(a as int, b as int);
        lemma_divides_quotient(b as int, g as int);
        lemma_divides_quotient(r as int, g as int);
        let q = a as int / b as int;
        let u = b as int / g as int;
        let v = r as int / g as int;
        assert(a == (u * q + v) * g) by (nonlinear_arith)
            requires
                a == b * q + r,
                b == u * g,
                r == v * g,
        ;
        lemma_multiple_mod(u * q + v, g as int);
    }
}

/// Bezout's identity: the greatest common divisor is a sum of multiples of the two
/// numbers. The result holds the two factors.
pub proof fn lemma_bezout(a: nat, b: nat) -> (c: (int, int))
    ensures
        gcd(a, b) == c.0 * a + c.1 * b,
    decreases b,
{
    if b == 0 {
        (1, 0)
    } else {
        let r = a % b;
        let q = a as int / b as int;
        let (x, y) = lemma_bezout(b, r);
        let g = gcd(b, r);
        lemma_fundamental_div_mod(a as int, b as int);
        assert(g == y * a + (x - q * y) * b) by (nonlinear_arith)
            requires
                g == x * b + y * r,
                a == b * q + r,
        ;
        (y, x - q * y)
    }
}

/// Every common multiple of `a` and `b` is a multiple of `a / gcd(a, b) * b`.
pub proof fn lemma_common_multiple_is_multiple(a: nat, b: nat, k: nat)
    requires
        a > 0,
        b > 0,
        is_common_multiple(k, a, b),
    ensures
        a / gcd(a, b) * b > 0,
        k % (a / gcd(a, b) * b) == 0,
        a / gcd(a, b) * b <= k,
{
    let g = gcd(a, b) as int;
    lemma_gcd_divides(a, b);
    let (x, y) = lemma_bezout(a, b);
    lemma_divides_quotient(a as int, g);
    lemma_divides_quotient(k as int, a as int);
    lemma_divides_quotient(k as int, b as int);
    let a1 = a as int / g;
    let u = k as int / a as int;
    let v = k as int / b as int;
    let l = a1 * b;
    let t = x * v + y * u;
    assert(a1 > 0) by (nonlinear_arith)
        requires
            a == a1 * g,
            a > 0,
            g > 0,
    ;
    assert(l > 0) by (nonlinear_arith)
        requires
            l == a1 * b,
            a1 > 0,
            b > 0,
    ;
    assert(k * g == (t * l) * g) by (nonlinear_arith)
        requires
            g == x * a + y * b,
            k == u * a,
            k == v * b,
            a == a1 * g,
            l == a1 * b,
            t == x * v + y * u,
    ;
    assert(k == t * l) by (nonlinear_arith)
        requires
            k * g == (t * l) * g,
            g > 0,
    ;
    lemma_multiple_mod(t, l);
    assert(t >= 1) by (nonlinear_arith)
        requires
            k == t * l,
            k > 0,
            l > 0,
    ;
    assert(l <= k) by (nonlinear_arith)
        requires
            k == t * l,
            t >= 1,
            l > 0,
    ;
}

/// `a / gcd(a, b) * b` is a common multiple of `a` and `b`.
pub proof fn lemma_formula_is_common_multiple(a: nat, b: nat)
    requires
        a > 0,
        b > 0,
    ensures
        is_common_multiple(a / gcd(a, b) * b, a, b),
{
    let g = gcd(a, b) as int;
    lemma_gcd_divides(a, b);
    lemma_divides_quotient(a as int, g);
    lemma_divides_quotient(b as int, g);
    let a1 = a as int / g;
    let b1 = b as int / g;
    let l = a1 * b;
    assert(a1 > 0) by (nonlinear_arith)
        requires
            a == a1 * g,
            a > 0,
            g > 0,
    ;
    assert(l > 0) by (nonlinear_arith)
        requires
            l == a1 * b,
            a1 > 0,
            b > 0,
    ;
    assert(l == b1 * a) by (nonlinear_arith)
        requires
            l == a1 * b,
            a == a1 * g,
            b == b1 * g,
    ;
    lemma_multiple_mod(a1, b as int);
    lemma_multiple_mod(b1, a as int);
}

/// The least common multiple of two positive numbers exists, is their product divided by
/// their greatest common divisor, and divides each of their common multiples.
pub proof fn lemma_lcm(a: nat, b: nat)
    requires
        a > 0,
        b > 0,
    ensures
        is_least_common_multiple(lcm(a, b), a, b),
        lcm(a, b) == a / gcd(a, b) * b,
        forall|k: nat| is_common_multiple(k, a, b) ==> k % lcm(a, b) == 0,
{
    let l = a / gcd(a, b) * b;
    lemma_formula_is_common_multiple(a, b);
    assert forall|k: nat| is_common_multiple(k, a, b) implies l <= k && k % l == 0 by {
        lemma_common_multiple_is_multiple(a, b, k);
    }
    assert(is_least_common_multiple(l, a, b));
    let m = lcm(a, b);
    assert(is_least_common_multiple(m, a, b));
    assert(m <= l && l <= m);
}

/// A search upward from the larger of two positive numbers meets their least common
/// multiple first, and no later than at their product.
pub proof fn lemma_lcm_search(a: nat, b: nat, candidate: nat)
    requires
        a > 0,
        b > 0,
    ensures
        a <= lcm(a, b),
        b <= lcm(a, b),
        lcm(a, b) <= a * b,
        candidate < lcm(a, b) ==> !is_common_multiple(candidate, a, b),
{
    lemma_lcm(a, b);
    lemma_multiple_at_least(lcm(a, b), a);
    lemma_multiple_at_least(lcm(a, b), b);
    let product = a * b;
    assert(product > 0) by (nonlinear_arith)
        requires
            product == a * b,
            a > 0,
            b > 0,
    ;
    lemma_multiple_mod(a as int, b as int);
    lemma_multiple_mod(b as int, a as int);
    assert(b * a == a * b) by (nonlinear_arith);
    assert(is_common_multiple(product, a, b));
}

/// There is one least common multiple only.
pub proof fn lemma_lcm_unique(m: nat, a: nat, b: nat)
    requires
        a > 0,
        b > 0,
        is_least_common_multiple(m, a, b),
    ensures
        m == lcm(a, b),
{
    lemma_lcm(a, b);
    let l = lcm(a, b);
    assert(m <= l && l <= m);
}

/// Euclid's algorithm.
pub fn greatest_common_divisor(a: u64, b: u64) -> (g: u64)
    ensures
        g == gcd(a as nat, b as nat),
{
    let mut x: u64 = a;
    let mut y: u64 = b;
    while y != 0
        invariant
            gcd(x as nat, y as nat) == gcd(a as nat, b as nat),
        decreases y,
    {
        let r: u64 = x % y;
        x = y;
        y = r;
    }
    x
}

/// Every number of `lengths` is positive.
pub open spec fn all_positive(lengths: Seq<nat>) -> bool {
    forall|i: int| 0 <= i < lengths.len() ==> lengths[i] > 0
}

/// `m` is a positive number that `start` and every number of `lengths` divide.
pub open spec fn is_multiple_of_all(m: nat, start: nat, lengths: Seq<nat>) -> bool {
    &&& m > 0
    &&& m % start == 0
    &&& forall|i: int| 0 <= i < lengths.len() ==> m % lengths[i] == 0
}

/// The least common multiple of `start` and the numbers of `lengths`, taken in one by
/// one from the front.
pub open spec fn lcm_all(start: nat, lengths: Seq<nat>) -> nat
    decreases lengths.len(),
{
    if lengths.len() == 0 {
        start
    } else {
        lcm(lengths.last(), lcm_all(start, lengths.drop_last()))
    }
}

/// `lcm_all` is a common multiple of all the numbers, and divides each of their common
/// multiples: it is the least one.
pub proof fn lemma_lcm_all(start: nat, lengths: Seq<nat>)
    requires
        start > 0,
        all_positive(lengths),
    ensures
        is_multiple_of_all(lcm_all(start, lengths), start, lengths),
        forall|k: nat|
            is_multiple_of_all(k, start, lengths) ==> k % lcm_all(start, lengths) == 0
                && lcm_all(start, lengths) <= k,
    decreases lengths.len(),
{
    if lengths.len() == 0 {
        lemma_mod_self_0(start as int);
        assert forall|k: nat| is_multiple_of_all(k, start, lengths) implies k % start == 0
            && start <= k by {
            lemma_multiple_at_least(k, start);
        }
    } else {
        let front = lengths.drop_last();
        let last = lengths.last();
        let before = lcm_all(start, front);
        let all = lcm(last, before);
        lemma_lcm_all(start, front);
        lemma_lcm(last, before);
        lemma_divides_trans(start, before, all);
        assert forall|i: int| 0 <= i < lengths.len() implies all % lengths[i] == 0 by {
            if i < front.len() {
                assert(lengths[i] == front[i]);
                lemma_divides_trans(front[i], before, all);
            }
        }
        assert forall|k: nat| is_multiple_of_all(k, start, lengths) implies k % all == 0 && all
            <= k by {
            assert forall|i: int| 0 <= i < front.len() implies k % front[i] == 0 by {
                assert(lengths[i] == front[i]);
            }
            assert(is_multiple_of_all(k, start, front));
            assert(k % lengths[lengths.len() - 1] == 0);
            assert(is_common_multiple(k, last, before));
            lemma_multiple_at_least(k, all);
        }
    }
}

/// The least common multiple of all the numbers does not depend on their order, nor
/// on how often a number occurs, nor on whether `start` is among them.
pub proof fn lemma_lcm_all_same_numbers(start: nat, a: Seq<nat>, b: Seq<nat>)
    requires
        start > 0,
        all_positive(a),
        all_positive(b),
        forall|i: int| 0 <= i < a.len() ==> a[i] == start || b.contains(a[i]),
        forall|i: int| 0 <= i < b.len() ==> b[i] == start || a.contains(b[i]),
    ensures
        lcm_all(start, a) == lcm_all(start, b),
{
    let la = lcm_all(start, a);
    let lb = lcm_all(start, b);
    lemma_lcm_all(start, a);
    lemma_lcm_all(start, b);
    assert forall|i: int| 0 <= i < a.len() implies lb % a[i] == 0 by {
        if a[i] != start {
            let j = choose|j: int| 0 <= j < b.len() && b[j] == a[i];
            assert(lb % b[j] == 0);
        }
    }
    assert forall|i: int| 0 <= i < b.len() implies la % b[i] == 0 by {
        if b[i] != start {
            let j = choose|j: int| 0 <= j < a.len() && a[j] == b[i];
            assert(la % a[j] == 0);
        }
    }
    assert(is_multiple_of_all(lb, start, a));
    assert(is_multiple_of_all(la, start, b));
}

} // verus!
