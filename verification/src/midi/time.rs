//! Time signatures, and the number of bars after which patterns of different lengths end
//! together with the bar.

use crate::dsl::dsl::{BasicLength, KnownLength};
use crate::midi::lcm::{
    all_positive, greatest_common_divisor, is_multiple_of_all, lcm, lcm_all,
    lemma_divides_quotient, lemma_gcd_divides, lemma_lcm, lemma_lcm_all,
    lemma_lcm_all_same_numbers, lemma_multiple_mod,
};
use std::cmp::Ordering;
use vstd::prelude::*;
use vstd::std_specs::cmp::PartialOrdSpecImpl;
use vstd::std_specs::ops::MulSpecImpl;

verus! {

/// The number of bars that `converges` does not reach.
pub const CONVERGENCE_LIMIT: u32 = 1000;

/// A bar of `numerator` notes of the length `denominator`.
#[derive(Debug, Clone, Copy, PartialEq, Eq, Ord, Structural)]
pub struct TimeSignature {
    pub numerator: u8,
    pub denominator: BasicLength,
}

/// The tick counts of `items`, in their order.
pub open spec fn ticks_of<T: KnownLength>(items: Seq<T>) -> Seq<nat> {
    Seq::new(items.len(), |i: int| items[i].ticks())
}

/// After `bars` bars of `bar` ticks each, every pattern has been played a whole number
/// of times.
pub open spec fn aligned(bars: nat, bar: nat, lengths: Seq<nat>) -> bool {
    forall|i: int| 0 <= i < lengths.len() ==> (bars * bar) % lengths[i] == 0
}

/// The number of bars of `bar` ticks that the least common multiple of the bar and all
/// pattern lengths fills.
pub open spec fn bars_to_converge(bar: nat, lengths: Seq<nat>) -> nat {
    lcm_all(bar, lengths) / bar
}

/// The bars to converge are at least one, they align all patterns, and no smaller
/// positive number of bars does: every number of bars that aligns them is at least as
/// large.
pub proof fn lemma_bars_to_converge_least(bar: nat, lengths: Seq<nat>)
    requires
        bar > 0,
        all_positive(lengths),
    ensures
        bars_to_converge(bar, lengths) >= 1,
        bars_to_converge(bar, lengths) * bar == lcm_all(bar, lengths),
        aligned(bars_to_converge(bar, lengths), bar, lengths),
        forall|k: nat|
            k >= 1 && aligned(k, bar, lengths) ==> bars_to_converge(bar, lengths) <= k,
{
    let all = lcm_all(bar, lengths);
    let bars = bars_to_converge(bar, lengths);
    lemma_lcm_all(bar, lengths);
    lemma_divides_quotient(all as int, bar as int);
    assert(bars >= 1) by (nonlinear_arith)
        requires
            all == bars * bar,
            all > 0,
            bar > 0,
    ;
    assert forall|k: nat| k >= 1 && aligned(k, bar, lengths) implies bars <= k by {
        let total = k * bar;
        assert(total > 0) by (nonlinear_arith)
            requires
                total == k * bar,
                k >= 1,
                bar > 0,
        ;
        lemma_multiple_mod(k as int, bar as int);
        assert(is_multiple_of_all(total, bar, lengths));
        assert(bars <= k) by (nonlinear_arith)
            requires
                bars * bar <= k * bar,
                bar > 0,
        ;
    }
}

/// The bars to converge do not depend on the order of the patterns, nor on how often
/// a pattern occurs, nor on whether a pattern as long as the bar is among them.
pub proof fn lemma_bars_to_converge_same_lengths(bar: nat, a: Seq<nat>, b: Seq<nat>)
    requires
        bar > 0,
        all_positive(a),
        all_positive(b),
        forall|i: int| 0 <= i < a.len() ==> a[i] == bar || b.contains(a[i]),
        forall|i: int| 0 <= i < b.len() ==> b[i] == bar || a.contains(b[i]),
    ensures
        bars_to_converge(bar, a) == bars_to_converge(bar, b),
{
    lemma_lcm_all_same_numbers(bar, a, b);
}

/// Adding a pattern that is already in the list, at its end, does not change the bars
/// to converge.
pub proof fn lemma_bars_to_converge_duplicate(bar: nat, lengths: Seq<nat>, i: int)
    requires
        bar > 0,
        all_positive(lengths),
        0 <= i < lengths.len(),
    ensures
        bars_to_converge(bar, lengths.push(lengths[i])) == bars_to_converge(bar, lengths),
{
    let more = lengths.push(lengths[i]);
    assert forall|j: int| 0 <= j < more.len() implies lengths.contains(more[j]) by {
        if j < lengths.len() {
            assert(more[j] == lengths[j]);
        } else {
            assert(more[j] == lengths[i]);
        }
    }
    assert forall|j: int| 0 <= j < lengths.len() implies more.contains(lengths[j]) by {
        assert(more[j] == lengths[j]);
    }
    lemma_lcm_all_same_numbers(bar, more, lengths);
}

impl TimeSignature {
    /// The time signature of `numerator` notes of the value `denominator` in a bar.
    pub fn new(numerator: u8, denominator: BasicLength) -> (signature: Self)
        ensures
            signature == (TimeSignature { numerator, denominator }),
    {
        Self { numerator, denominator }
    }

    /// The number of bars after which the bar and all of `multiple` end together,
    /// where that number is below `CONVERGENCE_LIMIT`.
    pub fn converges<T: KnownLength>(&self, multiple: Vec<T>) -> (bars: Result<u32, String>)
        requires
            self.numerator > 0,
            forall|i: int| 0 <= i < multiple.len() ==> multiple[i].measurable(),
            all_positive(ticks_of(multiple@)),
        ensures
            match bars {
                Ok(bars) => bars == bars_to_converge(self.ticks(), ticks_of(multiple@)) && bars
                    < CONVERGENCE_LIMIT,
                Err(message) => bars_to_converge(self.ticks(), ticks_of(multiple@))
                    >= CONVERGENCE_LIMIT && message@ == "Does not converge"@,
            },
    {
        match self.converges_within(multiple, CONVERGENCE_LIMIT) {
            Some(bars) => Ok(bars),
            None => Err("Does not converge".to_string()),
        }
    }

    /// The number of bars after which the bar and all of `multiple` end together,
    /// where that number is below `limit`.
    pub fn converges_within<T: KnownLength>(&self, multiple: Vec<T>, limit: u32) -> (bars: Option<
        u32,
    >)
        requires
            self.numerator > 0,
            forall|i: int| 0 <= i < multiple.len() ==> multiple[i].measurable(),
            all_positive(ticks_of(multiple@)),
        ensures
            bars == if bars_to_converge(self.ticks(), ticks_of(multiple@)) < limit {
                Some(bars_to_converge(self.ticks(), ticks_of(multiple@)) as u32)
            } else {
                None
            },
    {
        let bar: u64 = self.to_128th() as u64;
        let ghost lengths = ticks_of(multiple@);
        proof {
            assert(0 < bar <= 128 * 255) by (nonlinear_arith)
                requires
                    bar == self.denominator.ticks() * self.numerator,
                    2 <= self.denominator.ticks() <= 128,
                    1 <= self.numerator <= 255,
            ;
            lemma_bars_to_converge_least(bar as nat, lengths);
        }
        if limit <= 1 {
            return None;
        }
        let mut bars: u64 = 1;
        let mut i: usize = 0;
        proof {
            assert(lengths.take(0) =~= Seq::<nat>::empty());
        }
        while i < multiple.len()
            invariant
                i <= multiple.len(),
                lengths == ticks_of(multiple@),
                forall|j: int| 0 <= j < multiple.len() ==> multiple[j].measurable(),
                all_positive(lengths),
                0 < bar <= 128 * 255,
                bar == self.ticks(),
                1 <= bars < limit,
                bars * bar == lcm_all(bar as nat, lengths.take(i as int)),
            decreases multiple.len() - i,
        {
            let ghost front = lengths.take(i as int);
            let ghost next_front = lengths.take(i + 1);
            let length: u64 = multiple[i].to_128th() as u64;
            assert(length == lengths[i as int]);
            assert(bars * bar <= 0xffff_ffff * (128 * 255)) by (nonlinear_arith)
                requires
                    bars <= 0xffff_ffff,
                    bar <= 128 * 255,
            ;
            let so_far: u64 = bars * bar;
            assert(so_far > 0) by (nonlinear_arith)
                requires
                    so_far == bars * bar,
                    bars >= 1,
                    bar > 0,
            ;
            let divisor: u64 = greatest_common_divisor(length, so_far);
            proof {
                lemma_gcd_divides(length as nat, so_far as nat);
                lemma_lcm(length as nat, so_far as nat);
                assert(next_front.drop_last() =~= front);
                assert(next_front.last() == length);
                assert(lcm_all(bar as nat, next_front) == lcm(length as nat, so_far as nat));
            }
            let factor: u64 = length / divisor;
            assert(bars * factor <= 0xffff_ffff * 0xffff_ffff) by (nonlinear_arith)
                requires
                    bars <= 0xffff_ffff,
                    factor <= 0xffff_ffff,
            ;
            let next: u64 = bars * factor;
            proof {
                assert(next * bar == factor * so_far) by (nonlinear_arith)
                    requires
                        next == bars * factor,
                        so_far == bars * bar,
                ;
                assert(next * bar == lcm_all(bar as nat, next_front));
                assert(next >= 1) by (nonlinear_arith)
                    requires
                        next * bar == lcm(length as nat, so_far as nat),
                        lcm(length as nat, so_far as nat) > 0,
                        bar > 0,
                        next >= 0,
                ;
            }
            if next >= limit as u64 {
                proof {
                    let all = lcm_all(bar as nat, lengths);
                    lemma_bars_to_converge_least(bar as nat, lengths);
                    lemma_lcm_all(bar as nat, lengths);
                    lemma_lcm_all(bar as nat, next_front);
                    assert forall|j: int| 0 <= j < next_front.len() implies all
                        % next_front[j] == 0 by {
                        assert(next_front[j] == lengths[j]);
                    }
                    assert(is_multiple_of_all(all, bar as nat, next_front));
                    assert(next <= bars_to_converge(bar as nat, lengths)) by (nonlinear_arith)
                        requires
                            next * bar <= all,
                            bars_to_converge(bar as nat, lengths) * bar == all,
                            bar > 0,
                    ;
                }
                return None;
            }
            bars = next;
            i += 1;
        }
        proof {
            assert(lengths.take(i as int) =~= lengths);
            lemma_bars_to_converge_least(bar as nat, lengths);
            assert(bars == bars_to_converge(bar as nat, lengths)) by (nonlinear_arith)
                requires
                    bars * bar == lcm_all(bar as nat, lengths),
                    bars_to_converge(bar as nat, lengths) * bar == lcm_all(bar as nat, lengths),
                    bar > 0,
            ;
        }
        Some(bars as u32)
    }
}

impl PartialOrd for TimeSignature {
    fn partial_cmp(&self, other: &Self) -> (order: Option<Ordering>) {
        if self.numerator < other.numerator {
            Some(Ordering::Less)
        } else if self.numerator > other.numerator {
            Some(Ordering::Greater)
        } else {
            self.denominator.partial_cmp(&other.denominator)
        }
    }
}

impl PartialOrdSpecImpl for TimeSignature {
    open spec fn obeys_partial_cmp_spec() -> bool {
        true
    }

    /// Time signatures are ordered by numerator, and those with one numerator by the
    /// rank of the denominator. This is not the order of the bars' lengths.
    open spec fn partial_cmp_spec(&self, other: &Self) -> Option<Ordering> {
        if self.numerator < other.numerator {
            Some(Ordering::Less)
        } else if self.numerator > other.numerator {
            Some(Ordering::Greater)
        } else if self.denominator.rank() < other.denominator.rank() {
            Some(Ordering::Less)
        } else if self.denominator.rank() > other.denominator.rank() {
            Some(Ordering::Greater)
        } else {
            Some(Ordering::Equal)
        }
    }
}

impl core::ops::Mul<u8> for TimeSignature {
    type Output = TimeSignature;

    fn mul(self, rhs: u8) -> (product: TimeSignature) {
        TimeSignature { numerator: self.numerator * rhs, denominator: self.denominator }
    }
}

impl MulSpecImpl<u8> for TimeSignature {
    open spec fn obeys_mul_spec() -> bool {
        true
    }

    open spec fn mul_req(self, rhs: u8) -> bool {
        self.numerator * rhs <= u8::MAX
    }

    open spec fn mul_spec(self, rhs: u8) -> TimeSignature {
        TimeSignature {
            numerator: (self.numerator * rhs) as u8,
            denominator: self.denominator,
        }
    }
}

impl KnownLength for TimeSignature {
    open spec fn ticks(&self) -> nat {
        self.denominator.ticks() * self.numerator as nat
    }

    open spec fn measurable(&self) -> bool {
        true
    }

    fn to_128th(&self) -> (ticks: u32) {
        self.denominator.to_128th() * (self.numerator as u32)
    }
}

/// The least common multiple of `a` and `b`.
pub fn lowest_common_divisor(a: u32, b: u32) -> (multiple: u32)
    requires
        a > 0,
        b > 0,
        lcm(a as nat, b as nat) <= u32::MAX,
    ensures
        multiple == lcm(a as nat, b as nat),
{
    let divisor: u64 = greatest_common_divisor(a as u64, b as u64);
    proof {
        lemma_gcd_divides(a as nat, b as nat);
        lemma_lcm(a as nat, b as nat);
    }
    let multiple: u64 = (a as u64 / divisor) * (b as u64);
    multiple as u32
}

} // verus!
