//! Token amounts: fixed or random within an inclusive range.

use rand::RngExt;
use vstd::prelude::*;

verus! {

/// Lower bound of the default payout range, in sats.
pub const DEFAULT_LOWER_BOUND: u64 = 10;

/// Upper bound of the default payout range, in sats.
pub const DEFAULT_UPPER_BOUND: u64 = 20;

/// How the value of each token is chosen.
#[derive(Clone, Copy, Debug, PartialEq, Eq, Structural)]
pub enum AmountStrategy {
    /// Every token carries the same amount.
    Fixed(u64),
    /// Every token carries an amount drawn from `lower..=upper`.
    Range { lower: u64, upper: u64 },
}

impl AmountStrategy {
    /// The strategy can be sampled without panicking: a range is not empty.
    pub open spec fn is_sampleable(self) -> bool {
        match self {
            AmountStrategy::Fixed(_) => true,
            AmountStrategy::Range { lower, upper } => lower <= upper,
        }
    }

    /// A range whose two bounds coincide.
    pub open spec fn is_degenerate_range(self) -> bool {
        match self {
            AmountStrategy::Fixed(_) => false,
            AmountStrategy::Range { lower, upper } => lower == upper,
        }
    }

    /// The lower bound of a range (the fixed amount otherwise).
    pub open spec fn range_lower(self) -> u64 {
        match self {
            AmountStrategy::Fixed(v) => v,
            AmountStrategy::Range { lower, .. } => lower,
        }
    }

    /// `value` is an amount that the strategy may produce.
    pub open spec fn admits(self, value: u64) -> bool {
        match self {
            AmountStrategy::Fixed(v) => value == v,
            AmountStrategy::Range { lower, upper } => lower <= value && value <= upper,
        }
    }
}

/// A uniformly random value of `lower..=upper` from the thread-local generator.
///
/// Calls `rand::RngExt::random_range` on `rand::rng()`.  The contract claims only
/// that the value lies in the range, which holds of every outcome; the range is
/// non-empty by `requires`, so the call does not panic.
#[verifier::external_body]
fn random_in_range(lower: u64, upper: u64) -> (value: u64)
    requires
        lower <= upper,
    ensures
        lower <= value <= upper,
{
    let mut rng = rand::rng();
    rng.random_range(lower..=upper)
}

/// One token value for the strategy.
pub fn compute_token_value(strategy: AmountStrategy) -> (value: u64)
    requires
        strategy.is_sampleable(),
    ensures
        strategy.admits(value),
        strategy.is_degenerate_range() ==> value == strategy.range_lower(),
{
    match strategy {
        AmountStrategy::Fixed(value) => value,
        AmountStrategy::Range { lower, upper } => {
            if lower == upper {
                lower
            } else {
                random_in_range(lower, upper)
            }
        },
    }
}

/// Compute a value for each token to be generated. Values are either fixed or random
/// within a range.
pub fn compute_token_values(strategy: AmountStrategy, count: u64) -> (values: Vec<u64>)
    requires
        count > 0 ==> strategy.is_sampleable(),
        count <= usize::MAX,
    ensures
        values.len() == count,
        forall|i: int| 0 <= i < values.len() ==> strategy.admits(#[trigger] values@[i]),
{
    let mut values: Vec<u64> = Vec::new();
    let mut i: u64 = 0;
    while i < count
        invariant
            count > 0 ==> strategy.is_sampleable(),
            count <= usize::MAX,
            i <= count,
            values.len() == i,
            forall|j: int| 0 <= j < values.len() ==> strategy.admits(#[trigger] values@[j]),
        decreases count - i,
    {
        values.push(compute_token_value(strategy));
        i = i + 1;
    }
    values
}

/// The sum of a sequence of amounts, as a mathematical integer.
pub open spec fn sum_amounts(values: Seq<u64>) -> int
    decreases values.len(),
{
    if values.len() == 0 {
        0
    } else {
        sum_amounts(values.drop_last()) + values.last()
    }
}

/// Returns the sum of the amounts of all tokens generated
pub fn compute_sum_total(tokens: &Vec<u64>) -> (total: u64)
    requires
        sum_amounts(tokens@) <= u64::MAX,
    ensures
        total == sum_amounts(tokens@),
{
    let mut total: u64 = 0;
    let mut i: usize = 0;
    while i < tokens.len()
        invariant
            i <= tokens.len(),
            sum_amounts(tokens@) <= u64::MAX,
            total == sum_amounts(tokens@.take(i as int)),
        decreases tokens.len() - i,
    {
        proof {
            assert(tokens@.take(i + 1).drop_last() =~= tokens@.take(i as int));
            lemma_sum_prefix_bounded(tokens@, i + 1);
        }
        total = total + tokens[i];
        i = i + 1;
    }
    assert(tokens@.take(tokens.len() as int) =~= tokens@);
    total
}

/// The sum of the amounts, or `None` when it does not fit in a `u64`.
pub fn checked_sum_total(tokens: &Vec<u64>) -> (res: Option<u64>)
    ensures
        match res {
            Some(total) => total == sum_amounts(tokens@),
            None => sum_amounts(tokens@) > u64::MAX,
        },
{
    let mut total: u64 = 0;
    let mut i: usize = 0;
    while i < tokens.len()
        invariant
            i <= tokens.len(),
            total == sum_amounts(tokens@.take(i as int)),
        decreases tokens.len() - i,
    {
        assert(tokens@.take(i + 1).drop_last() =~= tokens@.take(i as int));
        match total.checked_add(tokens[i]) {
            Some(t) => total = t,
            None => {
                proof {
                    lemma_sum_prefix_bounded(tokens@, i + 1);
                }
                return None;
            },
        }
        i = i + 1;
    }
    assert(tokens@.take(tokens.len() as int) =~= tokens@);
    Some(total)
}

/// The sum of a prefix of non-negative amounts is at most the sum of the whole.
pub proof fn lemma_sum_prefix_bounded(values: Seq<u64>, n: int)
    requires
        0 <= n <= values.len(),
    ensures
        0 <= sum_amounts(values.take(n)) <= sum_amounts(values),
    decreases values.len(),
{
    if values.len() == 0 {
        assert(values.take(n) =~= values);
    } else if n == values.len() {
        assert(values.take(n) =~= values);
        lemma_sum_nonnegative(values);
    } else {
        assert(values.drop_last().take(n) =~= values.take(n));
        lemma_sum_prefix_bounded(values.drop_last(), n);
    }
}

/// The sum of two lists one after the other is the sum of their sums.
pub proof fn lemma_sum_concat(a: Seq<u64>, b: Seq<u64>)
    ensures
        sum_amounts(a + b) == sum_amounts(a) + sum_amounts(b),
    decreases b.len(),
{
    if b.len() == 0 {
        assert(a + b =~= a);
    } else {
        assert((a + b).drop_last() =~= a + b.drop_last());
        assert((a + b).last() == b.last());
        lemma_sum_concat(a, b.drop_last());
    }
}

/// Reordering amounts does not change their sum: two lists holding the same
/// amounts, as often each, have the same sum.
pub proof fn lemma_sum_permutation(a: Seq<u64>, p: Seq<u64>)
    requires
        a.to_multiset() == p.to_multiset(),
    ensures
        sum_amounts(a) == sum_amounts(p),
    decreases a.len(),
{
    broadcast use vstd::seq_lib::group_to_multiset_ensures;

    if a.len() == 0 {
        assert(p.to_multiset().len() == 0);
        assert(p.len() == 0);
    } else {
        let x = a.last();
        assert(a =~= a.drop_last().push(x));
        assert(p.to_multiset().count(x) > 0);
        assert(p.contains(x));
        let k = choose|k: int| 0 <= k < p.len() && p[k] == x;
        let rest = p.remove(k);
        assert(rest.to_multiset() =~= a.drop_last().to_multiset());
        lemma_sum_permutation(a.drop_last(), rest);
        assert(p =~= p.take(k) + (seq![x] + p.skip(k + 1)));
        assert(rest =~= p.take(k) + p.skip(k + 1));
        lemma_sum_concat(p.take(k), seq![x] + p.skip(k + 1));
        lemma_sum_concat(seq![x], p.skip(k + 1));
        lemma_sum_concat(p.take(k), p.skip(k + 1));
        assert(seq![x].drop_last() =~= Seq::<u64>::empty());
        assert(sum_amounts(Seq::<u64>::empty()) == 0);
        assert(sum_amounts(seq![x]) == sum_amounts(seq![x].drop_last()) + seq![x].last());
        assert(sum_amounts(seq![x]) == x);
        assert(sum_amounts(p) == sum_amounts(p.take(k)) + x + sum_amounts(p.skip(k + 1)));
        assert(sum_amounts(rest) == sum_amounts(p.take(k)) + sum_amounts(p.skip(k + 1)));
        assert(sum_amounts(a) == sum_amounts(a.drop_last()) + x);
    }
}

/// A sum of amounts is never negative.
pub proof fn lemma_sum_nonnegative(values: Seq<u64>)
    ensures
        sum_amounts(values) >= 0,
    decreases values.len(),
{
    if values.len() > 0 {
        lemma_sum_nonnegative(values.drop_last());
    }
}

/// The amount flags as given on the command line.
#[derive(Clone, Copy, Debug, Default, PartialEq, Eq, Structural)]
pub struct AmountArgs {
    /// Fixed amount (in sats) for every token
    pub fixed_amount: Option<u64>,
    /// Lower bound for random payouts
    pub lower_bound: Option<u64>,
    /// Upper bound for random payouts
    pub upper_bound: Option<u64>,
}

/// Why a combination of amount flags is refused.
#[derive(Clone, Copy, Debug, PartialEq, Eq, Structural)]
pub enum AmountError {
    /// `--fixed-amount` was zero.
    FixedAmountZero,
    /// `--fixed-amount` was given together with a bound.
    FixedWithBounds,
    /// A bound was zero.
    ZeroBound,
    /// The upper bound lies below the lower bound.
    UpperBelowLower,
    /// Only one of the two bounds was given.
    MissingBound,
}

impl AmountError {
    /// The message shown to the user for this error.
    pub fn message(&self) -> (msg: &'static str)
        ensures
            msg@ == amount_error_text(*self),
    {
        proof {
            reveal_strlit("--fixed-amount must be greater than zero");
            reveal_strlit(
                "Provide either --fixed-amount or (--lower-bound AND --upper-bound), not both",
            );
            reveal_strlit("Bounds must be greater than zero");
            reveal_strlit("--upper-bound must be greater than or equal to --lower-bound");
            reveal_strlit("Specify both --lower-bound and --upper-bound for ranged payouts");
        }
        match self {
            AmountError::FixedAmountZero => "--fixed-amount must be greater than zero",
            AmountError::FixedWithBounds =>
                "Provide either --fixed-amount or (--lower-bound AND --upper-bound), not both",
            AmountError::ZeroBound => "Bounds must be greater than zero",
            AmountError::UpperBelowLower =>
                "--upper-bound must be greater than or equal to --lower-bound",
            AmountError::MissingBound =>
                "Specify both --lower-bound and --upper-bound for ranged payouts",
        }
    }
}

/// The message shown for an amount error.
pub open spec fn amount_error_text(e: AmountError) -> Seq<char> {
    match e {
        AmountError::FixedAmountZero => "--fixed-amount must be greater than zero"@,
        AmountError::FixedWithBounds =>
            "Provide either --fixed-amount or (--lower-bound AND --upper-bound), not both"@,
        AmountError::ZeroBound => "Bounds must be greater than zero"@,
        AmountError::UpperBelowLower =>
            "--upper-bound must be greater than or equal to --lower-bound"@,
        AmountError::MissingBound =>
            "Specify both --lower-bound and --upper-bound for ranged payouts"@,
    }
}

/// What the amount flags `fixed`, `lower`, `upper` resolve to.
pub open spec fn resolve_amounts(fixed: Option<u64>, lower: Option<u64>, upper: Option<u64>) -> Result<
    AmountStrategy,
    AmountError,
> {
    match (fixed, lower, upper) {
        (Some(f), None, None) => if f == 0 {
            Err(AmountError::FixedAmountZero)
        } else {
            Ok(AmountStrategy::Fixed(f))
        },
        (Some(_), _, _) => Err(AmountError::FixedWithBounds),
        (None, Some(l), Some(u)) => if l == 0 || u == 0 {
            Err(AmountError::ZeroBound)
        } else if u < l {
            Err(AmountError::UpperBelowLower)
        } else {
            Ok(AmountStrategy::Range { lower: l, upper: u })
        },
        (None, Some(_), None) | (None, None, Some(_)) => Err(AmountError::MissingBound),
        (None, None, None) => Ok(
            AmountStrategy::Range { lower: DEFAULT_LOWER_BOUND, upper: DEFAULT_UPPER_BOUND },
        ),
    }
}

impl AmountArgs {
    /// Turn the flags into a strategy: either a positive fixed amount, or both
    /// positive bounds with `lower <= upper`, or nothing at all (the default range).
    pub fn resolve(&self) -> (res: Result<AmountStrategy, AmountError>)
        ensures
            res == resolve_amounts(self.fixed_amount, self.lower_bound, self.upper_bound),
    {
        match (self.fixed_amount, self.lower_bound, self.upper_bound) {
            (Some(fixed), None, None) => {
                if fixed == 0 {
                    return Err(AmountError::FixedAmountZero);
                }
                Ok(AmountStrategy::Fixed(fixed))
            },
            (Some(_), Some(_), _) | (Some(_), _, Some(_)) => Err(AmountError::FixedWithBounds),
            (None, Some(lower), Some(upper)) => {
                if lower == 0 || upper == 0 {
                    return Err(AmountError::ZeroBound);
                }
                if upper < lower {
                    return Err(AmountError::UpperBelowLower);
                }
                Ok(AmountStrategy::Range { lower, upper })
            },
            (None, Some(_), None) | (None, None, Some(_)) => Err(AmountError::MissingBound),
            (None, None, None) => Ok(
                AmountStrategy::Range { lower: DEFAULT_LOWER_BOUND, upper: DEFAULT_UPPER_BOUND },
            ),
        }
    }
}

/// Every strategy that the amount flags resolve to pays a positive amount per
/// token and can be sampled: a fixed amount above zero, or a non-empty range
/// whose bounds are both above zero.
pub proof fn lemma_resolved_strategy_is_valid(fixed: Option<u64>, lower: Option<u64>, upper: Option<u64>)
    requires
        resolve_amounts(fixed, lower, upper) is Ok,
    ensures
        resolve_amounts(fixed, lower, upper)->Ok_0.is_sampleable(),
        forall|v: u64| #[trigger] resolve_amounts(fixed, lower, upper)->Ok_0.admits(v) ==> v > 0,
{
}

} // verus!
