//! Dice rolls.
//!
//! A [`Roll`] is the outcome of rolling `m` dice of `n` sides: the ordered
//! individual results and their total, which always agree. The keep filters
//! sort the results and drop dice from the low end of the kept order,
//! collapsing the roll to a plain integer total.

use vstd::prelude::*;
use vstd::relations::sorted_by;
use vstd::relations::total_ordering;
use vstd::seq_lib::lemma_sorted_unique;

use crate::error::RollError;
use crate::token::Token;

verus! {

/// The sum of a sequence of results, as an unbounded integer.
pub open spec fn sum(s: Seq<i32>) -> int
    decreases s.len(),
{
    if s.len() == 0 {
        0
    } else {
        sum(s.drop_last()) + s.last()
    }
}

/// The order the keep filters sort by: descending when keeping the highest,
/// ascending when keeping the lowest.
pub open spec fn keep_order(desc: bool) -> spec_fn(i32, i32) -> bool {
    if desc {
        |a: i32, b: i32| a >= b
    } else {
        |a: i32, b: i32| a <= b
    }
}

/// The outcome of one roll of `m` dice of `n` sides: one result per die,
/// each between 1 and `n`, and the total agreeing with the results.
pub open spec fn dice_outcome(m: int, n: int, roll: Roll) -> bool {
    &&& roll.wf()
    &&& roll.spec_rolls().len() == m
    &&& forall|j: int| 0 <= j < m ==> 1 <= #[trigger] roll.spec_rolls()[j] <= n
}

/// The outcome of rolling some dice.
#[derive(Clone, Debug)]
pub struct Roll {
    total: i32,
    rolls: Vec<i32>,
}

impl Roll {
    /// The total, for contracts.
    pub closed spec fn spec_total(self) -> int {
        self.total as int
    }

    /// The individual results, in rolled order, for contracts.
    pub closed spec fn spec_rolls(self) -> Seq<i32> {
        self.rolls@
    }

    /// Every roll the engine hands out keeps this shape: at least one die,
    /// every result at least 1, and the total equal to the sum of the
    /// results.
    pub open spec fn wf(self) -> bool {
        &&& self.spec_rolls().len() > 0
        &&& forall|j: int| 0 <= j < self.spec_rolls().len() ==> #[trigger] self.spec_rolls()[j] >= 1
        &&& self.spec_total() == sum(self.spec_rolls())
    }

    /// The sum of all individual results.
    pub fn total(&self) -> (t: i32)
        ensures
            t == self.spec_total(),
    {
        self.total
    }

    /// The individual results, in the order they were rolled.
    pub fn results(&self) -> (r: &Vec<i32>)
        ensures
            r@ == self.spec_rolls(),
    {
        &self.rolls
    }

    /// A roll with the given individual results, for reproducible use: the
    /// results must be at least 1 each, at least one, and their sum must fit
    /// the integer range.
    pub fn from_results(rolls: Vec<i32>) -> (r: Option<Roll>)
        ensures
            match r {
                Some(roll) => roll.wf() && roll.spec_rolls() == rolls@,
                None => rolls@.len() == 0 || (exists|j: int|
                    0 <= j < rolls@.len() && #[trigger] rolls@[j] < 1) || sum(rolls@) > i32::MAX,
            },
    {
        if rolls.len() == 0 {
            return None;
        }
        let mut total: i32 = 0;
        let mut i: usize = 0;
        while i < rolls.len()
        invariant
            i <= rolls@.len(),
            forall|j: int| 0 <= j < i ==> #[trigger] rolls@[j] >= 1,
            total == sum(rolls@.take(i as int)),
            total >= 0,
        decreases rolls@.len() - i,
        {
            let x = rolls[i];
            if x < 1 {
                return None;
            }
            let next = match total.checked_add(x) {
                Some(t) => t,
                None => {
                    proof {
                        assert(rolls@.take(i + 1).drop_last() =~= rolls@.take(i as int));
                        if forall|j: int| 0 <= j < rolls@.len() ==> #[trigger] rolls@[j] >= 1 {
                            lemma_take_sum_bound(rolls@, i + 1);
                        }
                    }
                    return None;
                },
            };
            proof {
                assert(rolls@.take(i + 1).drop_last() =~= rolls@.take(i as int));
            }
            total = next;
            i = i + 1;
        }
        proof {
            assert(rolls@.take(rolls@.len() as int) =~= rolls@);
        }
        Some(Roll { total, rolls })
    }

    /// Rolls `m` dice of `n` sides. Both counts must be positive, or the
    /// call is `InvalidRollParameters`; a total beyond the integer range is
    /// `Overflow`, which cannot happen unless `m * n` exceeds it.
    pub fn mdn(m: i32, n: i32) -> (r: Result<Roll, RollError>)
        ensures
            (m <= 0 || n <= 0) <==> r == Err::<Roll, RollError>(RollError::InvalidRollParameters),
            r matches Ok(roll) ==> dice_outcome(m as int, n as int, roll),
            r == Err::<Roll, RollError>(RollError::Overflow) ==> m > 0 && n > 0 && m * n
                > i32::MAX,
            r is Err ==> r == Err::<Roll, RollError>(RollError::InvalidRollParameters) || r
                == Err::<Roll, RollError>(RollError::Overflow),
            m > 0 && n > 0 && m * n <= i32::MAX ==> r is Ok,
    {
        if m <= 0 || n <= 0 {
            return Err(RollError::InvalidRollParameters);
        }

        let mut total: i32 = 0;
        let mut rolls: Vec<i32> = Vec::new();

        let mut i: i32 = 0;
        while i < m
            invariant
                0 < m,
                0 < n,
                0 <= i <= m,
                rolls@.len() == i,
                forall|j: int| 0 <= j < i ==> 1 <= #[trigger] rolls@[j] <= n,
                total == sum(rolls@),
                total <= i * n,
                0 <= total,
            decreases m - i,
        {
            let die = roll_die(n);
            let next = match total.checked_add(die) {
                Some(t) => t,
                None => {
                    proof {
                        assert((i + 1) * n <= m * n && i * n + n == (i + 1) * n)
                            by (nonlinear_arith)
                            requires
                                0 <= i < m,
                                0 < n,
                        ;
                    }
                    return Err(RollError::Overflow);
                },
            };
            proof {
                assert(rolls@.push(die).drop_last() =~= rolls@);
                assert((i + 1) * n <= m * n && i * n + n == (i + 1) * n)
                    by (nonlinear_arith)
                    requires
                        0 <= i < m,
                        0 < n,
                ;
            }
            total = next;
            rolls.push(die);
            i = i + 1;
        }

        Ok(Roll { total, rolls })
    }

    /// Keeps the `n` highest results: sorts descending, then drops dice from
    /// the end while more than `n` remain, lowering the total with each.
    /// Returns the remaining total as a plain integer token.
    pub fn keep_highest(&mut self, n: usize) -> (t: Token)
        requires
            old(self).wf(),
        ensures
            final(self).spec_rolls() == kept_results(old(self).spec_rolls(), n as int, true),
            final(self).spec_total() == sum(final(self).spec_rolls()),
            t == Token::Int(final(self).spec_total() as i32),
            0 <= final(self).spec_total() <= old(self).spec_total(),
    {
        self.keep(n, true)
    }

    /// Keeps the `n` lowest results: the mirror of [`Roll::keep_highest`],
    /// sorting ascending instead.
    pub fn keep_lowest(&mut self, n: usize) -> (t: Token)
        requires
            old(self).wf(),
        ensures
            final(self).spec_rolls() == kept_results(old(self).spec_rolls(), n as int, false),
            final(self).spec_total() == sum(final(self).spec_rolls()),
            t == Token::Int(final(self).spec_total() as i32),
            0 <= final(self).spec_total() <= old(self).spec_total(),
    {
        self.keep(n, false)
    }

    /// The shared body of the keep filters.
    fn keep(&mut self, n: usize, desc: bool) -> (t: Token)
        requires
            old(self).wf(),
        ensures
            final(self).spec_rolls() == kept_results(old(self).spec_rolls(), n as int, desc),
            final(self).spec_total() == sum(final(self).spec_rolls()),
            t == Token::Int(final(self).spec_total() as i32),
            0 <= final(self).spec_total() <= old(self).spec_total(),
    {
        let ghost orig = self.rolls@;
        sort_rolls(&mut self.rolls, desc);
        proof {
            lemma_keep_order_total(desc);
            orig.lemma_sort_by_ensures(keep_order(desc));
            lemma_sorted_unique(self.rolls@, orig.sort_by(keep_order(desc)), keep_order(desc));
            lemma_sum_permutation(self.rolls@, orig);
            lemma_sum_lower(orig);
            assert forall|j: int| 0 <= j < self.rolls@.len() implies #[trigger] self.rolls@[j]
                >= 1 by {
                broadcast use vstd::seq_lib::to_multiset_contains;

                assert(self.rolls@.to_multiset().count(self.rolls@[j]) > 0);
                assert(orig.contains(self.rolls@[j]));
            }
        }
        let ghost sorted = self.rolls@;
        proof {
            assert(self.rolls@ =~= sorted.take(self.rolls@.len() as int));
        }
        while self.rolls.len() > n
            invariant
                self.rolls@.len() <= sorted.len(),
                self.rolls@ == sorted.take(self.rolls@.len() as int),
                self.rolls@.len() >= n || self.rolls@ == sorted,
                forall|j: int| 0 <= j < sorted.len() ==> #[trigger] sorted[j] >= 1,
                self.total == sum(self.rolls@),
                0 <= self.total <= old(self).spec_total(),
            decreases self.rolls@.len(),
        {
            let ghost cur = self.rolls@;
            if let Some(roll) = self.rolls.pop() {
                proof {
                    assert(cur =~= sorted.take(cur.len() as int));
                    assert(cur.subrange(0, cur.len() - 1) =~= cur.drop_last());
                    assert(cur.drop_last() =~= sorted.take(cur.len() - 1));
                    assert forall|j: int| 0 <= j < cur.drop_last().len()
                        implies #[trigger] cur.drop_last()[j] >= 1 by {
                        assert(cur.drop_last()[j] == sorted[j]);
                    }
                    lemma_sum_lower(cur.drop_last());
                }
                self.total = self.total - roll;
            }
        }
        proof {
            assert(sorted.take(sorted.len() as int) =~= sorted);
        }
        Token::Int(self.total)
    }
}

/// What a keep filter leaves: the results sorted by the keep order, cut to
/// the first `n` (all of them when fewer were rolled).
pub open spec fn kept_results(results: Seq<i32>, n: int, desc: bool) -> Seq<i32> {
    let sorted = results.sort_by(keep_order(desc));
    if n < sorted.len() {
        sorted.take(n)
    } else {
        sorted
    }
}

/// What a keep filter keeps: exactly `n` of the original results when `n`
/// of them are there (all of them otherwise), drawn from the original
/// results without invention or repetition, and each kept result standing
/// before every dropped one in the keep order: the `n` highest, or the `n`
/// lowest.
pub proof fn lemma_kept_are_among_results(results: Seq<i32>, n: int, desc: bool)
    requires
        0 <= n,
    ensures
        kept_results(results, n, desc).len() == if n < results.len() {
            n
        } else {
            results.len() as int
        },
        forall|x: i32|
            #[trigger] kept_results(results, n, desc).to_multiset().count(x)
                <= results.to_multiset().count(x),
        forall|i: int, j: int|
            0 <= i < kept_results(results, n, desc).len() && kept_results(results, n, desc).len()
                <= j < results.len() ==> keep_order(desc)(
                kept_results(results, n, desc)[i],
                results.sort_by(keep_order(desc))[j],
            ),
{
    broadcast use vstd::multiset::group_multiset_axioms;

    lemma_keep_order_total(desc);
    results.lemma_sort_by_ensures(keep_order(desc));
    let sorted = results.sort_by(keep_order(desc));
    let kept = kept_results(results, n, desc);
    assert(sorted.to_multiset() == results.to_multiset());
    vstd::seq_lib::to_multiset_len(sorted);
    vstd::seq_lib::to_multiset_len(results);
    assert(sorted.len() == results.len());
    if n < results.len() {
        assert(sorted =~= sorted.take(n) + sorted.skip(n));
        vstd::seq_lib::lemma_multiset_commutative(sorted.take(n), sorted.skip(n));
        assert forall|x: i32| #[trigger] kept.to_multiset().count(x) <= results.to_multiset().count(
            x,
        ) by {
            assert(sorted.to_multiset().count(x) == sorted.take(n).to_multiset().count(x)
                + sorted.skip(n).to_multiset().count(x));
        }
        assert forall|i: int, j: int| 0 <= i < kept.len() && kept.len() <= j < results.len() implies
            keep_order(desc)(kept[i], sorted[j]) by {
            assert(vstd::relations::sorted_by(sorted, keep_order(desc)));
            assert(kept[i] == sorted[i]);
        }
    } else {
        assert(kept == sorted);
    }
}

/// One die of `n` sides: a uniform draw brought up from the generator's
/// zero-based range.
fn roll_die(n: i32) -> (r: i32)
    requires
        n >= 1,
    ensures
        1 <= r <= n,
{
    (crate::rng::random_below(n as usize) + 1) as i32
}

/// Either keep order is a total ordering.
proof fn lemma_keep_order_total(desc: bool)
    ensures
        total_ordering(keep_order(desc)),
{
}

/// A sum of results that are at least 1 each is at least their count.
proof fn lemma_sum_lower(s: Seq<i32>)
    requires
        forall|j: int| 0 <= j < s.len() ==> #[trigger] s[j] >= 1,
    ensures
        sum(s) >= s.len(),
    decreases s.len(),
{
    if s.len() > 0 {
        assert forall|j: int| 0 <= j < s.drop_last().len() implies #[trigger] s.drop_last()[j]
            >= 1 by {
            assert(s.drop_last()[j] == s[j]);
        }
        lemma_sum_lower(s.drop_last());
    }
}

/// A sum of results each between `lo` and `hi` lies between `count * lo` and
/// `count * hi`.
pub proof fn lemma_sum_bounds(s: Seq<i32>, lo: int, hi: int)
    requires
        forall|j: int| 0 <= j < s.len() ==> lo <= #[trigger] s[j] <= hi,
    ensures
        s.len() * lo <= sum(s) <= s.len() * hi,
    decreases s.len(),
{
    if s.len() == 0 {
    } else {
        assert forall|j: int| 0 <= j < s.drop_last().len() implies lo <= #[trigger] s.drop_last()[j]
            <= hi by {
            assert(s.drop_last()[j] == s[j]);
        }
        lemma_sum_bounds(s.drop_last(), lo, hi);
        assert((s.len() - 1) * lo + lo == s.len() * lo) by (nonlinear_arith);
        assert((s.len() - 1) * hi + hi == s.len() * hi) by (nonlinear_arith);
    }
}

/// Every outcome of rolling `m` dice of `n` sides has a total between `m`
/// and `m * n`, with exactly one result per die, each between 1 and `n`.
pub proof fn lemma_roll_total_bounds(m: int, n: int, roll: Roll)
    requires
        dice_outcome(m, n, roll),
        n >= 1,
    ensures
        m <= roll.spec_total() <= m * n,
        roll.spec_rolls().len() == m,
        forall|j: int| 0 <= j < m ==> 1 <= #[trigger] roll.spec_rolls()[j] <= n,
{
    lemma_sum_bounds(roll.spec_rolls(), 1, n);
    assert(m * 1 == m) by (nonlinear_arith);
}

/// The sum of a prefix of results that are at least 1 each is no more than
/// the sum of the whole.
proof fn lemma_take_sum_bound(s: Seq<i32>, i: int)
    requires
        0 <= i <= s.len(),
        forall|j: int| 0 <= j < s.len() ==> #[trigger] s[j] >= 1,
    ensures
        sum(s.take(i)) <= sum(s),
    decreases s.len() - i,
{
    if i < s.len() {
        assert(s.take(i + 1).drop_last() =~= s.take(i));
        assert(s.take(i + 1).last() == s[i]);
        lemma_take_sum_bound(s, i + 1);
    } else {
        assert(s.take(i) =~= s);
    }
}

/// Removing one result lowers the sum by exactly that result.
proof fn lemma_sum_remove(s: Seq<i32>, i: int)
    requires
        0 <= i < s.len(),
    ensures
        sum(s.remove(i)) == sum(s) - s[i],
    decreases s.len(),
{
    if i == s.len() - 1 {
        assert(s.remove(i) =~= s.drop_last());
    } else {
        assert(s.remove(i).drop_last() =~= s.drop_last().remove(i));
        assert(s.remove(i).last() == s.last());
        lemma_sum_remove(s.drop_last(), i);
    }
}

/// Sequences with the same results in any order have the same sum.
proof fn lemma_sum_permutation(s1: Seq<i32>, s2: Seq<i32>)
    requires
        s1.to_multiset() == s2.to_multiset(),
    ensures
        sum(s1) == sum(s2),
    decreases s1.len(),
{
    broadcast use vstd::seq_lib::to_multiset_contains;
    broadcast use vstd::seq_lib::to_multiset_remove;
    broadcast use vstd::seq_lib::to_multiset_len;
    broadcast use vstd::multiset::group_multiset_axioms;

    vstd::seq_lib::to_multiset_len(s1);
    vstd::seq_lib::to_multiset_len(s2);
    if s1.len() == 0 {
        assert(s2.len() == 0);
    } else {
        let x = s1.last();
        assert(s1.contains(x));
        assert(s1.to_multiset().count(x) > 0);
        assert(s2.contains(x));
        let i = choose|i: int| 0 <= i < s2.len() && s2[i] == x;
        assert(s1.drop_last() =~= s1.remove(s1.len() - 1));
        assert(s1.remove(s1.len() - 1).to_multiset() == s1.to_multiset().remove(x));
        assert(s2.remove(i).to_multiset() == s2.to_multiset().remove(x));
        lemma_sum_permutation(s1.drop_last(), s2.remove(i));
        lemma_sum_remove(s2, i);
    }
}

/// Whether two results stand in the keep order.
fn keep_cmp(a: i32, b: i32, desc: bool) -> (r: bool)
    ensures
        r == keep_order(desc)(a, b),
{
    if desc {
        a >= b
    } else {
        a <= b
    }
}

/// Sorts results by the keep order, by insertion.
fn sort_rolls(v: &mut Vec<i32>, desc: bool)
    ensures
        final(v)@.to_multiset() == old(v)@.to_multiset(),
        final(v)@.len() == old(v)@.len(),
        sorted_by(final(v)@, keep_order(desc)),
{
    broadcast use vstd::seq_lib::to_multiset_contains;
    broadcast use vstd::seq_lib::to_multiset_remove;
    broadcast use vstd::seq_lib::to_multiset_insert;
    broadcast use vstd::multiset::group_multiset_axioms;

    let ghost orig = v@;
    let ghost leq = keep_order(desc);
    if v.len() <= 1 {
        return;
    }
    let mut i: usize = 1;
    while i < v.len()
        invariant
            1 <= i <= v@.len(),
            v@.len() == orig.len(),
            v@.to_multiset() == orig.to_multiset(),
            sorted_by(v@.take(i as int), leq),
            leq == keep_order(desc),
        decreases v@.len() - i,
    {
        let ghost before = v@;
        let x = v.remove(i);
        proof {
            assert(before.remove(i as int).take(i as int) =~= before.take(i as int));
        }
        let mut j: usize = 0;
        while j < i && keep_cmp(v[j], x, desc)
            invariant
                j <= i,
                i < before.len(),
                v@ == before.remove(i as int),
                v@.len() == before.len() - 1,
                forall|k: int| 0 <= k < j ==> #[trigger] leq(v@[k], x),
                leq == keep_order(desc),
            decreases i - j,
        {
            j = j + 1;
        }
        let ghost mid = v@;
        v.insert(j, x);
        proof {
            assert(mid == before.remove(i as int));
            vstd::seq_lib::to_multiset_remove(before, i as int);
            assert(v@ == mid.insert(j as int, x));
            vstd::seq_lib::to_multiset_insert(mid, j as int, x);
            assert(before[i as int] == x);
            assert(before.contains(x));
            vstd::seq_lib::to_multiset_contains(before, x);
            assert(before.to_multiset().count(x) > 0);
            assert(v@.to_multiset() =~= before.to_multiset());
            let p = v@.take(i + 1);
            assert(p =~= mid.take(i as int).insert(j as int, x));
            lemma_keep_order_total(desc);
            assert forall|a: int, b: int| 0 <= a < b < p.len() implies leq(p[a], p[b]) by {
                let sortedpre = mid.take(i as int);
                if a < j && b == j {
                } else if a == j && b > j {
                    assert(!leq(sortedpre[j as int], x));
                    assert(leq(x, sortedpre[j as int]));
                    assert(leq(sortedpre[j as int], sortedpre[b - 1]));
                } else if a < j && b > j {
                    assert(leq(sortedpre[a], sortedpre[b - 1]));
                } else if a > j && b > j {
                    assert(leq(sortedpre[a - 1], sortedpre[b - 1]));
                } else if a < j && b < j {
                    assert(leq(sortedpre[a], sortedpre[b]));
                } else if a == j && b == j {
                }
            }
            assert(sorted_by(p, leq));
        }
        i = i + 1;
    }
    proof {
        assert(v@.take(v@.len() as int) =~= v@);
    }
}

} // verus!
