use vstd::prelude::*;

use crate::key::{keys_of, strictly_increasing, StepIndex};
use crate::projection::{
    clip, entry, holds_entries, int_values, integral, integral_upto, mass, new_upper, projection,
    total_below, Ratio, ValueType,
};
use crate::series::{interval_from, lemma_interval_from, lookup, DataSeries, InvalidAccessPolicy};

verus! {

/// Searching from `i` finds the same interval as searching from `t`, when
/// no interval before `t` can hold `q`.
proof fn lemma_search_skips(k: Seq<int>, q: int, i: int, t: int)
    requires
        strictly_increasing(k),
        0 <= i <= t,
        t < k.len(),
        k[t] <= q,
    ensures
        interval_from(k, q, i) == interval_from(k, q, t),
    decreases t - i,
{
    if i < t {
        assert(k[i + 1] <= k[t]);
        lemma_search_skips(k, q, i + 1, t);
    }
}

/// No interval holds a query outside `[k[0], k.last())`.
proof fn lemma_search_misses(k: Seq<int>, q: int, i: int)
    requires
        strictly_increasing(k),
        0 <= i,
        k.len() >= 1,
        q < k[0] || q >= k.last(),
    ensures
        interval_from(k, q, i).is_none(),
    decreases k.len() - i,
{
    if i + 1 < k.len() {
        assert(k[0] <= k[i]);
        assert(k[i + 1] <= k.last());
        lemma_search_misses(k, q, i + 1);
    }
}

/// A lookup anywhere in `[index[t], index[t + 1])` answers with the value
/// pushed at `index[t]`, whatever the policy.
pub proof fn lemma_lookup_within_interval<I: StepIndex, V>(s: DataSeries<I, V>, q: int, t: int)
    requires
        s.wf(),
        0 <= t,
        t + 1 < s.keys().len(),
        s.keys()[t] <= q < s.keys()[t + 1],
    ensures
        lookup(s.keys(), s.policy(), q) == Some(t),
{
    lemma_search_skips(s.keys(), q, 0, t);
}

/// A lookup at the last index point answers with the last value.
pub proof fn lemma_lookup_at_last_point<I: StepIndex, V>(s: DataSeries<I, V>)
    requires
        s.wf(),
        s.keys().len() >= 1,
    ensures
        lookup(s.keys(), s.policy(), s.keys().last()) == Some(s.keys().len() - 1),
{
    lemma_search_misses(s.keys(), s.keys().last(), 0);
}

/// Outside the domain, `ReturnClosest` answers below the first index point
/// with the first value and above the last with the last value, and
/// `ReturnNone` answers with nothing.
pub proof fn lemma_lookup_outside_domain<I: StepIndex, V>(s: DataSeries<I, V>, q: int)
    requires
        s.wf(),
        s.keys().len() >= 1,
        q < s.keys()[0] || q > s.keys().last(),
    ensures
        s.policy() == InvalidAccessPolicy::ReturnClosest && q < s.keys()[0] ==> lookup(
            s.keys(),
            s.policy(),
            q,
        ) == Some(0int),
        s.policy() == InvalidAccessPolicy::ReturnClosest && q > s.keys().last() ==> lookup(
            s.keys(),
            s.policy(),
            q,
        ) == Some(s.keys().len() - 1),
        s.policy() == InvalidAccessPolicy::ReturnNone ==> lookup(s.keys(), s.policy(), q).is_none(),
{
    let k = s.keys();
    lemma_search_misses(k, q, 0);
    assert(k[0] <= k.last());
}

/// Integral of the step function over its first `t` whole intervals.
spec fn weighted_below(k: Seq<int>, v: Seq<int>, t: int) -> int
    decreases t,
{
    if t <= 0 {
        0
    } else {
        weighted_below(k, v, t - 1) + v[t - 1] * (k[t] - k[t - 1])
    }
}

/// The integral up to an index point covers exactly the intervals below it.
proof fn lemma_integral_at_point(k: Seq<int>, v: Seq<int>, j: int, t: int)
    requires
        strictly_increasing(k),
        0 <= j < k.len(),
        0 <= t < k.len(),
    ensures
        integral_upto(k, v, k[j], t) == weighted_below(k, v, if t < j {
            t
        } else {
            j
        }),
    decreases t,
{
    if t > 0 {
        lemma_integral_at_point(k, v, j, t - 1);
        if t - 1 < j {
            assert(k[t] <= k[j]);
            assert(clip(k, t - 1, k[j]) == k[t] - k[t - 1]);
        } else {
            assert(k[j] <= k[t - 1]);
            assert(clip(k, t - 1, k[j]) == 0);
        }
    }
}

/// Entries that an intensive series projected onto its own index points
/// yields from the first `j` of them.
proof fn lemma_identity_prefix(k: Seq<int>, v: Seq<int>, j: int)
    requires
        strictly_increasing(k),
        k.len() == v.len(),
        k.len() >= 2,
        0 <= j <= k.len() - 1,
    ensures
        projection(k, v, k, ValueType::NonCountable, j).len() == j,
        forall|t: int|
            0 <= t < j ==> #[trigger] projection(k, v, k, ValueType::NonCountable, j)[t] == (
                t,
                v[t] * (k[t + 1] - k[t]),
                k[t + 1] - k[t],
            ),
    decreases j,
{
    if j > 0 {
        let i = j - 1;
        lemma_identity_prefix(k, v, i);
        let n = k.len();
        assert(new_upper(k, k, i) == Some(k[i + 1]));
        assert(k[0] < k[i + 1] && k[i] < k.last()) by {
            assert(k[0] <= k[i]);
            assert(k[i + 1] <= k.last());
        }
        lemma_integral_at_point(k, v, i, n - 1);
        lemma_integral_at_point(k, v, i + 1, n - 1);
        assert(integral(k, v, k[i + 1]) - integral(k, v, k[i]) == v[i] * (k[i + 1] - k[i]));
        assert(entry(k, v, k, ValueType::NonCountable, i) == Some(
            (i, v[i] * (k[i + 1] - k[i]), k[i + 1] - k[i]),
        ));
    }
}

/// Entries of an intensive series projected onto its own keys.
proof fn lemma_non_countable_identity(k: Seq<int>, v: Seq<int>)
    requires
        strictly_increasing(k),
        k.len() == v.len(),
        k.len() >= 2,
    ensures
        ({
            let e = projection(k, v, k, ValueType::NonCountable, k.len() as int);
            &&& e.len() == k.len() - 1
            &&& forall|t: int|
                0 <= t < e.len() ==> {
                    &&& #[trigger] e[t].0 == t
                    &&& e[t].2 > 0
                    &&& e[t].1 == v[t] * e[t].2
                }
        }),
{
    let n = k.len() as int;
    lemma_identity_prefix(k, v, n - 1);
    lemma_search_misses(k, k.last(), 0);
    assert(new_upper(k, k, n - 1).is_none());
    assert(projection(k, v, k, ValueType::NonCountable, n) == projection(
        k,
        v,
        k,
        ValueType::NonCountable,
        n - 1,
    ));
    let e = projection(k, v, k, ValueType::NonCountable, n);
    assert forall|t: int| 0 <= t < e.len() implies {
        &&& #[trigger] e[t].0 == t
        &&& e[t].2 > 0
        &&& e[t].1 == v[t] * e[t].2
    } by {
        assert(k[t] < k[t + 1]);
    }
}

/// Sum, as a fraction `(num, den)`, of the fractions that the entries carry.
spec fn entry_sum(e: Seq<(int, int, int)>) -> (int, int)
    decreases e.len(),
{
    if e.len() == 0 {
        (0, 1)
    } else {
        let s = entry_sum(e.drop_last());
        (s.0 * e.last().2 + e.last().1 * s.1, s.1 * e.last().2)
    }
}

proof fn lemma_mass_den_positive(k: Seq<int>, v: Seq<int>, x: int)
    requires
        strictly_increasing(k),
    ensures
        mass(k, v, x).1 > 0,
{
    lemma_interval_from(k, x, 0);
}

proof fn lemma_add_difference(s0: int, s1: int, a0: int, a1: int, b0: int, b1: int)
    requires
        s1 > 0,
        a1 > 0,
        b1 > 0,
        s0 * a1 == a0 * s1,
    ensures
        (s0 * (a1 * b1) + (b0 * a1 - a0 * b1) * s1) * b1 == b0 * (s1 * (a1 * b1)),
        s1 * (a1 * b1) > 0,
{
    assert(s1 * (a1 * b1) > 0) by (nonlinear_arith)
        requires
            s1 > 0,
            a1 > 0,
            b1 > 0,
    ;
    assert(s0 * (a1 * b1) * b1 == a0 * s1 * b1 * b1) by (nonlinear_arith)
        requires
            s0 * a1 == a0 * s1,
    ;
    assert((s0 * (a1 * b1) + (b0 * a1 - a0 * b1) * s1) * b1 == s0 * (a1 * b1) * b1 + b0 * a1
        * s1 * b1 - a0 * b1 * s1 * b1) by (nonlinear_arith);
    assert(b0 * (s1 * (a1 * b1)) == b0 * a1 * s1 * b1) by (nonlinear_arith);
    assert(a0 * s1 * b1 * b1 == a0 * b1 * s1 * b1) by (nonlinear_arith);
}

/// The first `j` breakpoints of a grid that spans the domain each yield
/// an entry, and together they carry the mass below breakpoint `j`.
proof fn lemma_conservation_prefix(k: Seq<int>, v: Seq<int>, bp: Seq<int>, j: int)
    requires
        strictly_increasing(k),
        k.len() == v.len(),
        k.len() >= 2,
        strictly_increasing(bp),
        bp.len() >= 2,
        bp[0] == k[0],
        bp.last() == k.last(),
        0 <= j <= bp.len() - 1,
    ensures
        projection(k, v, bp, ValueType::Countable, j).len() == j,
        entry_sum(projection(k, v, bp, ValueType::Countable, j)).1 > 0,
        entry_sum(projection(k, v, bp, ValueType::Countable, j)).0 * mass(k, v, bp[j]).1 == mass(
            k,
            v,
            bp[j],
        ).0 * entry_sum(projection(k, v, bp, ValueType::Countable, j)).1,
    decreases j,
{
    if j == 0 {
        assert(interval_from(k, k[0], 0) == Some(0int));
        assert(v[0] * (k[0] - k[0]) == 0);
        assert(mass(k, v, bp[0]).0 == 0);
        assert(projection(k, v, bp, ValueType::Countable, 0).len() == 0);
    } else {
        let i = j - 1;
        lemma_conservation_prefix(k, v, bp, i);
        let m = bp.len();
        assert(new_upper(k, bp, i) == Some(bp[i + 1]));
        assert(k[0] < bp[i + 1] && bp[i] < k.last()) by {
            assert(bp[0] < bp[i + 1]);
            assert(bp[i] < bp[m - 1]);
        }
        let before = projection(k, v, bp, ValueType::Countable, i);
        let ma = mass(k, v, bp[i]);
        let mb = mass(k, v, bp[i + 1]);
        let e = (i, mb.0 * ma.1 - ma.0 * mb.1, ma.1 * mb.1);
        assert(entry(k, v, bp, ValueType::Countable, i) == Some(e));
        let after = projection(k, v, bp, ValueType::Countable, j);
        assert(after == before.push(e));
        assert(after.drop_last() =~= before);
        lemma_mass_den_positive(k, v, bp[i]);
        lemma_mass_den_positive(k, v, bp[i + 1]);
        let s = entry_sum(before);
        lemma_add_difference(s.0, s.1, ma.0, ma.1, mb.0, mb.1);
        assert(after.last() == e);
        assert(entry_sum(after) == (s.0 * e.2 + e.1 * s.1, s.1 * e.2));
    }
}

/// Fraction sum of the entries of an extensive series projected onto a
/// grid that spans its domain.
proof fn lemma_countable_conservation(k: Seq<int>, v: Seq<int>, bp: Seq<int>)
    requires
        strictly_increasing(k),
        k.len() == v.len(),
        k.len() >= 2,
        strictly_increasing(bp),
        bp.len() >= 2,
        bp[0] == k[0],
        bp.last() == k.last(),
    ensures
        ({
            let s = entry_sum(projection(k, v, bp, ValueType::Countable, bp.len() as int));
            &&& s.1 > 0
            &&& s.0 == total_below(v, k.len() - 1) * s.1
        }),
{
    let m = bp.len() as int;
    lemma_conservation_prefix(k, v, bp, m - 1);
    lemma_search_misses(k, k.last(), 0);
    assert(new_upper(k, bp, m - 1).is_none());
    assert(projection(k, v, bp, ValueType::Countable, m) == projection(
        k,
        v,
        bp,
        ValueType::Countable,
        m - 1,
    ));
    assert(mass(k, v, k.last()) == (total_below(v, k.len() - 1), 1int));
}

/// Sum, as a fraction `(num, den)`, of a sequence of fractions.
pub open spec fn ratio_sum(r: Seq<Ratio>) -> (int, int)
    decreases r.len(),
{
    if r.len() == 0 {
        (0, 1)
    } else {
        let s = ratio_sum(r.drop_last());
        (s.0 * r.last().den + r.last().num * s.1, s.1 * r.last().den)
    }
}

proof fn lemma_sums_agree(r: Seq<Ratio>, e: Seq<(int, int, int)>)
    requires
        r.len() == e.len(),
        forall|t: int| 0 <= t < e.len() ==> r[t].num == e[t].1 && r[t].den == e[t].2,
    ensures
        ratio_sum(r) == entry_sum(e),
    decreases r.len(),
{
    if r.len() > 0 {
        let n = r.len() - 1;
        assert(r[n].num == e[n].1 && r[n].den == e[n].2);
        lemma_sums_agree(r.drop_last(), e.drop_last());
    }
}

/// Projecting an extensive series onto breakpoints that start and end where
/// its domain does keeps its total: the values of the projected series add
/// up to the sum of the values of the old intervals.
pub proof fn lemma_countable_keeps_total<I: StepIndex>(
    s: DataSeries<I, i32>,
    index_new: Seq<I>,
    r: DataSeries<I, Ratio>,
)
    requires
        s.wf(),
        s.keys().len() >= 2,
        strictly_increasing(keys_of(index_new)),
        index_new.len() >= 2,
        keys_of(index_new)[0] == s.keys()[0],
        keys_of(index_new).last() == s.keys().last(),
        holds_entries(
            r,
            index_new,
            projection(
                s.keys(),
                int_values(s.vals()),
                keys_of(index_new),
                ValueType::Countable,
                index_new.len() as int,
            ),
        ),
    ensures
        ratio_sum(r.vals()).1 > 0,
        ratio_sum(r.vals()).0 == total_below(int_values(s.vals()), s.keys().len() - 1) * ratio_sum(
            r.vals(),
        ).1,
{
    let k = s.keys();
    let v = int_values(s.vals());
    let bp = keys_of(index_new);
    lemma_countable_conservation(k, v, bp);
    let e = projection(k, v, bp, ValueType::Countable, bp.len() as int);
    assert forall|t: int| 0 <= t < e.len() implies r.vals()[t].num == e[t].1 && r.vals()[t].den
        == e[t].2 by {
        assert(r.points()[t] == index_new[e[t].0]);
    }
    lemma_sums_agree(r.vals(), e);
}

/// Projecting an intensive series onto its own index points gives back its
/// values: the same index points but the last (which starts no interval),
/// each carrying a fraction equal to the value pushed there.
pub proof fn lemma_non_countable_keeps_values<I: StepIndex>(
    s: DataSeries<I, i32>,
    r: DataSeries<I, Ratio>,
)
    requires
        s.wf(),
        s.keys().len() >= 2,
        holds_entries(
            r,
            s.points(),
            projection(
                s.keys(),
                int_values(s.vals()),
                s.keys(),
                ValueType::NonCountable,
                s.keys().len() as int,
            ),
        ),
    ensures
        r.points() == s.points().take(s.keys().len() - 1),
        forall|t: int|
            0 <= t < r.vals().len() ==> r.vals()[t].den > 0 && r.vals()[t].num == s.vals()[t]
                * r.vals()[t].den,
{
    let k = s.keys();
    let v = int_values(s.vals());
    lemma_non_countable_identity(k, v);
    let e = projection(k, v, k, ValueType::NonCountable, k.len() as int);
    assert forall|t: int| 0 <= t < r.vals().len() implies r.vals()[t].den > 0
        && r.vals()[t].num == s.vals()[t] * r.vals()[t].den by {
        assert(e[t].0 == t);
        assert(r.points()[t] == s.points()[e[t].0]);
        assert(v[t] == s.vals()[t]);
    }
    assert forall|t: int| 0 <= t < r.points().len() implies r.points()[t] == s.points().take(
        s.keys().len() - 1,
    )[t] by {
        assert(e[t].0 == t);
    }
    assert(r.points() =~= s.points().take(s.keys().len() - 1));
}

} // verus!
