use vstd::prelude::*;

use crate::key::{keys_of, strictly_increasing, StepIndex, KEY_MAX, KEY_MIN};
use crate::series::{interval_from, lemma_interval_from, DataSeries};

verus! {

/// Largest magnitude of a value that can be projected: it keeps every
/// exact intermediate result within `i128`.
pub const VALUE_LIMIT: i32 = 16777216;

/// How the values of a series are read when they are projected.
#[derive(Clone, Copy, Debug, PartialEq, Eq, Structural)]
pub enum ValueType {
    /// An extensive quantity (a count, a total): a part of an interval
    /// carries the same part of its value.
    Countable,
    /// An intensive quantity (a rate, a density): a new interval takes the
    /// length-weighted mean of the values that cover it.
    NonCountable,
}

/// The exact fraction `num / den`, with `den > 0`; it is not reduced.
#[derive(Clone, Copy, Debug, PartialEq, Eq, Structural)]
pub struct Ratio {
    pub num: i128,
    pub den: i128,
}

/// The values of a projectable series, as integers.
pub open spec fn int_values(s: Seq<i32>) -> Seq<int> {
    s.map_values(|x: i32| x as int)
}

/// Sum of the first `t` values.
pub open spec fn total_below(v: Seq<int>, t: int) -> int
    decreases t,
{
    if t <= 0 {
        0
    } else {
        total_below(v, t - 1) + v[t - 1]
    }
}

/// Cumulative total, as `(num, den)`, that an extensive series attributes
/// to the part of its domain below `x` when each value is spread evenly
/// over its interval.
pub open spec fn mass(k: Seq<int>, v: Seq<int>, x: int) -> (int, int) {
    match interval_from(k, x, 0) {
        Some(t) => (
            total_below(v, t) * (k[t + 1] - k[t]) + v[t] * (x - k[t]),
            k[t + 1] - k[t],
        ),
        None => if k.len() >= 1 && x >= k.last() {
            (total_below(v, k.len() - 1), 1)
        } else {
            (0, 1)
        },
    }
}

/// Length of the part of interval `i` that lies below `x`.
pub open spec fn clip(k: Seq<int>, i: int, x: int) -> int {
    if x <= k[i] {
        0
    } else if x >= k[i + 1] {
        k[i + 1] - k[i]
    } else {
        x - k[i]
    }
}

/// Integral below `x` of the step function made of the first `t` intervals.
pub open spec fn integral_upto(k: Seq<int>, v: Seq<int>, x: int, t: int) -> int
    decreases t,
{
    if t <= 0 {
        0
    } else {
        integral_upto(k, v, x, t - 1) + v[t - 1] * clip(k, t - 1, x)
    }
}

/// Integral below `x` of the step function.
pub open spec fn integral(k: Seq<int>, v: Seq<int>, x: int) -> int {
    if k.len() < 2 {
        0
    } else {
        integral_upto(k, v, x, k.len() - 1)
    }
}

/// Value, as `(num, den)`, of the new interval `[a, b)`.
pub open spec fn interval_value(k: Seq<int>, v: Seq<int>, kind: ValueType, a: int, b: int) -> (
    int,
    int,
) {
    match kind {
        ValueType::Countable => {
            let ma = mass(k, v, a);
            let mb = mass(k, v, b);
            (mb.0 * ma.1 - ma.0 * mb.1, ma.1 * mb.1)
        },
        ValueType::NonCountable => (integral(k, v, b) - integral(k, v, a), b - a),
    }
}

/// Upper end of the new interval that starts at breakpoint `j`: the next
/// breakpoint, or for the last one the end of the old interval holding
/// it; none when no old interval holds it.
pub open spec fn new_upper(k: Seq<int>, bp: Seq<int>, j: int) -> Option<int> {
    if j + 1 < bp.len() {
        Some(bp[j + 1])
    } else {
        match interval_from(k, bp[j], 0) {
            Some(t) => Some(k[t + 1]),
            None => None,
        }
    }
}

/// What breakpoint `j` contributes to a projection: its position and its
/// value, when its new interval overlaps the old domain.
pub open spec fn entry(k: Seq<int>, v: Seq<int>, bp: Seq<int>, kind: ValueType, j: int) -> Option<
    (int, int, int),
> {
    match new_upper(k, bp, j) {
        Some(b) => if k.len() >= 2 && k[0] < b && bp[j] < k.last() {
            let r = interval_value(k, v, kind, bp[j], b);
            Some((j, r.0, r.1))
        } else {
            None
        },
        None => None,
    }
}

/// Entries, as `(breakpoint position, num, den)`, that the first `j`
/// breakpoints contribute to a projection, in order.
pub open spec fn projection(k: Seq<int>, v: Seq<int>, bp: Seq<int>, kind: ValueType, j: int) -> Seq<
    (int, int, int),
>
    decreases j,
{
    if j <= 0 {
        seq![]
    } else {
        match entry(k, v, bp, kind, j - 1) {
            Some(e) => projection(k, v, bp, kind, j - 1).push(e),
            None => projection(k, v, bp, kind, j - 1),
        }
    }
}

/// The integers that a sequence of `i64` holds.
pub open spec fn wide(s: Seq<i64>) -> Seq<int> {
    s.map_values(|x: i64| x as int)
}

/// Every key lies in the range that index types map to.
pub open spec fn keys_in_range(k: Seq<int>) -> bool {
    forall|i: int| 0 <= i < k.len() ==> KEY_MIN <= #[trigger] k[i] <= KEY_MAX
}

/// Every value is at most `VALUE_LIMIT` in magnitude.
pub open spec fn values_in_range(v: Seq<int>) -> bool {
    forall|i: int| 0 <= i < v.len() ==> -VALUE_LIMIT <= #[trigger] v[i] <= VALUE_LIMIT
}

/// A series whose exact projection fits the machine integers used for it.
pub open spec fn projectable(k: Seq<int>, v: Seq<int>) -> bool {
    &&& k.len() == v.len()
    &&& strictly_increasing(k)
    &&& keys_in_range(k)
    &&& values_in_range(v)
}

proof fn lemma_mul_bound(a: int, b: int, ab: int, bb: int)
    requires
        -ab <= a <= ab,
        0 <= b <= bb,
    ensures
        -(ab * bb) <= a * b <= ab * bb,
{
    assert(-(ab * bb) <= a * b <= ab * bb) by (nonlinear_arith)
        requires
            -ab <= a <= ab,
            0 <= b <= bb,
    ;
}

/// The whole cumulative total of the first `t` values stays within the
/// bound that their keys allow.
spec fn bounded_by_span(k: Seq<int>, w: int, t: int) -> bool {
    -(VALUE_LIMIT * (k[t] - k[0])) <= w <= VALUE_LIMIT * (k[t] - k[0])
}

/// Computes `mass` at `x`.
fn mass_at(ks: &Vec<i64>, vs: &Vec<i64>, x: i64) -> (r: (i128, i128))
    requires
        projectable(wide(ks@), wide(vs@)),
        KEY_MIN <= x <= KEY_MAX,
    ensures
        r.0 as int == mass(wide(ks@), wide(vs@), x as int).0,
        r.1 as int == mass(wide(ks@), wide(vs@), x as int).1,
        -2475880078570760549798248448 <= r.0 <= 2475880078570760549798248448,
        1 <= r.1 <= 8589934592,
{
    let ghost k = wide(ks@);
    let ghost v = wide(vs@);
    let n = ks.len();
    if n == 0 {
        return (0, 1);
    }
    let mut w: i128 = 0;
    let mut t: usize = 0;
    while t + 1 < n
        invariant
            n == ks@.len(),
            k == wide(ks@),
            v == wide(vs@),
            projectable(k, v),
            t < n,
            interval_from(k, x as int, 0) == interval_from(k, x as int, t as int),
            w == total_below(v, t as int),
            bounded_by_span(k, w as int, t as int),
        decreases n - t,
    {
        assert(k[0] <= k[t as int] < k[t + 1]);
        assert(KEY_MIN <= k[0] && k[t + 1] <= KEY_MAX);
        assert(-VALUE_LIMIT <= v[t as int] <= VALUE_LIMIT);
        if ks[t] <= x && x < ks[t + 1] {
            let len = (ks[t + 1] - ks[t]) as i128;
            let off = (x - ks[t]) as i128;
            proof {
                lemma_mul_bound(w as int, len as int, 144115188075855872, 8589934592);
                lemma_mul_bound(v[t as int], off as int, VALUE_LIMIT as int, 8589934592);
            }
            return (w * len + (vs[t] as i128) * off, len);
        }
        w = w + vs[t] as i128;
        t = t + 1;
    }
    if x >= ks[n - 1] {
        (w, 1)
    } else {
        (0, 1)
    }
}

/// Computes `integral` at `x`.
fn integral_at(ks: &Vec<i64>, vs: &Vec<i64>, x: i64) -> (r: i128)
    requires
        projectable(wide(ks@), wide(vs@)),
        KEY_MIN <= x <= KEY_MAX,
    ensures
        r as int == integral(wide(ks@), wide(vs@), x as int),
        -144115188075855872 <= r <= 144115188075855872,
{
    let ghost k = wide(ks@);
    let ghost v = wide(vs@);
    let n = ks.len();
    if n < 2 {
        return 0;
    }
    let mut acc: i128 = 0;
    let mut t: usize = 0;
    while t + 1 < n
        invariant
            n == ks@.len(),
            n >= 2,
            k == wide(ks@),
            v == wide(vs@),
            projectable(k, v),
            t < n,
            acc == integral_upto(k, v, x as int, t as int),
            bounded_by_span(k, acc as int, t as int),
        decreases n - t,
    {
        assert(k[0] <= k[t as int] < k[t + 1]);
        assert(KEY_MIN <= k[0] && k[t + 1] <= KEY_MAX);
        assert(-VALUE_LIMIT <= v[t as int] <= VALUE_LIMIT);
        let lo = ks[t];
        let hi = ks[t + 1];
        let c: i64 = if x <= lo {
            0
        } else if x >= hi {
            hi - lo
        } else {
            x - lo
        };
        proof {
            lemma_mul_bound(v[t as int], c as int, VALUE_LIMIT as int, k[t + 1] - k[t as int]);
        }
        acc = acc + (vs[t] as i128) * (c as i128);
        t = t + 1;
    }
    acc
}

/// `r` holds one entry per element of `e`, in order: the breakpoint that
/// the entry names, and its value.
pub open spec fn holds_entries<I: StepIndex>(
    r: DataSeries<I, Ratio>,
    bp: Seq<I>,
    e: Seq<(int, int, int)>,
) -> bool {
    &&& r.points().len() == e.len()
    &&& r.vals().len() == e.len()
    &&& forall|t: int|
        0 <= t < e.len() ==> {
            &&& r.points()[t] == bp[#[trigger] e[t].0]
            &&& r.vals()[t].num == e[t].1
            &&& r.vals()[t].den == e[t].2
        }
}

/// Entries of a projection come in the order of their breakpoints.
proof fn lemma_projection_positions(
    k: Seq<int>,
    v: Seq<int>,
    bp: Seq<int>,
    kind: ValueType,
    j: int,
)
    ensures
        forall|t: int|
            0 <= t < projection(k, v, bp, kind, j).len() ==> 0 <= #[trigger] projection(
                k,
                v,
                bp,
                kind,
                j,
            )[t].0 < j,
        forall|s: int, t: int|
            0 <= s < t < projection(k, v, bp, kind, j).len() ==> projection(k, v, bp, kind, j)[s].0
                < projection(k, v, bp, kind, j)[t].0,
    decreases j,
{
    if j > 0 {
        lemma_projection_positions(k, v, bp, kind, j - 1);
        let p = projection(k, v, bp, kind, j - 1);
        match entry(k, v, bp, kind, j - 1) {
            Some(e) => {
                assert(e.0 == j - 1);
                assert(projection(k, v, bp, kind, j) == p.push(e));
            },
            None => {},
        }
    }
}

/// Computes `new_upper` for breakpoint `j`.
fn interval_end(ks: &Vec<i64>, bk: &Vec<i64>, j: usize) -> (r: Option<i64>)
    requires
        strictly_increasing(wide(bk@)),
        keys_in_range(wide(ks@)),
        keys_in_range(wide(bk@)),
        j < bk@.len(),
    ensures
        match new_upper(wide(ks@), wide(bk@), j as int) {
            Some(b) => r.is_some() && r.unwrap() as int == b,
            None => r.is_none(),
        },
        r.is_some() ==> KEY_MIN <= r.unwrap() <= KEY_MAX,
        r.is_some() ==> bk@[j as int] < r.unwrap(),
{
    let ghost k = wide(ks@);
    let ghost bp = wide(bk@);
    assert(k.len() == ks@.len() && bp.len() == bk@.len());
    assert(bp[j as int] == bk@[j as int] as int);
    if j < bk.len() - 1 {
        assert(bp[j as int] < bp[j + 1]);
        Some(bk[j + 1])
    } else {
        let a = bk[j];
        let n = ks.len();
        match find_interval(ks, a) {
            Some(t) => {
                proof {
                    lemma_interval_from(k, a as int, 0);
                }
                assert(t + 1 < n);
                assert(KEY_MIN <= k[t + 1] <= KEY_MAX);
                let end = ks[t + 1];
                Some(end)
            },
            None => None,
        }
    }
}

/// Keys of the given index points.
fn collect_keys<I: StepIndex>(pts: &Vec<I>) -> (r: Vec<i64>)
    ensures
        wide(r@) == keys_of(pts@),
        keys_in_range(wide(r@)),
{
    let mut r: Vec<i64> = Vec::new();
    let mut i: usize = 0;
    while i < pts.len()
        invariant
            i <= pts@.len(),
            wide(r@) == keys_of(pts@).take(i as int),
            keys_in_range(wide(r@)),
        decreases pts@.len() - i,
    {
        let x = pts[i].key_of();
        let ghost before = r@;
        r.push(x);
        assert(wide(r@) =~= wide(before).push(x as int));
        assert(keys_of(pts@).take(i + 1) =~= keys_of(pts@).take(i as int).push(x as int));
        i = i + 1;
    }
    assert(keys_of(pts@).take(i as int) =~= keys_of(pts@));
    r
}

/// The values widened to `i64`.
fn widen_values(vals: &Vec<i32>) -> (r: Vec<i64>)
    ensures
        wide(r@) == int_values(vals@),
{
    let mut r: Vec<i64> = Vec::new();
    let mut i: usize = 0;
    while i < vals.len()
        invariant
            i <= vals@.len(),
            wide(r@) == int_values(vals@).take(i as int),
        decreases vals@.len() - i,
    {
        let x = vals[i] as i64;
        let ghost before = r@;
        r.push(x);
        assert(wide(r@) =~= wide(before).push(x as int));
        assert(int_values(vals@).take(i + 1) =~= int_values(vals@).take(i as int).push(x as int));
        i = i + 1;
    }
    assert(int_values(vals@).take(i as int) =~= int_values(vals@));
    r
}

/// Position of the interval that holds `x`.
fn find_interval(ks: &Vec<i64>, x: i64) -> (r: Option<usize>)
    ensures
        match interval_from(wide(ks@), x as int, 0) {
            Some(t) => r == Some(t as usize),
            None => r.is_none(),
        },
        r.is_some() ==> interval_from(wide(ks@), x as int, 0) == Some(r.unwrap() as int),
{
    let ghost k = wide(ks@);
    let n = ks.len();
    if n == 0 {
        return None;
    }
    let mut t: usize = 0;
    while t + 1 < n
        invariant
            n == ks@.len(),
            t < n,
            k == wide(ks@),
            interval_from(k, x as int, 0) == interval_from(k, x as int, t as int),
        decreases n - t,
    {
        if ks[t] <= x && x < ks[t + 1] {
            assert(interval_from(k, x as int, t as int) == Some(t as int));
            return Some(t);
        }
        t = t + 1;
    }
    None
}

impl<I: StepIndex> DataSeries<I, i32> {
    /// Re-expresses the series on the breakpoints `index_new`. Breakpoint
    /// `j` starts the new interval `[index_new[j], index_new[j + 1])`; the
    /// last one starts an interval that ends where the old interval holding
    /// it ends, and is dropped when no old interval holds it. Each new
    /// interval that overlaps the old domain yields one entry, with the
    /// value `interval_value` gives for the kind of quantity; the policy is
    /// copied.
    pub fn get_projection(&self, index_new: &Vec<I>, value_type: ValueType) -> (r: DataSeries<
        I,
        Ratio,
    >)
        requires
            self.wf(),
            strictly_increasing(keys_of(index_new@)),
            values_in_range(int_values(self.vals())),
        ensures
            r.wf(),
            r.policy() == self.policy(),
            forall|t: int| 0 <= t < r.vals().len() ==> #[trigger] r.vals()[t].den > 0,
            holds_entries(
                r,
                index_new@,
                projection(
                    self.keys(),
                    int_values(self.vals()),
                    keys_of(index_new@),
                    value_type,
                    index_new@.len() as int,
                ),
            ),
    {
        let (pts, vals) = self.as_arrays();
        let ks = collect_keys(pts);
        let vs = widen_values(vals);
        let bk = collect_keys(index_new);
        let ghost k = wide(ks@);
        let ghost v = wide(vs@);
        let ghost bp = wide(bk@);
        assert(k.len() == v.len());
        assert(bp.len() == bk@.len() && bp.len() == index_new@.len());
        assert(k.len() == ks@.len());
        let n = ks.len();
        let m = bk.len();
        let mut out_idx: Vec<I> = Vec::new();
        let mut out_val: Vec<Ratio> = Vec::new();
        let mut j: usize = 0;
        while j < m
            invariant
                n == ks@.len(),
                m == bk@.len(),
                m == index_new@.len(),
                k == wide(ks@),
                v == wide(vs@),
                bp == wide(bk@),
                k == self.keys(),
                v == int_values(self.vals()),
                bp == keys_of(index_new@),
                projectable(k, v),
                strictly_increasing(bp),
                keys_in_range(bp),
                j <= m,
                out_idx@.len() == projection(k, v, bp, value_type, j as int).len(),
                out_val@.len() == projection(k, v, bp, value_type, j as int).len(),
                forall|t: int| 0 <= t < out_val@.len() ==> #[trigger] out_val@[t].den > 0,
                forall|t: int|
                    0 <= t < out_idx@.len() ==> {
                        let e = projection(k, v, bp, value_type, j as int);
                        &&& #[trigger] out_idx@[t] == index_new@[e[t].0]
                        &&& out_val@[t].num == e[t].1
                        &&& out_val@[t].den == e[t].2
                    },
            decreases m - j,
        {
            let a = bk[j];
            assert(bp[j as int] == a as int);
            let upper = interval_end(&ks, &bk, j);
            let ghost before = projection(k, v, bp, value_type, j as int);
            let ghost en = entry(k, v, bp, value_type, j as int);
            let ghost old_idx = out_idx@;
            let ghost old_val = out_val@;
            if n >= 2 {
                assert(ks[0] as int == k[0] && ks[n - 1] as int == k.last());
            }
            if let Some(b) = upper {
                if n >= 2 && ks[0] < b && a < ks[n - 1] {
                    let value = match value_type {
                        ValueType::Countable => {
                            let ma = mass_at(&ks, &vs, a);
                            let mb = mass_at(&ks, &vs, b);
                            proof {
                                lemma_mul_bound(
                                    mb.0 as int,
                                    ma.1 as int,
                                    2475880078570760549798248448,
                                    8589934592,
                                );
                                lemma_mul_bound(
                                    ma.0 as int,
                                    mb.1 as int,
                                    2475880078570760549798248448,
                                    8589934592,
                                );
                                lemma_mul_bound(ma.1 as int, mb.1 as int, 8589934592, 8589934592);
                                assert(ma.1 * mb.1 > 0) by (nonlinear_arith)
                                    requires
                                        ma.1 > 0,
                                        mb.1 > 0,
                                ;
                            }
                            Ratio { num: mb.0 * ma.1 - ma.0 * mb.1, den: ma.1 * mb.1 }
                        },
                        ValueType::NonCountable => {
                            let ia = integral_at(&ks, &vs, a);
                            let ib = integral_at(&ks, &vs, b);
                            Ratio { num: ib - ia, den: (b - a) as i128 }
                        },
                    };
                    assert(en == Some((j as int, value.num as int, value.den as int)));
                    out_idx.push(index_new[j]);
                    out_val.push(value);
                } else {
                    assert(en.is_none());
                }
            } else {
                assert(en.is_none());
            }
            proof {
                lemma_projection_positions(k, v, bp, value_type, j as int);
                assert(projection(k, v, bp, value_type, j + 1) == match entry(
                    k,
                    v,
                    bp,
                    value_type,
                    j as int,
                ) {
                    Some(e) => before.push(e),
                    None => before,
                });
                let after = projection(k, v, bp, value_type, j + 1);
                assert forall|t: int| 0 <= t < out_idx@.len() implies {
                    &&& #[trigger] out_idx@[t] == index_new@[after[t].0]
                    &&& out_val@[t].num == after[t].1
                    &&& out_val@[t].den == after[t].2
                } by {
                    if t < old_idx.len() {
                        assert(out_val@[t].den > 0);
                        assert(out_idx@[t] == old_idx[t]);
                        assert(out_val@[t] == old_val[t]);
                        assert(after[t] == before[t]);
                    }
                }
            }
            j = j + 1;
        }
        proof {
            let e = projection(k, v, bp, value_type, m as int);
            lemma_projection_positions(k, v, bp, value_type, m as int);
            assert forall|s: int, t: int|
                0 <= s < t < out_idx@.len() implies keys_of(out_idx@)[s] < keys_of(
                out_idx@,
            )[t] by {
                assert(out_idx@[s] == index_new@[e[s].0]);
                assert(out_idx@[t] == index_new@[e[t].0]);
                assert(bp[e[s].0] < bp[e[t].0]);
            }
        }
        let ghost idx_view = out_idx@;
        let ghost val_view = out_val@;
        let r = DataSeries::from_parts(out_idx, out_val, self.policy_value());
        proof {
            let e = projection(
                self.keys(),
                int_values(self.vals()),
                keys_of(index_new@),
                value_type,
                index_new@.len() as int,
            );
            assert(e == projection(k, v, bp, value_type, m as int));
            assert forall|t: int| 0 <= t < e.len() implies {
                &&& r.points()[t] == index_new@[e[t].0]
                &&& r.vals()[t].num == e[t].1
                &&& r.vals()[t].den == e[t].2
            } by {
                assert(idx_view[t] == index_new@[e[t].0]);
            }
            assert(holds_entries(r, index_new@, e));
        }
        r
    }
}

} // verus!
