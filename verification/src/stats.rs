//! Per-filename integrity and size statistics.
//!
//! Records are grouped by file name.  Each group carries counts of all,
//! empty (below the tiny-size threshold) and structurally bad records,
//! and — over the sizes at or above the threshold — the minimum, maximum,
//! median and population variance, all exact: the median as the two
//! central elements of the sorted sizes, the variance as a rational.
//! The grand summary takes the median of the per-group medians and of
//! the per-group variances, never a flat recomputation, so that a
//! filename with many records cannot skew it.

use vstd::prelude::*;
use crate::record::FileEntry;
use crate::ratio::{Ratio, ratio_le, ratio_leq_fn, is_median_ratio_pair, sort_ratios};

verus! {

/// The size order as a function value, for use with sequence sorting.
pub open spec fn u64_leq_fn() -> spec_fn(u64, u64) -> bool {
    |a: u64, b: u64| a <= b
}

/// The sizes of `s` arranged in ascending order.
pub open spec fn sorted_sizes(s: Seq<u64>) -> Seq<u64> {
    s.sort_by(u64_leq_fn())
}

/// The two central elements of the sorted arrangement of `s` (the same
/// element twice when the length is odd).
pub open spec fn median_pair_of(s: Seq<u64>) -> (u64, u64)
    recommends
        s.len() > 0,
{
    let t = sorted_sizes(s);
    (t[(s.len() - 1) as int / 2], t[s.len() as int / 2])
}

/// Twice the median of `s`: the sum of the two central elements.
pub open spec fn median_x2_of(s: Seq<u64>) -> int {
    median_pair_of(s).0 + median_pair_of(s).1
}

pub open spec fn min_of(s: Seq<u64>) -> u64
    recommends
        s.len() > 0,
{
    sorted_sizes(s)[0]
}

pub open spec fn max_of(s: Seq<u64>) -> u64
    recommends
        s.len() > 0,
{
    sorted_sizes(s)[s.len() - 1]
}

proof fn lemma_u64_total_ordering()
    ensures
        vstd::relations::total_ordering(u64_leq_fn()),
{
    let f = u64_leq_fn();
    assert forall|x: u64| #[trigger] f(x, x) by {}
    assert(vstd::relations::reflexive(f));
    assert forall|x: u64, y: u64, z: u64| #[trigger] f(x, y) && #[trigger] f(y, z) implies f(
        x,
        z,
    ) by {}
    assert(vstd::relations::transitive(f));
    assert forall|x: u64, y: u64| #[trigger] f(x, y) && #[trigger] f(y, x) implies x == y by {}
    assert(vstd::relations::antisymmetric(f));
    assert forall|x: u64, y: u64| !(#[trigger] f(x, y)) implies f(y, x) by {}
    assert(vstd::relations::strongly_connected(f));
}

/// Arranges sizes in ascending order.
pub fn sorted_copy_u64(v: &Vec<u64>) -> (r: Vec<u64>)
    ensures
        r@ == sorted_sizes(v@),
        r@.len() == v@.len(),
        forall|m: int, n: int| 0 <= m <= n < r@.len() ==> r@[m] <= r@[n],
{
    let mut r: Vec<u64> = Vec::new();
    let mut k: usize = 0;
    proof {
        assert(v@.take(0) =~= Seq::<u64>::empty());
        assert(r@.to_multiset() =~= v@.take(0).to_multiset());
    }
    while k < v.len()
        invariant
            k <= v@.len(),
            r@.len() == k,
            r@.to_multiset() == v@.take(k as int).to_multiset(),
            forall|m: int, n: int| 0 <= m < n < r@.len() ==> r@[m] <= r@[n],
        decreases v@.len() - k,
    {
        let x = v[k];
        let ghost prev = r@;
        let mut i: usize = 0;
        while i < r.len() && r[i] <= x
            invariant
                i <= r@.len(),
                r@ == prev,
                forall|j: int| 0 <= j < i ==> r@[j] <= x,
            decreases r@.len() - i,
        {
            i += 1;
        }
        r.insert(i, x);
        proof {
            prev.insert_ensures(i as int, x);
            assert forall|m: int, n: int| 0 <= m < n < r@.len() implies r@[m] <= r@[n] by {
                if n < i {
                    assert(r@[m] == prev[m] && r@[n] == prev[n]);
                } else if m > i {
                    assert(r@[m] == prev[m - 1] && r@[n] == prev[n - 1]);
                } else if m == i {
                    assert(r@[m] == x && r@[n] == prev[n - 1]);
                } else if n == i {
                    assert(r@[m] == prev[m] && r@[n] == x);
                } else {
                    assert(r@[m] == prev[m] && r@[n] == prev[n - 1]);
                }
            }
            vstd::seq_lib::to_multiset_insert(prev, i as int, x);
            assert(v@.take(k as int + 1) =~= v@.take(k as int).push(v@[k as int]));
            vstd::seq_lib::to_multiset_build(v@.take(k as int), v@[k as int]);
            assert(v@.take(k as int + 1).to_multiset() == v@.take(
                k as int,
            ).to_multiset().insert(x));
        }
        k += 1;
    }
    proof {
        broadcast use vstd::seq_lib::group_to_multiset_ensures;

        assert(v@.take(k as int) =~= v@);
        let f = u64_leq_fn();
        assert forall|m: int, n: int| 0 <= m < n < r@.len() implies #[trigger] f(r@[m], r@[n]) by {
            assert(r@[m] <= r@[n]);
        }
        assert(vstd::relations::sorted_by(r@, f));
        v@.lemma_sort_by_ensures(f);
        lemma_u64_total_ordering();
        vstd::seq_lib::lemma_sorted_unique(r@, v@.sort_by(f), f);
        assert(r@ =~= sorted_sizes(v@));
        assert(r@.len() == r@.to_multiset().len());
        assert(v@.len() == v@.to_multiset().len());
    }
    r
}

/// The sizes of the records named `name`, in input order.
pub open spec fn group_sizes(files: Seq<FileEntry>, name: Seq<char>) -> Seq<u64>
    decreases files.len(),
{
    if files.len() == 0 {
        Seq::empty()
    } else {
        let rest = group_sizes(files.drop_last(), name);
        if files.last().name@ == name {
            rest.push(files.last().size)
        } else {
            rest
        }
    }
}

/// How many records named `name` are not structurally valid.
pub open spec fn group_bad_count(files: Seq<FileEntry>, name: Seq<char>) -> int
    decreases files.len(),
{
    if files.len() == 0 {
        0
    } else {
        group_bad_count(files.drop_last(), name) + (if files.last().name@ == name
            && !files.last().is_valid {
            1int
        } else {
            0int
        })
    }
}

/// How many sizes are below the threshold.
pub open spec fn count_below(sizes: Seq<u64>, thr: u64) -> int
    decreases sizes.len(),
{
    if sizes.len() == 0 {
        0
    } else {
        count_below(sizes.drop_last(), thr) + (if sizes.last() < thr {
            1int
        } else {
            0int
        })
    }
}

/// The sizes at or above the threshold, in order.
pub open spec fn sizes_at_least(sizes: Seq<u64>, thr: u64) -> Seq<u64>
    decreases sizes.len(),
{
    if sizes.len() == 0 {
        Seq::empty()
    } else {
        let rest = sizes_at_least(sizes.drop_last(), thr);
        if sizes.last() >= thr {
            rest.push(sizes.last())
        } else {
            rest
        }
    }
}

/// The sum of the sizes.
pub open spec fn sum_of(sizes: Seq<u64>) -> int
    decreases sizes.len(),
{
    if sizes.len() == 0 {
        0
    } else {
        sum_of(sizes.drop_last()) + sizes.last()
    }
}

/// The sum of the squared deviations `(n * x - total)^2` over the sizes
/// `x` of `s`.  With `n` the count and `total` the sum of the whole list,
/// this is `n^2` times the sum of squared deviations from the mean, so
/// the population variance is this value divided by `n^3`.
pub open spec fn scaled_dev_sq_sum(s: Seq<u64>, n: int, total: int) -> int
    decreases s.len(),
{
    if s.len() == 0 {
        0
    } else {
        let d = n * s.last() - total;
        scaled_dev_sq_sum(s.drop_last(), n, total) + d * d
    }
}

/// The population variance of `vs` as an exact rational.
pub open spec fn variance_of(vs: Seq<u64>) -> Ratio {
    Ratio {
        num: scaled_dev_sq_sum(vs, vs.len() as int, sum_of(vs)) as u128,
        den: (vs.len() * vs.len() * vs.len()) as u128,
    }
}

/// Aggregate over all records sharing one file name.  `median_low` and
/// `median_high` are the two central values of the sorted sizes at or
/// above the threshold; the median itself is their average.  The
/// population variance of those sizes is `variance_num / variance_den`,
/// exactly; its square root is the standard deviation.
#[derive(Debug)]
pub struct IntegrityRow {
    pub name: String,
    pub total: usize,
    pub empty: usize,
    pub bad: usize,
    pub min_size: u64,
    pub max_size: u64,
    pub median_low: u64,
    pub median_high: u64,
    pub variance_num: u128,
    pub variance_den: u128,
    pub valid_stats: bool,
}

/// What a correct row for one file name states about the records.
pub open spec fn row_ok(files: Seq<FileEntry>, thr: u64, row: IntegrityRow) -> bool {
    let sizes = group_sizes(files, row.name@);
    let vs = sizes_at_least(sizes, thr);
    &&& row.total == sizes.len()
    &&& row.empty == count_below(sizes, thr)
    &&& row.bad == group_bad_count(files, row.name@)
    &&& row.valid_stats == (vs.len() > 0)
    &&& (vs.len() > 0 ==> {
        &&& row.min_size == min_of(vs)
        &&& row.max_size == max_of(vs)
        &&& row.median_low == median_pair_of(vs).0
        &&& row.median_high == median_pair_of(vs).1
        &&& row.variance_num == variance_of(vs).num
        &&& row.variance_den == variance_of(vs).den
    })
    &&& (vs.len() == 0 ==> row.min_size == 0 && row.max_size == 0 && row.median_low == 0
        && row.median_high == 0 && row.variance_num == 0 && row.variance_den == 0)
}

/// Every size in a record list bounded by `SIZE_CAP` keeps its group and
/// filtered sequences bounded too.
pub open spec fn sizes_capped(files: Seq<FileEntry>, cap: u64) -> bool {
    forall|i: int| 0 <= i < files.len() ==> (#[trigger] files[i]).size <= cap
}

/// The largest record size the aggregator accepts: exact 128-bit
/// variance arithmetic needs bounded inputs.
pub const SIZE_CAP: u64 = 0xFFFF_FFFF;

/// The largest record count the aggregator accepts.
pub const COUNT_CAP: usize = 0x20_0000;

proof fn lemma_group_sizes_facts(files: Seq<FileEntry>, name: Seq<char>, cap: u64)
    requires
        sizes_capped(files, cap),
    ensures
        group_sizes(files, name).len() <= files.len(),
        forall|i: int|
            0 <= i < group_sizes(files, name).len() ==> #[trigger] group_sizes(files, name)[i]
                <= cap,
    decreases files.len(),
{
    if files.len() > 0 {
        assert(sizes_capped(files.drop_last(), cap)) by {
            assert(forall|i: int|
                0 <= i < files.len() - 1 ==> #[trigger] files.drop_last()[i] == files[i]);
        }
        lemma_group_sizes_facts(files.drop_last(), name, cap);
        assert(files.last().size <= cap) by {
            assert(files[files.len() - 1].size <= cap);
        }
    }
}

proof fn lemma_sizes_at_least_facts(sizes: Seq<u64>, thr: u64, cap: u64)
    requires
        forall|i: int| 0 <= i < sizes.len() ==> #[trigger] sizes[i] <= cap,
    ensures
        sizes_at_least(sizes, thr).len() <= sizes.len(),
        forall|i: int|
            0 <= i < sizes_at_least(sizes, thr).len() ==> #[trigger] sizes_at_least(sizes, thr)[i]
                <= cap,
    decreases sizes.len(),
{
    if sizes.len() > 0 {
        assert(forall|i: int|
            0 <= i < sizes.len() - 1 ==> #[trigger] sizes.drop_last()[i] == sizes[i]);
        lemma_sizes_at_least_facts(sizes.drop_last(), thr, cap);
    }
}

proof fn lemma_sum_bounded(sizes: Seq<u64>, cap: u64)
    requires
        forall|i: int| 0 <= i < sizes.len() ==> #[trigger] sizes[i] <= cap,
    ensures
        0 <= sum_of(sizes) <= sizes.len() * cap,
    decreases sizes.len(),
{
    if sizes.len() > 0 {
        assert(forall|i: int|
            0 <= i < sizes.len() - 1 ==> #[trigger] sizes.drop_last()[i] == sizes[i]);
        lemma_sum_bounded(sizes.drop_last(), cap);
        assert(sizes.last() <= cap);
        assert((sizes.len() - 1) * cap + cap == sizes.len() * cap) by (nonlinear_arith);
    }
}

/// Builds the aggregate row of one file name.
#[verifier::loop_isolation(false)]
fn build_row(files: &Vec<FileEntry>, name: &String, thr: u64) -> (row: IntegrityRow)
    requires
        files@.len() <= COUNT_CAP,
        sizes_capped(files@, SIZE_CAP),
    ensures
        row.name@ == name@,
        row_ok(files@, thr, row),
        row_bounds(row),
{
    let mut sizes: Vec<u64> = Vec::new();
    let mut bad: usize = 0;
    let mut k: usize = 0;
    proof {
        assert(files@.take(0) =~= Seq::<FileEntry>::empty());
    }
    while k < files.len()
        invariant
            k <= files@.len(),
            sizes@ == group_sizes(files@.take(k as int), name@),
            bad == group_bad_count(files@.take(k as int), name@),
            bad <= k,
            sizes@.len() <= k,
        decreases files@.len() - k,
    {
        proof {
            assert(files@.take(k as int + 1).drop_last() =~= files@.take(k as int));
            assert(files@.take(k as int + 1).last() == files@[k as int]);
        }
        if files[k].name == *name {
            sizes.push(files[k].size);
            if !files[k].is_valid {
                bad += 1;
            }
        }
        k += 1;
    }
    proof {
        assert(files@.take(k as int) =~= files@);
        lemma_group_sizes_facts(files@, name@, SIZE_CAP);
    }
    let ghost gsizes = group_sizes(files@, name@);
    let total = sizes.len();
    let mut empty: usize = 0;
    let mut j: usize = 0;
    proof {
        assert(sizes@.take(0) =~= Seq::<u64>::empty());
    }
    while j < sizes.len()
        invariant
            j <= sizes@.len(),
            empty == count_below(sizes@.take(j as int), thr),
            empty <= j,
        decreases sizes@.len() - j,
    {
        proof {
            assert(sizes@.take(j as int + 1).drop_last() =~= sizes@.take(j as int));
            assert(sizes@.take(j as int + 1).last() == sizes@[j as int]);
        }
        if sizes[j] < thr {
            empty += 1;
        }
        j += 1;
    }
    proof {
        assert(sizes@.take(sizes@.len() as int) =~= sizes@);
    }
    let mut vs: Vec<u64> = Vec::new();
    let mut j2: usize = 0;
    while j2 < sizes.len()
        invariant
            j2 <= sizes@.len(),
            vs@ == sizes_at_least(sizes@.take(j2 as int), thr),
            vs@.len() <= j2,
        decreases sizes@.len() - j2,
    {
        proof {
            assert(sizes@.take(j2 as int + 1).drop_last() =~= sizes@.take(j2 as int));
            assert(sizes@.take(j2 as int + 1).last() == sizes@[j2 as int]);
        }
        if sizes[j2] >= thr {
            vs.push(sizes[j2]);
        }
        j2 += 1;
    }
    proof {
        assert(sizes@.take(sizes@.len() as int) =~= sizes@);
        lemma_sizes_at_least_facts(sizes@, thr, SIZE_CAP);
    }
    if vs.len() == 0 {
        return IntegrityRow {
            name: name.clone(),
            total,
            empty,
            bad,
            min_size: 0,
            max_size: 0,
            median_low: 0,
            median_high: 0,
            variance_num: 0,
            variance_den: 0,
            valid_stats: false,
        };
    }
    let sorted = sorted_copy_u64(&vs);
    let n = vs.len();
    let min_size = sorted[0];
    let max_size = sorted[n - 1];
    let median_low = sorted[(n - 1) / 2];
    let median_high = sorted[n / 2];
    // the sum of the valid sizes
    let mut total_sz: u128 = 0;
    let mut j3: usize = 0;
    proof {
        assert(vs@.take(0) =~= Seq::<u64>::empty());
    }
    while j3 < vs.len()
        invariant
            j3 <= vs@.len(),
            total_sz == sum_of(vs@.take(j3 as int)),
        decreases vs@.len() - j3,
    {
        proof {
            assert(vs@.take(j3 as int + 1).drop_last() =~= vs@.take(j3 as int));
            assert(vs@.take(j3 as int + 1).last() == vs@[j3 as int]);
            assert(forall|i: int|
                0 <= i < j3 + 1 ==> #[trigger] vs@.take(j3 as int + 1)[i] == vs@[i]);
            lemma_sum_bounded(vs@.take(j3 as int + 1), SIZE_CAP);
            assert((j3 + 1) * SIZE_CAP <= 0x20_0000 * 0xFFFF_FFFFu128) by (nonlinear_arith)
                requires
                    0 <= j3,
                    j3 + 1 <= 0x20_0000,
            ;
        }
        total_sz = total_sz + vs[j3] as u128;
        j3 += 1;
    }
    proof {
        assert(vs@.take(vs@.len() as int) =~= vs@);
        lemma_sum_bounded(vs@, SIZE_CAP);
        assert(vs@.len() * SIZE_CAP <= 0x20_0000 * 0xFFFF_FFFFu128) by (nonlinear_arith)
            requires
                vs@.len() <= 0x20_0000,
        ;
    }
    // the sum of squared scaled deviations
    let nn: u128 = n as u128;
    let mut acc: u128 = 0;
    let mut j4: usize = 0;
    proof {
        assert(vs@.take(0) =~= Seq::<u64>::empty());
    }
    while j4 < vs.len()
        invariant
            j4 <= vs@.len(),
            acc == scaled_dev_sq_sum(vs@.take(j4 as int), n as int, sum_of(vs@)),
            acc <= j4 * 0x400_0000_0000_0000_0000_0000_0000,
        decreases vs@.len() - j4,
    {
        proof {
            assert(vs@.take(j4 as int + 1).drop_last() =~= vs@.take(j4 as int));
            assert(vs@.take(j4 as int + 1).last() == vs@[j4 as int]);
        }
        let x: u128 = vs[j4] as u128;
        proof {
            assert(nn * x <= 0x20_0000 * 0xFFFF_FFFFu128) by (nonlinear_arith)
                requires
                    0 <= nn <= 0x20_0000,
                    0 <= x <= 0xFFFF_FFFFu128,
            ;
        }
        let nx = nn * x;
        let d: u128 = if nx >= total_sz {
            nx - total_sz
        } else {
            total_sz - nx
        };
        proof {
            assert(d <= 0x20_0000 * 0xFFFF_FFFFu128);
            assert(d * d <= 0x400_0000_0000_0000_0000_0000_0000u128) by (nonlinear_arith)
                requires
                    0 <= d <= 0x20_0000 * 0xFFFF_FFFFu128,
            ;
            assert((d as int) * (d as int) == (nn as int * x as int - sum_of(vs@)) * (nn as int
                * x as int - sum_of(vs@))) by (nonlinear_arith)
                requires
                    d == (if nn as int * x as int >= sum_of(vs@) {
                        nn as int * x as int - sum_of(vs@)
                    } else {
                        sum_of(vs@) - nn as int * x as int
                    }),
            ;
            assert(acc + d * d <= (j4 + 1) * 0x400_0000_0000_0000_0000_0000_0000)
                by (nonlinear_arith)
                requires
                    acc <= j4 * 0x400_0000_0000_0000_0000_0000_0000u128,
                    d * d <= 0x400_0000_0000_0000_0000_0000_0000u128,
                    0 <= j4,
            ;
            assert((j4 + 1) * 0x400_0000_0000_0000_0000_0000_0000 <= 0x20_0000
                * 0x400_0000_0000_0000_0000_0000_0000u128) by (nonlinear_arith)
                requires
                    j4 + 1 <= 0x20_0000,
            ;
        }
        acc = acc + d * d;
        j4 += 1;
    }
    proof {
        assert(vs@.take(vs@.len() as int) =~= vs@);
    }
    proof {
        assert(nn * nn <= 0x10_0000_0000_0000u128) by (nonlinear_arith)
            requires
                0 <= nn <= 0x20_0000u128,
        ;
        assert((nn * nn) * nn <= 0x8000_0000_0000_0000u128) by (nonlinear_arith)
            requires
                0 <= nn <= 0x20_0000u128,
                nn * nn <= 0x10_0000_0000_0000u128,
        ;
    }
    let den: u128 = nn * nn * nn;
    proof {
        assert(1 <= (nn * nn) * nn) by (nonlinear_arith)
            requires
                1 <= nn,
        ;
        let f = u64_leq_fn();
        vs@.lemma_sort_by_ensures(f);
        lemma_multiset_elems_bounded(sorted@, vs@, SIZE_CAP);
        assert(median_low <= SIZE_CAP && median_high <= SIZE_CAP);
    }
    IntegrityRow {
        name: name.clone(),
        total,
        empty,
        bad,
        min_size,
        max_size,
        median_low,
        median_high,
        variance_num: acc,
        variance_den: den,
        valid_stats: true,
    }
}

/// The sizes of all records, in input order.
pub open spec fn all_sizes(files: Seq<FileEntry>) -> Seq<u64>
    decreases files.len(),
{
    if files.len() == 0 {
        Seq::empty()
    } else {
        all_sizes(files.drop_last()).push(files.last().size)
    }
}

/// How many records are not structurally valid.
pub open spec fn bad_count(files: Seq<FileEntry>) -> int
    decreases files.len(),
{
    if files.len() == 0 {
        0
    } else {
        bad_count(files.drop_last()) + (if !files.last().is_valid {
            1int
        } else {
            0int
        })
    }
}

/// Twice the medians of the rows that carry valid statistics, in row
/// order.
pub open spec fn row_medians_x2(rows: Seq<IntegrityRow>) -> Seq<u64>
    decreases rows.len(),
{
    if rows.len() == 0 {
        Seq::empty()
    } else {
        let rest = row_medians_x2(rows.drop_last());
        if rows.last().valid_stats {
            rest.push((rows.last().median_low + rows.last().median_high) as u64)
        } else {
            rest
        }
    }
}

/// The variances of the rows that carry valid statistics, in row order.
pub open spec fn row_variances(rows: Seq<IntegrityRow>) -> Seq<Ratio>
    decreases rows.len(),
{
    if rows.len() == 0 {
        Seq::empty()
    } else {
        let rest = row_variances(rows.drop_last());
        if rows.last().valid_stats {
            rest.push(Ratio { num: rows.last().variance_num, den: rows.last().variance_den })
        } else {
            rest
        }
    }
}

/// Size and denominator bounds that every row built from capped records
/// satisfies; they keep the grand-summary arithmetic in range.
pub open spec fn row_bounds(row: IntegrityRow) -> bool {
    row.valid_stats ==> (row.median_low <= SIZE_CAP && row.median_high <= SIZE_CAP && 1
        <= row.variance_den <= 0x8000_0000_0000_0000)
}

/// Collection of per-filename rows plus the grand summary.  The grand
/// median is the median of the per-row medians, `(low + high) / 4` of the
/// two stored doubled values; the grand standard deviation is the square
/// root of the median of the per-row variances, held as the central pair
/// of `grand_variance_low` / `grand_variance_high`.
#[derive(Debug)]
pub struct IntegrityStats {
    pub rows: Vec<IntegrityRow>,
    pub grand_total: usize,
    pub grand_empty: usize,
    pub grand_bad: usize,
    pub grand_min: u64,
    pub grand_max: u64,
    pub grand_median_x2_low: u64,
    pub grand_median_x2_high: u64,
    pub grand_variance_low: Ratio,
    pub grand_variance_high: Ratio,
    pub valid_groups: usize,
}

/// Some row of `rows` is named `name`.
pub open spec fn has_row_for(rows: Seq<IntegrityRow>, name: Seq<char>) -> bool {
    exists|i: int| 0 <= i < rows.len() && (#[trigger] rows[i]).name@ == name
}

fn names_contains(v: &Vec<String>, s: &String) -> (r: bool)
    ensures
        r == (exists|i: int| 0 <= i < v@.len() && (#[trigger] v@[i])@ == s@),
{
    let mut i: usize = 0;
    while i < v.len()
        invariant
            i <= v@.len(),
            forall|j: int| 0 <= j < i ==> (#[trigger] v@[j])@ != s@,
        decreases v@.len() - i,
    {
        if v[i] == *s {
            return true;
        }
        i += 1;
    }
    false
}

proof fn lemma_multiset_elems_bounded(a: Seq<u64>, b: Seq<u64>, cap: u64)
    requires
        a.to_multiset() == b.to_multiset(),
        forall|i: int| 0 <= i < b.len() ==> #[trigger] b[i] <= cap,
    ensures
        forall|i: int| 0 <= i < a.len() ==> #[trigger] a[i] <= cap,
{
    broadcast use vstd::seq_lib::group_to_multiset_ensures;

    assert forall|i: int| 0 <= i < a.len() implies #[trigger] a[i] <= cap by {
        assert(a.contains(a[i]));
        assert(a.to_multiset().count(a[i]) > 0);
        assert(b.to_multiset().count(a[i]) > 0);
        assert(b.contains(a[i]));
        let j = choose|j: int| 0 <= j < b.len() && b[j] == a[i];
        assert(b[j] <= cap);
    }
}

/// Groups the records by file name and computes every per-name row and
/// the grand summary.  Returns `None` exactly when there are no records.
/// Each distinct file name has exactly one row; the grand counts cover
/// every record, and the grand size statistics take the median across
/// the per-row medians and variances, never a flat recomputation.
#[verifier::loop_isolation(false)]
#[verifier::rlimit(60)]
pub fn calculate_integrity_stats(files: &Vec<FileEntry>, tiny_threshold: u64) -> (r: Option<
    IntegrityStats,
>)
    requires
        files@.len() <= COUNT_CAP,
        sizes_capped(files@, SIZE_CAP),
    ensures
        r is None <==> files@.len() == 0,
        r is Some ==> forall|i: int|
            0 <= i < r->0.rows@.len() ==> row_ok(files@, tiny_threshold, #[trigger] r->0.rows@[i])
                && row_bounds(r->0.rows@[i]),
        r is Some ==> forall|i: int, j: int|
            0 <= i < j < r->0.rows@.len() ==> (#[trigger] r->0.rows@[i]).name@
                != (#[trigger] r->0.rows@[j]).name@,
        r is Some ==> forall|m: int|
            0 <= m < files@.len() ==> #[trigger] has_row_for(r->0.rows@, files@[m].name@),
        r is Some ==> r->0.grand_total == files@.len(),
        r is Some ==> r->0.grand_empty == count_below(all_sizes(files@), tiny_threshold),
        r is Some ==> r->0.grand_bad == bad_count(files@),
        r is Some && sizes_at_least(all_sizes(files@), tiny_threshold).len() > 0 ==> r->0.grand_min
            == min_of(sizes_at_least(all_sizes(files@), tiny_threshold)) && r->0.grand_max
            == max_of(sizes_at_least(all_sizes(files@), tiny_threshold)),
        r is Some && sizes_at_least(all_sizes(files@), tiny_threshold).len() == 0 ==> r->0.grand_min
            == 0 && r->0.grand_max == 0,
        r is Some ==> r->0.valid_groups == row_medians_x2(r->0.rows@).len(),
        r is Some && row_medians_x2(r->0.rows@).len() > 0 ==> r->0.grand_median_x2_low
            == median_pair_of(row_medians_x2(r->0.rows@)).0 && r->0.grand_median_x2_high
            == median_pair_of(row_medians_x2(r->0.rows@)).1,
        r is Some && row_medians_x2(r->0.rows@).len() == 0 ==> r->0.grand_median_x2_low == 0
            && r->0.grand_median_x2_high == 0,
        r is Some && row_medians_x2(r->0.rows@).len() > 0 ==> is_median_ratio_pair(
            row_variances(r->0.rows@),
            r->0.grand_variance_low,
            r->0.grand_variance_high,
        ),
{
    if files.len() == 0 {
        return None;
    }
    let mut names: Vec<String> = Vec::new();
    let mut rows: Vec<IntegrityRow> = Vec::new();
    let mut k: usize = 0;
    while k < files.len()
        invariant
            k <= files@.len(),
            names@.len() == rows@.len(),
            forall|i: int|
                0 <= i < rows@.len() ==> (#[trigger] rows@[i]).name@ == (#[trigger] names@[i])@,
            forall|i: int, j: int|
                0 <= i < j < names@.len() ==> (#[trigger] names@[i])@ != (#[trigger] names@[j])@,
            forall|i: int|
                0 <= i < rows@.len() ==> row_ok(files@, tiny_threshold, #[trigger] rows@[i])
                    && row_bounds(rows@[i]),
            forall|m: int|
                0 <= m < k ==> exists|i: int|
                    0 <= i < names@.len() && (#[trigger] names@[i])@ == (#[trigger] files@[m]).name@,
        decreases files@.len() - k,
    {
        let present = names_contains(&names, &files[k].name);
        if !present {
            let row = build_row(files, &files[k].name, tiny_threshold);
            let ghost old_names = names@;
            names.push(files[k].name.clone());
            rows.push(row);
            proof {
                assert(names@[names@.len() - 1]@ == files@[k as int].name@);
                assert(forall|i: int| 0 <= i < old_names.len() ==> names@[i] == old_names[i]);
            }
        }
        k += 1;
    }
    // grand counts over every record
    let grand_total = files.len();
    let mut grand_empty: usize = 0;
    let mut grand_bad: usize = 0;
    let mut vsall: Vec<u64> = Vec::new();
    let mut k2: usize = 0;
    proof {
        assert(files@.take(0) =~= Seq::<FileEntry>::empty());
    }
    while k2 < files.len()
        invariant
            k2 <= files@.len(),
            grand_empty == count_below(all_sizes(files@.take(k2 as int)), tiny_threshold),
            grand_bad == bad_count(files@.take(k2 as int)),
            grand_empty <= k2,
            grand_bad <= k2,
            vsall@ == sizes_at_least(all_sizes(files@.take(k2 as int)), tiny_threshold),
        decreases files@.len() - k2,
    {
        proof {
            assert(files@.take(k2 as int + 1).drop_last() =~= files@.take(k2 as int));
            assert(files@.take(k2 as int + 1).last() == files@[k2 as int]);
            let s = all_sizes(files@.take(k2 as int + 1));
            assert(s.drop_last() =~= all_sizes(files@.take(k2 as int)));
            assert(s.last() == files@[k2 as int].size);
        }
        if files[k2].size < tiny_threshold {
            grand_empty += 1;
        } else {
            vsall.push(files[k2].size);
        }
        if !files[k2].is_valid {
            grand_bad += 1;
        }
        k2 += 1;
    }
    proof {
        assert(files@.take(files@.len() as int) =~= files@);
    }
    let (grand_min, grand_max) = if vsall.len() > 0 {
        let sorted_all = sorted_copy_u64(&vsall);
        (sorted_all[0], sorted_all[sorted_all.len() - 1])
    } else {
        (0, 0)
    };
    // the per-row medians and variances that feed the grand summary
    let mut meds: Vec<u64> = Vec::new();
    let mut vars: Vec<Ratio> = Vec::new();
    let mut k3: usize = 0;
    proof {
        assert(rows@.take(0) =~= Seq::<IntegrityRow>::empty());
    }
    while k3 < rows.len()
        invariant
            k3 <= rows@.len(),
            meds@ == row_medians_x2(rows@.take(k3 as int)),
            vars@ == row_variances(rows@.take(k3 as int)),
        decreases rows@.len() - k3,
    {
        proof {
            assert(rows@.take(k3 as int + 1).drop_last() =~= rows@.take(k3 as int));
            assert(rows@.take(k3 as int + 1).last() == rows@[k3 as int]);
        }
        if rows[k3].valid_stats {
            meds.push(rows[k3].median_low + rows[k3].median_high);
            vars.push(Ratio { num: rows[k3].variance_num, den: rows[k3].variance_den });
        }
        k3 += 1;
    }
    proof {
        assert(rows@.take(rows@.len() as int) =~= rows@);
        assert forall|i: int| 0 <= i < vars@.len() implies 1 <= (#[trigger] vars@[i]).den
            <= 0x8000_0000_0000_0000 by {
            lemma_row_variance_bounds(rows@, i);
        }
    }
    let valid_groups = meds.len();
    let (gm_lo, gm_hi, gv_lo, gv_hi) = if meds.len() > 0 {
        let sorted_meds = sorted_copy_u64(&meds);
        let n = sorted_meds.len();
        let sorted_vars = sort_ratios(&vars);
        proof {
            assert(vars@.len() == meds@.len()) by {
                lemma_med_var_same_len(rows@);
            }
            assert(is_median_ratio_pair(
                vars@,
                sorted_vars@[(vars@.len() - 1) as int / 2],
                sorted_vars@[vars@.len() as int / 2],
            )) by {
                let t = sorted_vars@;
                assert(t.to_multiset() == vars@.to_multiset() && vstd::relations::sorted_by(
                    t,
                    crate::ratio::ratio_leq_fn(),
                ) && vars@.len() > 0 && sorted_vars@[(vars@.len() - 1) as int / 2] == t[(vars@.len()
                    - 1) as int / 2] && sorted_vars@[vars@.len() as int / 2] == t[vars@.len()
                    as int / 2]);
            }
        }
        (
            sorted_meds[(n - 1) / 2],
            sorted_meds[n / 2],
            sorted_vars[(sorted_vars.len() - 1) / 2],
            sorted_vars[sorted_vars.len() / 2],
        )
    } else {
        (0, 0, Ratio { num: 0, den: 0 }, Ratio { num: 0, den: 0 })
    };
    proof {
        assert forall|m: int| 0 <= m < files@.len() implies exists|i: int|
            0 <= i < rows@.len() && (#[trigger] rows@[i]).name@ == (#[trigger] files@[m]).name@ by {
            let i = choose|i: int|
                0 <= i < names@.len() && (#[trigger] names@[i])@ == files@[m].name@;
            assert(rows@[i].name@ == files@[m].name@);
        }
    }
    proof {
        let vsall_s = sizes_at_least(all_sizes(files@), tiny_threshold);
        let meds_s = row_medians_x2(rows@);
        assert(forall|i: int|
            0 <= i < rows@.len() ==> row_ok(files@, tiny_threshold, #[trigger] rows@[i])
                && row_bounds(rows@[i]));
        assert forall|i: int, j: int| 0 <= i < j < rows@.len() implies (#[trigger] rows@[i]).name@
            != (#[trigger] rows@[j]).name@ by {
            assert(rows@[i].name@ == names@[i]@);
            assert(rows@[j].name@ == names@[j]@);
            assert(names@[i]@ != names@[j]@);
        }
        assert(grand_total == files@.len());
        assert(grand_empty == count_below(all_sizes(files@), tiny_threshold));
        assert(grand_bad == bad_count(files@));
        assert(vsall@ == vsall_s);
        assert(vsall_s.len() > 0 ==> grand_min == min_of(vsall_s) && grand_max == max_of(vsall_s));
        assert(vsall_s.len() == 0 ==> grand_min == 0 && grand_max == 0);
        assert(meds@ == meds_s);
        assert(valid_groups == meds_s.len());
        assert(meds_s.len() > 0 ==> gm_lo == median_pair_of(meds_s).0 && gm_hi == median_pair_of(
            meds_s,
        ).1);
        assert(meds_s.len() > 0 ==> is_median_ratio_pair(row_variances(rows@), gv_lo, gv_hi));
    }
    let st = IntegrityStats {
        rows,
        grand_total,
        grand_empty,
        grand_bad,
        grand_min,
        grand_max,
        grand_median_x2_low: gm_lo,
        grand_median_x2_high: gm_hi,
        grand_variance_low: gv_lo,
        grand_variance_high: gv_hi,
        valid_groups,
    };
    proof {
        assert forall|m: int| 0 <= m < files@.len() implies #[trigger] has_row_for(
            st.rows@,
            files@[m].name@,
        ) by {
            let i = choose|i: int|
                0 <= i < names@.len() && (#[trigger] names@[i])@ == files@[m].name@;
            assert(st.rows@[i].name@ == files@[m].name@);
        }
    }
    Some(st)
}

proof fn lemma_row_variance_bounds(rows: Seq<IntegrityRow>, i: int)
    requires
        forall|j: int| 0 <= j < rows.len() ==> row_bounds(#[trigger] rows[j]),
        0 <= i < row_variances(rows).len(),
    ensures
        1 <= row_variances(rows)[i].den <= 0x8000_0000_0000_0000,
    decreases rows.len(),
{
    if rows.len() > 0 {
        let rest = row_variances(rows.drop_last());
        assert(forall|j: int|
            0 <= j < rows.len() - 1 ==> #[trigger] rows.drop_last()[j] == rows[j]);
        if i < rest.len() {
            lemma_row_variance_bounds(rows.drop_last(), i);
        } else {
            assert(rows.last().valid_stats);
            assert(row_bounds(rows[rows.len() - 1]));
        }
    }
}

proof fn lemma_med_var_same_len(rows: Seq<IntegrityRow>)
    ensures
        row_medians_x2(rows).len() == row_variances(rows).len(),
    decreases rows.len(),
{
    if rows.len() > 0 {
        lemma_med_var_same_len(rows.drop_last());
    }
}

/// The median is the standard order statistic — the average of the two
/// central values of the sorted sizes — and does not depend on the order
/// in which the sizes are listed.
pub proof fn lemma_median_permutation_invariant(s: Seq<u64>, t: Seq<u64>)
    requires
        s.to_multiset() == t.to_multiset(),
        s.len() > 0,
    ensures
        median_pair_of(s) == median_pair_of(t),
        median_x2_of(s) == median_x2_of(t),
{
    broadcast use vstd::seq_lib::group_to_multiset_ensures;

    let f = u64_leq_fn();
    lemma_u64_total_ordering();
    s.lemma_sort_by_ensures(f);
    t.lemma_sort_by_ensures(f);
    assert(s.len() == s.to_multiset().len());
    assert(t.len() == t.to_multiset().len());
    vstd::seq_lib::lemma_sorted_unique(s.sort_by(f), t.sort_by(f), f);
}

/// One day's folder flagged as abnormally small or large.
#[derive(Debug, Clone)]
pub struct Anomaly {
    pub name: String,
    pub size: u64,
    pub category: String,
}

/// Daily-size anomaly detection: the cross-day median and the flagged
/// days, ordered by day identifier.
#[derive(Debug)]
pub struct AnomalyReport {
    pub median_daily_size: u64,
    pub anomalies: Vec<Anomaly>,
}

/// The sizes of a day-total list.
pub open spec fn day_sizes(days: Seq<(String, u64)>) -> Seq<u64>
    decreases days.len(),
{
    if days.len() == 0 {
        Seq::empty()
    } else {
        day_sizes(days.drop_last()).push(days.last().1)
    }
}

/// A day is too small when its total falls below `median * low`, the
/// threshold fraction written as `low_num / low_den`; the median is
/// carried as its doubled value.
pub open spec fn day_too_small(size: u64, med_x2: int, low_num: u64, low_den: u64) -> bool {
    2 * size * low_den < med_x2 * low_num
}

/// A day is too large when its total rises above `median * high`.
pub open spec fn day_too_large(size: u64, med_x2: int, high_num: u64, high_den: u64) -> bool {
    2 * size * high_den > med_x2 * high_num
}

/// The flagged entries of a day-total list, in order: the day name, its
/// size, and whether it was too small (too large otherwise).
pub open spec fn flagged_days(
    days: Seq<(String, u64)>,
    med_x2: int,
    low_num: u64,
    low_den: u64,
    high_num: u64,
    high_den: u64,
) -> Seq<(Seq<char>, u64, bool)>
    decreases days.len(),
{
    if days.len() == 0 {
        Seq::empty()
    } else {
        let rest = flagged_days(days.drop_last(), med_x2, low_num, low_den, high_num, high_den);
        let d = days.last();
        if day_too_small(d.1, med_x2, low_num, low_den) {
            rest.push((d.0@, d.1, true))
        } else if day_too_large(d.1, med_x2, high_num, high_den) {
            rest.push((d.0@, d.1, false))
        } else {
            rest
        }
    }
}

/// Arranges day totals by day identifier, ascending.
fn sort_days_by_name(days: &Vec<(String, u64)>) -> (r: Vec<(String, u64)>)
    ensures
        r@.to_multiset() == days@.to_multiset(),
        forall|m: int, n: int|
            0 <= m < n < r@.len() ==> crate::text::lex_le((#[trigger] r@[m]).0@, (#[trigger] r@[n]).0@),
        r@.len() == days@.len(),
{
    broadcast use vstd::seq_lib::group_to_multiset_ensures;

    let mut r: Vec<(String, u64)> = Vec::new();
    let mut k: usize = 0;
    proof {
        assert(days@.take(0) =~= Seq::<(String, u64)>::empty());
        assert(r@.to_multiset() =~= days@.take(0).to_multiset());
    }
    while k < days.len()
        invariant
            k <= days@.len(),
            r@.len() == k,
            r@.to_multiset() == days@.take(k as int).to_multiset(),
            forall|m: int, n: int|
                0 <= m < n < r@.len() ==> crate::text::lex_le(
                    (#[trigger] r@[m]).0@,
                    (#[trigger] r@[n]).0@,
                ),
        decreases days@.len() - k,
    {
        let x_name = days[k].0.clone();
        let x_size = days[k].1;
        let x = (x_name, x_size);
        proof {
            assert(x == days@[k as int]);
        }
        let ghost prev = r@;
        let mut i: usize = 0;
        while i < r.len() && str_lex_le_pair(&r[i].0, &x.0)
            invariant
                i <= r@.len(),
                r@ == prev,
                forall|j: int| 0 <= j < i ==> crate::text::lex_le((#[trigger] r@[j]).0@, x.0@),
            decreases r@.len() - i,
        {
            i += 1;
        }
        r.insert(i, x);
        proof {
            prev.insert_ensures(i as int, x);
            if i < prev.len() {
                assert(!crate::text::lex_le(prev[i as int].0@, x.0@));
                crate::text::lemma_lex_total(prev[i as int].0@, x.0@);
                assert(crate::text::lex_le(x.0@, prev[i as int].0@));
            }
            assert forall|m: int, n: int| 0 <= m < n < r@.len() implies crate::text::lex_le(
                (#[trigger] r@[m]).0@,
                (#[trigger] r@[n]).0@,
            ) by {
                if n < i {
                    assert(r@[m] == prev[m] && r@[n] == prev[n]);
                } else if m > i {
                    assert(r@[m] == prev[m - 1] && r@[n] == prev[n - 1]);
                } else if m == i {
                    assert(r@[m] == x && r@[n] == prev[n - 1]);
                    if n - 1 > i {
                        crate::text::lemma_lex_transitive(x.0@, prev[i as int].0@, prev[n - 1].0@);
                    }
                } else if n == i {
                    assert(r@[m] == prev[m] && r@[n] == x);
                } else {
                    assert(r@[m] == prev[m] && r@[n] == prev[n - 1]);
                    if n - 1 == i {
                        crate::text::lemma_lex_transitive(prev[m].0@, x.0@, prev[i as int].0@);
                    } else {
                        crate::text::lemma_lex_transitive(x.0@, prev[i as int].0@, prev[n - 1].0@);
                        crate::text::lemma_lex_transitive(prev[m].0@, x.0@, prev[n - 1].0@);
                    }
                }
            }
            vstd::seq_lib::to_multiset_insert(prev, i as int, x);
            assert(days@.take(k as int + 1) =~= days@.take(k as int).push(days@[k as int]));
            vstd::seq_lib::to_multiset_build(days@.take(k as int), days@[k as int]);
            assert(days@.take(k as int + 1).to_multiset() == days@.take(
                k as int,
            ).to_multiset().insert(x));
        }
        k += 1;
    }
    proof {
        assert(days@.take(k as int) =~= days@);
    }
    r
}

fn str_lex_le_pair(a: &String, b: &String) -> (r: bool)
    ensures
        r == crate::text::lex_le(a@, b@),
{
    crate::text::str_lex_le(a.as_str(), b.as_str())
}

/// Flags each day whose total lies below `median * low` or above
/// `median * high`, where the two fractions are given as
/// `low_num / low_den` and `high_num / high_den` and the median is taken
/// across all day totals.  Days are reported in ascending name order.
/// Returns `None` exactly when there are no day totals.
#[verifier::loop_isolation(false)]
pub fn calculate_anomalies(
    days: &Vec<(String, u64)>,
    low_num: u64,
    low_den: u64,
    high_num: u64,
    high_den: u64,
) -> (r: Option<AnomalyReport>)
    requires
        1 <= low_den <= 10000,
        low_num <= 10000,
        1 <= high_den <= 10000,
        high_num <= 10000,
    ensures
        r is None <==> days@.len() == 0,
        r is Some ==> r->0.median_daily_size == median_x2_of(day_sizes(days@)) / 2,
        r is Some ==> exists|t: Seq<(String, u64)>|
            {
                let fl = flagged_days(
                    t,
                    median_x2_of(day_sizes(days@)),
                    low_num,
                    low_den,
                    high_num,
                    high_den,
                );
                &&& #[trigger] t.to_multiset() == days@.to_multiset()
                &&& forall|m: int, n: int|
                    0 <= m < n < t.len() ==> crate::text::lex_le(
                        (#[trigger] t[m]).0@,
                        (#[trigger] t[n]).0@,
                    )
                &&& r->0.anomalies@.len() == fl.len()
                &&& forall|i: int|
                    0 <= i < fl.len() ==> (#[trigger] r->0.anomalies@[i]).name@ == fl[i].0
                        && r->0.anomalies@[i].size == fl[i].1 && r->0.anomalies@[i].category@ == (
                    if fl[i].2 {
                        "Too Small"@
                    } else {
                        "Too Large"@
                    })
            },
{
    if days.len() == 0 {
        return None;
    }
    let mut sizes: Vec<u64> = Vec::new();
    let mut k: usize = 0;
    proof {
        assert(days@.take(0) =~= Seq::<(String, u64)>::empty());
    }
    while k < days.len()
        invariant
            k <= days@.len(),
            sizes@ == day_sizes(days@.take(k as int)),
        decreases days@.len() - k,
    {
        proof {
            assert(days@.take(k as int + 1).drop_last() =~= days@.take(k as int));
            assert(days@.take(k as int + 1).last() == days@[k as int]);
        }
        sizes.push(days[k].1);
        k += 1;
    }
    proof {
        assert(days@.take(days@.len() as int) =~= days@);
    }
    let sorted = sorted_copy_u64(&sizes);
    let n = sorted.len();
    let med_lo = sorted[(n - 1) / 2];
    let med_hi = sorted[n / 2];
    let ghost med_x2 = median_x2_of(day_sizes(days@));
    proof {
        assert(med_lo + med_hi == med_x2);
    }
    let median_daily_size: u64 = (((med_lo as u128) + (med_hi as u128)) / 2) as u64;
    let by_name = sort_days_by_name(days);
    let mut anomalies: Vec<Anomaly> = Vec::new();
    let mut k2: usize = 0;
    proof {
        assert(by_name@.take(0) =~= Seq::<(String, u64)>::empty());
    }
    while k2 < by_name.len()
        invariant
            k2 <= by_name@.len(),
            ({
                let fl = flagged_days(
                    by_name@.take(k2 as int),
                    med_x2,
                    low_num,
                    low_den,
                    high_num,
                    high_den,
                );
                &&& anomalies@.len() == fl.len()
                &&& forall|i: int|
                    0 <= i < fl.len() ==> (#[trigger] anomalies@[i]).name@ == fl[i].0
                        && anomalies@[i].size == fl[i].1 && anomalies@[i].category@ == (if fl[i].2 {
                        "Too Small"@
                    } else {
                        "Too Large"@
                    })
            }),
        decreases by_name@.len() - k2,
    {
        proof {
            assert(by_name@.take(k2 as int + 1).drop_last() =~= by_name@.take(k2 as int));
            assert(by_name@.take(k2 as int + 1).last() == by_name@[k2 as int]);
        }
        let sz = by_name[k2].1;
        proof {
            assert(2 * (sz as int) * (low_den as int) < 0x1_0000_0000_0000_0000_0000_0000)
                by (nonlinear_arith)
                requires
                    sz <= 0xFFFF_FFFF_FFFF_FFFFu64,
                    low_den <= 10000,
            ;
            assert(2 * (sz as int) * (high_den as int) < 0x1_0000_0000_0000_0000_0000_0000)
                by (nonlinear_arith)
                requires
                    sz <= 0xFFFF_FFFF_FFFF_FFFFu64,
                    high_den <= 10000,
            ;
            assert(((med_lo as int) + (med_hi as int)) * (low_num as int)
                < 0x1_0000_0000_0000_0000_0000_0000) by (nonlinear_arith)
                requires
                    med_lo <= 0xFFFF_FFFF_FFFF_FFFFu64,
                    med_hi <= 0xFFFF_FFFF_FFFF_FFFFu64,
                    low_num <= 10000,
            ;
            assert(((med_lo as int) + (med_hi as int)) * (high_num as int)
                < 0x1_0000_0000_0000_0000_0000_0000) by (nonlinear_arith)
                requires
                    med_lo <= 0xFFFF_FFFF_FFFF_FFFFu64,
                    med_hi <= 0xFFFF_FFFF_FFFF_FFFFu64,
                    high_num <= 10000,
            ;
        }
        let small = 2 * (sz as u128) * (low_den as u128) < ((med_lo as u128) + (med_hi as u128))
            * (low_num as u128);
        let large = 2 * (sz as u128) * (high_den as u128) > ((med_lo as u128) + (med_hi as u128))
            * (high_num as u128);
        proof {
            assert(small == day_too_small(sz, med_x2, low_num, low_den));
            assert(large == day_too_large(sz, med_x2, high_num, high_den));
        }
        if small {
            anomalies.push(
                Anomaly {
                    name: by_name[k2].0.clone(),
                    size: sz,
                    category: String::from_str("Too Small"),
                },
            );
        } else if large {
            anomalies.push(
                Anomaly {
                    name: by_name[k2].0.clone(),
                    size: sz,
                    category: String::from_str("Too Large"),
                },
            );
        }
        k2 += 1;
    }
    proof {
        assert(by_name@.take(by_name@.len() as int) =~= by_name@);
    }
    Some(AnomalyReport { median_daily_size, anomalies })
}

/// One structurally bad file, with its display path
/// `Line <id>/<folder>/<name>` and the recorded reason.
#[derive(Debug)]
pub struct BadFile {
    pub relative_path: String,
    pub size: u64,
    pub reason: String,
}

/// All bad files, grouped by folder: each group carries the folder name,
/// the files shown (the lexicographically first of the group, up to the
/// per-archive cap) and the group's full count.
#[derive(Debug)]
pub struct BadFilesReport {
    pub total_count: usize,
    pub files_by_folder: Vec<(String, Vec<BadFile>, usize)>,
}

/// The display path of one record.
pub open spec fn bad_path_of(line: Seq<char>, folder: Seq<char>, name: Seq<char>) -> Seq<char> {
    "Line "@ + line + "/"@ + folder + "/"@ + name
}

/// The recorded reason of one record, or the unknown-error text.
pub open spec fn reason_of(e: FileEntry) -> Seq<char> {
    if e.invalid_reason is Some {
        e.invalid_reason->0@
    } else {
        "Unknown error"@
    }
}

/// The path, size and reason of every invalid record of one folder, in
/// input order.
pub open spec fn folder_bad_views(files: Seq<FileEntry>, line: Seq<char>, folder: Seq<char>)
    -> Seq<(Seq<char>, u64, Seq<char>)>
    decreases files.len(),
{
    if files.len() == 0 {
        Seq::empty()
    } else {
        let rest = folder_bad_views(files.drop_last(), line, folder);
        let e = files.last();
        if !e.is_valid && e.parent_dir@ == folder {
            rest.push((bad_path_of(line, folder, e.name@), e.size, reason_of(e)))
        } else {
            rest
        }
    }
}

/// The views of a bad-file list.
pub open spec fn bad_file_views(l: Seq<BadFile>) -> Seq<(Seq<char>, u64, Seq<char>)> {
    Seq::new(l.len(), |i: int| (l[i].relative_path@, l[i].size, l[i].reason@))
}

fn build_bad_path(line_id: &str, folder: &str, name: &str) -> (r: String)
    ensures
        r@ == bad_path_of(line_id@, folder@, name@),
{
    let mut r = String::from_str("Line ");
    r.append(line_id);
    r.append("/");
    r.append(folder);
    r.append("/");
    r.append(name);
    r
}

/// The lexicographically sorted bad files of one folder, with their
/// count.
#[verifier::loop_isolation(false)]
#[verifier::rlimit(60)]
fn build_folder_bad_list(files: &Vec<FileEntry>, line_id: &str, folder: &String) -> (r: Vec<
    BadFile,
>)
    ensures
        bad_file_views(r@).to_multiset() == folder_bad_views(files@, line_id@, folder@).to_multiset(),
        forall|m: int, n: int|
            0 <= m < n < r@.len() ==> crate::text::lex_le(
                (#[trigger] r@[m]).relative_path@,
                (#[trigger] r@[n]).relative_path@,
            ),
        r@.len() == folder_bad_views(files@, line_id@, folder@).len(),
{
    broadcast use vstd::seq_lib::group_to_multiset_ensures;

    let mut r: Vec<BadFile> = Vec::new();
    let mut k: usize = 0;
    proof {
        assert(files@.take(0) =~= Seq::<FileEntry>::empty());
        assert(bad_file_views(r@) =~= folder_bad_views(files@.take(0), line_id@, folder@));
        assert(bad_file_views(r@).to_multiset() =~= folder_bad_views(
            files@.take(0),
            line_id@,
            folder@,
        ).to_multiset());
    }
    while k < files.len()
        invariant
            k <= files@.len(),
            bad_file_views(r@).to_multiset() == folder_bad_views(
                files@.take(k as int),
                line_id@,
                folder@,
            ).to_multiset(),
            r@.len() == folder_bad_views(files@.take(k as int), line_id@, folder@).len(),
            forall|m: int, n: int|
                0 <= m < n < r@.len() ==> crate::text::lex_le(
                    (#[trigger] r@[m]).relative_path@,
                    (#[trigger] r@[n]).relative_path@,
                ),
        decreases files@.len() - k,
    {
        proof {
            assert(files@.take(k as int + 1).drop_last() =~= files@.take(k as int));
            assert(files@.take(k as int + 1).last() == files@[k as int]);
        }
        let ghost prev = r@;
        let ghost old_views = folder_bad_views(files@.take(k as int), line_id@, folder@);
        let ghost new_views = folder_bad_views(files@.take(k as int + 1), line_id@, folder@);
        if !files[k].is_valid && crate::text::str_eq(
            files[k].parent_dir.as_str(),
            folder.as_str(),
        ) {
            let path = build_bad_path(line_id, folder.as_str(), files[k].name.as_str());
            let reason = match &files[k].invalid_reason {
                Some(t) => t.clone(),
                None => String::from_str("Unknown error"),
            };
            let b = BadFile { relative_path: path, size: files[k].size, reason };
            let ghost bv = (b.relative_path@, b.size, b.reason@);
            proof {
                assert(bv == (bad_path_of(line_id@, folder@, files@[k as int].name@),
                    files@[k as int].size, reason_of(files@[k as int])));
                assert(new_views == old_views.push(bv));
            }
            let mut i: usize = 0;
            while i < r.len() && crate::text::str_lex_le(
                r[i].relative_path.as_str(),
                b.relative_path.as_str(),
            )
                invariant
                    i <= r@.len(),
                    r@ == prev,
                    forall|j: int|
                        0 <= j < i ==> crate::text::lex_le(
                            (#[trigger] r@[j]).relative_path@,
                            b.relative_path@,
                        ),
                decreases r@.len() - i,
            {
                i += 1;
            }
            proof {
                if i < prev.len() {
                    assert(!crate::text::lex_le(prev[i as int].relative_path@, b.relative_path@));
                    crate::text::lemma_lex_total(prev[i as int].relative_path@, b.relative_path@);
                    assert(crate::text::lex_le(b.relative_path@, prev[i as int].relative_path@));
                }
            }
            r.insert(i, b);
            proof {
                prev.insert_ensures(i as int, b);
                assert forall|m: int, n: int| 0 <= m < n < r@.len() implies crate::text::lex_le(
                    (#[trigger] r@[m]).relative_path@,
                    (#[trigger] r@[n]).relative_path@,
                ) by {
                    if n < i {
                        assert(r@[m] == prev[m] && r@[n] == prev[n]);
                    } else if m > i {
                        assert(r@[m] == prev[m - 1] && r@[n] == prev[n - 1]);
                    } else if m == i {
                        assert(r@[m] == b && r@[n] == prev[n - 1]);
                        if n - 1 > i {
                            crate::text::lemma_lex_transitive(
                                b.relative_path@,
                                prev[i as int].relative_path@,
                                prev[n - 1].relative_path@,
                            );
                        }
                    } else if n == i {
                        assert(r@[m] == prev[m] && r@[n] == b);
                    } else {
                        assert(r@[m] == prev[m] && r@[n] == prev[n - 1]);
                        if n - 1 == i {
                            crate::text::lemma_lex_transitive(
                                prev[m].relative_path@,
                                b.relative_path@,
                                prev[i as int].relative_path@,
                            );
                        } else {
                            crate::text::lemma_lex_transitive(
                                b.relative_path@,
                                prev[i as int].relative_path@,
                                prev[n - 1].relative_path@,
                            );
                            crate::text::lemma_lex_transitive(
                                prev[m].relative_path@,
                                b.relative_path@,
                                prev[n - 1].relative_path@,
                            );
                        }
                    }
                }
                assert(bad_file_views(r@) =~= bad_file_views(prev).insert(i as int, bv));
                vstd::seq_lib::to_multiset_insert(bad_file_views(prev), i as int, bv);
                vstd::seq_lib::to_multiset_build(old_views, bv);
                assert(bad_file_views(r@).to_multiset() == new_views.to_multiset());
            }
        } else {
            proof {
                assert(new_views == old_views);
            }
        }
        k += 1;
    }
    proof {
        assert(files@.take(files@.len() as int) =~= files@);
    }
    r
}

/// Some folder name in the list views as `n`.
pub open spec fn folder_in_groups(
    groups: Seq<(String, Vec<BadFile>, usize)>,
    n: Seq<char>,
) -> bool {
    exists|i: int| 0 <= i < groups.len() && (#[trigger] groups[i]).0@ == n
}

/// Groups the invalid records by folder.  Each group holds the folder
/// name, its bad files sorted by display path and cut to
/// `max_per_archive`, and the group's full count; groups come in
/// ascending folder-name order.  Returns `None` exactly when every
/// record is valid.
#[verifier::loop_isolation(false)]
#[verifier::rlimit(100)]
pub fn collect_bad_files(files: &Vec<FileEntry>, line_id: &str, max_per_archive: usize) -> (r:
    Option<BadFilesReport>)
    ensures
        r is None <==> bad_count(files@) == 0,
        r is Some ==> ({
            let rep = r->0;
            &&& rep.total_count == bad_count(files@)
            &&& forall|m: int, n: int|
                0 <= m < n < rep.files_by_folder@.len() ==> crate::text::lex_le(
                    (#[trigger] rep.files_by_folder@[m]).0@,
                    (#[trigger] rep.files_by_folder@[n]).0@,
                ) && rep.files_by_folder@[m].0@ != rep.files_by_folder@[n].0@
            &&& forall|n2: Seq<char>| #[trigger]
                folder_in_groups(rep.files_by_folder@, n2) == (folder_bad_views(
                    files@,
                    line_id@,
                    n2,
                ).len() > 0)
            &&& forall|i: int|
                0 <= i < rep.files_by_folder@.len() ==> ({
                    let g = #[trigger] rep.files_by_folder@[i];
                    let all = folder_bad_views(files@, line_id@, g.0@);
                    &&& g.2 == all.len()
                    &&& g.1@.len() == (if all.len() <= max_per_archive {
                        all.len() as int
                    } else {
                        max_per_archive as int
                    })
                    &&& forall|m: int, n: int|
                        0 <= m < n < g.1@.len() ==> crate::text::lex_le(
                            (#[trigger] g.1@[m]).relative_path@,
                            (#[trigger] g.1@[n]).relative_path@,
                        )
                    &&& exists|t: Seq<(Seq<char>, u64, Seq<char>)>|
                        {
                            &&& #[trigger] t.to_multiset() == all.to_multiset()
                            &&& vstd::relations::sorted_by(
                                t,
                                |a: (Seq<char>, u64, Seq<char>), b: (Seq<char>, u64, Seq<char>)|
                                    crate::text::lex_le(a.0, b.0),
                            )
                            &&& bad_file_views(g.1@) =~= t.take(g.1@.len() as int)
                        }
                })
        }),
{
    let mut total: usize = 0;
    let mut folders: Vec<String> = Vec::new();
    let mut k: usize = 0;
    proof {
        assert(files@.take(0) =~= Seq::<FileEntry>::empty());
    }
    while k < files.len()
        invariant
            k <= files@.len(),
            total == bad_count(files@.take(k as int)),
            total <= k,
            forall|m: int, n: int|
                0 <= m < n < folders@.len() ==> crate::text::lex_le(
                    (#[trigger] folders@[m])@,
                    (#[trigger] folders@[n])@,
                ) && folders@[m]@ != folders@[n]@,
            forall|n2: Seq<char>| #[trigger]
                crate::ranking::name_in_list(folders@, n2) == (folder_bad_views(
                    files@.take(k as int),
                    line_id@,
                    n2,
                ).len() > 0),
        decreases files@.len() - k,
    {
        proof {
            assert(files@.take(k as int + 1).drop_last() =~= files@.take(k as int));
            assert(files@.take(k as int + 1).last() == files@[k as int]);
        }
        let ghost old_folders = folders@;
        if !files[k].is_valid {
            total += 1;
            let fname = &files[k].parent_dir;
            let mut present = false;
            let mut i: usize = 0;
            while i < folders.len() && !present && crate::text::str_lex_le(
                folders[i].as_str(),
                fname.as_str(),
            )
                invariant
                    i <= folders@.len(),
                    folders@ == old_folders,
                    present ==> i > 0 && folders@[i - 1]@ == fname@,
                    !present ==> forall|j: int|
                        0 <= j < i ==> crate::text::lex_le((#[trigger] folders@[j])@, fname@)
                            && folders@[j]@ != fname@,
                decreases folders@.len() - i,
            {
                if crate::text::str_eq(folders[i].as_str(), fname.as_str()) {
                    present = true;
                }
                i += 1;
            }
            if !present {
                proof {
                    if i < old_folders.len() {
                        assert(!crate::text::lex_le(old_folders[i as int]@, fname@));
                        crate::text::lemma_lex_total(old_folders[i as int]@, fname@);
                    }
                }
                folders.insert(i, fname.clone());
                proof {
                    old_folders.insert_ensures(i as int, files@[k as int].parent_dir);
                    assert(folders@[i as int]@ == fname@);
                    assert forall|m: int, n: int| 0 <= m < n < folders@.len() implies
                    crate::text::lex_le(
                        (#[trigger] folders@[m])@,
                        (#[trigger] folders@[n])@,
                    ) && folders@[m]@ != folders@[n]@ by {
                        if n < i {
                            assert(folders@[m] == old_folders[m] && folders@[n] == old_folders[n]);
                        } else if m > i {
                            assert(folders@[m] == old_folders[m - 1] && folders@[n]
                                == old_folders[n - 1]);
                        } else if m == i {
                            assert(folders@[m]@ == fname@ && folders@[n] == old_folders[n - 1]);
                            if n - 1 > i {
                                crate::text::lemma_lex_transitive(
                                    fname@,
                                    old_folders[i as int]@,
                                    old_folders[n - 1]@,
                                );
                            }
                            assert(!crate::text::lex_le(old_folders[i as int]@, fname@));
                            if folders@[n]@ == fname@ {
                                crate::text::lemma_lex_total(old_folders[n - 1]@, fname@);
                                if n - 1 > i {
                                    assert(crate::text::lex_le(
                                        old_folders[i as int]@,
                                        old_folders[n - 1]@,
                                    ));
                                    crate::text::lemma_lex_transitive(
                                        old_folders[i as int]@,
                                        old_folders[n - 1]@,
                                        fname@,
                                    );
                                }
                            }
                        } else if n == i {
                            assert(folders@[m] == old_folders[m] && folders@[n]@ == fname@);
                        } else {
                            assert(folders@[m] == old_folders[m] && folders@[n]
                                == old_folders[n - 1]);
                            if n - 1 == i {
                                crate::text::lemma_lex_transitive(
                                    old_folders[m]@,
                                    fname@,
                                    old_folders[i as int]@,
                                );
                            } else {
                                crate::text::lemma_lex_transitive(
                                    fname@,
                                    old_folders[i as int]@,
                                    old_folders[n - 1]@,
                                );
                                crate::text::lemma_lex_transitive(
                                    old_folders[m]@,
                                    fname@,
                                    old_folders[n - 1]@,
                                );
                            }
                        }
                    }
                }
            }
            proof {
                let nk = files@[k as int].parent_dir@;
                assert forall|n2: Seq<char>| #[trigger]
                    crate::ranking::name_in_list(folders@, n2) == (folder_bad_views(
                        files@.take(k as int + 1),
                        line_id@,
                        n2,
                    ).len() > 0) by {
                    let old_len = folder_bad_views(files@.take(k as int), line_id@, n2).len();
                    let new_len = folder_bad_views(files@.take(k as int + 1), line_id@, n2).len();
                    assert(new_len == old_len + (if n2 == nk {
                        1int
                    } else {
                        0int
                    }));
                    if crate::ranking::name_in_list(folders@, n2) {
                        let j = choose|j: int|
                            0 <= j < folders@.len() && (#[trigger] folders@[j])@ == n2;
                        if present {
                            assert(folders@ == old_folders);
                            assert(crate::ranking::name_in_list(old_folders, n2));
                        } else {
                            if folders@[j]@ == nk {
                            } else {
                                let jj = if j < i {
                                    j
                                } else {
                                    j - 1
                                };
                                assert(old_folders[jj]@ == n2);
                                assert(crate::ranking::name_in_list(old_folders, n2));
                            }
                        }
                        if n2 != nk {
                            assert(crate::ranking::name_in_list(old_folders, n2));
                            assert(old_len > 0);
                        }
                    }
                    if new_len > 0 {
                        if n2 == nk {
                            if present {
                                assert(folders@[i - 1]@ == nk);
                                assert(crate::ranking::name_in_list(folders@, n2));
                            } else {
                                assert(folders@[i as int]@ == nk);
                                assert(crate::ranking::name_in_list(folders@, n2));
                            }
                        } else {
                            assert(old_len > 0);
                            assert(crate::ranking::name_in_list(old_folders, n2));
                            let j = choose|j: int|
                                0 <= j < old_folders.len() && (#[trigger] old_folders[j])@ == n2;
                            if present {
                                assert(folders@[j]@ == n2);
                            } else {
                                if j < i {
                                    assert(folders@[j]@ == n2);
                                } else {
                                    assert(folders@[j + 1]@ == n2);
                                }
                            }
                            assert(crate::ranking::name_in_list(folders@, n2));
                        }
                    }
                }
            }
        } else {
            proof {
                assert forall|n2: Seq<char>|
                    folder_bad_views(files@.take(k as int + 1), line_id@, n2)
                        =~= folder_bad_views(files@.take(k as int), line_id@, n2) by {}
            }
        }
        k += 1;
    }
    proof {
        assert(files@.take(files@.len() as int) =~= files@);
    }
    if total == 0 {
        return None;
    }
    let mut groups: Vec<(String, Vec<BadFile>, usize)> = Vec::new();
    let mut g: usize = 0;
    while g < folders.len()
        invariant
            g <= folders@.len(),
            groups@.len() == g,
            forall|i: int| 0 <= i < g ==> (#[trigger] groups@[i]).0@ == folders@[i]@,
            forall|i: int|
                0 <= i < groups@.len() ==> ({
                    let grp = #[trigger] groups@[i];
                    let all = folder_bad_views(files@, line_id@, grp.0@);
                    &&& grp.2 == all.len()
                    &&& grp.1@.len() == (if all.len() <= max_per_archive {
                        all.len() as int
                    } else {
                        max_per_archive as int
                    })
                    &&& forall|m: int, n: int|
                        0 <= m < n < grp.1@.len() ==> crate::text::lex_le(
                            (#[trigger] grp.1@[m]).relative_path@,
                            (#[trigger] grp.1@[n]).relative_path@,
                        )
                    &&& exists|t: Seq<(Seq<char>, u64, Seq<char>)>|
                        {
                            &&& #[trigger] t.to_multiset() == all.to_multiset()
                            &&& vstd::relations::sorted_by(
                                t,
                                |a: (Seq<char>, u64, Seq<char>), b: (Seq<char>, u64, Seq<char>)|
                                    crate::text::lex_le(a.0, b.0),
                            )
                            &&& bad_file_views(grp.1@) =~= t.take(grp.1@.len() as int)
                        }
                }),
        decreases folders@.len() - g,
    {
        let mut full = build_folder_bad_list(files, line_id, &folders[g]);
        let cnt = full.len();
        let ghost tfull = bad_file_views(full@);
        proof {
            let f = |a: (Seq<char>, u64, Seq<char>), b: (Seq<char>, u64, Seq<char>)|
                crate::text::lex_le(a.0, b.0);
            assert forall|m: int, n: int| 0 <= m < n < tfull.len() implies #[trigger] f(
                tfull[m],
                tfull[n],
            ) by {
                assert(crate::text::lex_le(full@[m].relative_path@, full@[n].relative_path@));
            }
            assert(vstd::relations::sorted_by(tfull, f));
        }
        if cnt > max_per_archive {
            full.truncate(max_per_archive);
            proof {
                assert(bad_file_views(full@) =~= tfull.take(full@.len() as int));
            }
        } else {
            proof {
                assert(bad_file_views(full@) =~= tfull.take(full@.len() as int));
            }
        }
        groups.push((folders[g].clone(), full, cnt));
        g += 1;
    }
    proof {
        assert forall|n2: Seq<char>| #[trigger] folder_in_groups(groups@, n2) == (
        folder_bad_views(files@, line_id@, n2).len() > 0) by {
            if folder_in_groups(groups@, n2) {
                let i = choose|i: int| 0 <= i < groups@.len() && (#[trigger] groups@[i]).0@ == n2;
                assert(folders@[i]@ == n2);
                assert(crate::ranking::name_in_list(folders@, n2));
            }
            if folder_bad_views(files@, line_id@, n2).len() > 0 {
                assert(crate::ranking::name_in_list(folders@, n2));
                let j = choose|j: int|
                    0 <= j < folders@.len() && (#[trigger] folders@[j])@ == n2;
                assert(groups@[j].0@ == n2);
            }
        }
    }
    Some(BadFilesReport { total_count: total, files_by_folder: groups })
}

} // verus!
