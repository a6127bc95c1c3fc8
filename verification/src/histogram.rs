//! Dense color histogram over quantized buckets.
//!
//! The histogram owns one counter per bucket of the quantized color space
//! and a running total. Its invariant: the bucket counts always sum to the
//! total pixel count. Accumulation is commutative — the final state depends
//! only on the multiset of accumulated pixels, never on their order.

use vstd::prelude::*;
use crate::quantize::{
    valid_factor, spec_units, spec_bucket_of, spec_rep_r, spec_rep_g, spec_rep_b, bucket_index,
    units, rep_color, lemma_bucket_of_range,
};

verus! {

/// Sum of a sequence of bucket counts.
pub open spec fn count_sum(s: Seq<usize>) -> int
    decreases s.len(),
{
    if s.len() == 0 {
        0
    } else {
        count_sum(s.drop_last()) + s.last()
    }
}

/// The sum of counts is at least any single count: counts are non-negative.
pub proof fn lemma_count_sum_bounds(s: Seq<usize>, i: int)
    requires
        0 <= i < s.len(),
    ensures
        s[i] <= count_sum(s),
        0 <= count_sum(s),
    decreases s.len(),
{
    if s.len() == 0 {
    } else if i == s.len() - 1 {
        lemma_count_sum_nonneg(s.drop_last());
    } else {
        lemma_count_sum_bounds(s.drop_last(), i);
    }
}

/// The sum of counts is non-negative.
pub proof fn lemma_count_sum_nonneg(s: Seq<usize>)
    ensures
        0 <= count_sum(s),
    decreases s.len(),
{
    if s.len() > 0 {
        lemma_count_sum_nonneg(s.drop_last());
    }
}

/// Replacing one count changes the sum by the difference.
pub proof fn lemma_count_sum_update(s: Seq<usize>, i: int, v: usize)
    requires
        0 <= i < s.len(),
    ensures
        count_sum(s.update(i, v)) == count_sum(s) - s[i] + v,
    decreases s.len(),
{
    if i == s.len() - 1 {
        assert(s.update(i, v).drop_last() =~= s.drop_last());
        assert(s.update(i, v).last() == v);
    } else {
        lemma_count_sum_update(s.drop_last(), i, v);
        assert(s.update(i, v).drop_last() =~= s.drop_last().update(i, v));
        assert(s.update(i, v).last() == s.last());
    }
}

/// An all-zero count sequence sums to zero.
pub proof fn lemma_count_sum_zero(s: Seq<usize>)
    requires
        forall|i: int| 0 <= i < s.len() ==> s[i] == 0,
    ensures
        count_sum(s) == 0,
    decreases s.len(),
{
    if s.len() > 0 {
        lemma_count_sum_zero(s.drop_last());
    }
}

/// One accumulation step: bump the count of bucket `i` by one.
pub open spec fn bump(s: Seq<usize>, i: int) -> Seq<usize> {
    s.update(i, (s[i] + 1) as usize)
}

/// Accumulating a whole pixel sequence, one pixel at a time, in order.
pub open spec fn spec_accumulate(s: Seq<usize>, ps: Seq<(u8, u8, u8)>, f: usize) -> Seq<usize>
    decreases ps.len(),
{
    if ps.len() == 0 {
        s
    } else {
        let p = ps.last();
        bump(spec_accumulate(s, ps.drop_last(), f), spec_bucket_of(p.0 as int, p.1 as int, p.2 as int, f))
    }
}

/// Number of pixels of `ps` that fall into bucket `k`.
pub open spec fn hits(ps: Seq<(u8, u8, u8)>, k: int, f: usize) -> int
    decreases ps.len(),
{
    if ps.len() == 0 {
        0
    } else {
        let p = ps.last();
        hits(ps.drop_last(), k, f) + if spec_bucket_of(p.0 as int, p.1 as int, p.2 as int, f) == k {
            1int
        } else {
            0int
        }
    }
}

/// Hits are non-negative and bounded by the pixel count.
pub proof fn lemma_hits_bounds(ps: Seq<(u8, u8, u8)>, k: int, f: usize)
    ensures
        0 <= hits(ps, k, f) <= ps.len(),
    decreases ps.len(),
{
    if ps.len() > 0 {
        lemma_hits_bounds(ps.drop_last(), k, f);
    }
}

/// Accumulation never changes how many buckets there are.
pub proof fn lemma_accumulate_len(s: Seq<usize>, ps: Seq<(u8, u8, u8)>, f: usize)
    requires
        valid_factor(f),
        s.len() == spec_units(f) * spec_units(f) * spec_units(f),
    ensures
        spec_accumulate(s, ps, f).len() == s.len(),
    decreases ps.len(),
{
    if ps.len() > 0 {
        let p = ps.last();
        lemma_bucket_of_range(p.0 as int, p.1 as int, p.2 as int, f);
        lemma_accumulate_len(s, ps.drop_last(), f);
    }
}

/// Accumulation acts pointwise: each bucket ends at its start count plus the
/// number of pixels that hit it. The final state therefore depends only on
/// how many pixels each bucket receives.
pub proof fn lemma_accumulate_pointwise(s: Seq<usize>, ps: Seq<(u8, u8, u8)>, f: usize, k: int)
    requires
        valid_factor(f),
        forall|i: int| 0 <= i < s.len() ==> s[i] + ps.len() <= usize::MAX,
        s.len() == spec_units(f) * spec_units(f) * spec_units(f),
        0 <= k < s.len(),
    ensures
        spec_accumulate(s, ps, f).len() == s.len(),
        spec_accumulate(s, ps, f)[k] == s[k] + hits(ps, k, f),
    decreases ps.len(),
{
    if ps.len() > 0 {
        let p = ps.last();
        let pk = spec_bucket_of(p.0 as int, p.1 as int, p.2 as int, f);
        lemma_bucket_of_range(p.0 as int, p.1 as int, p.2 as int, f);
        lemma_accumulate_pointwise(s, ps.drop_last(), f, k);
        lemma_accumulate_pointwise(s, ps.drop_last(), f, pk);
        lemma_hits_bounds(ps.drop_last(), pk, f);
        lemma_hits_bounds(ps.drop_last(), k, f);
    }
}

/// Accumulating `ps` raises the total count by exactly `ps.len()`:
/// the sum of bucket counts tracks the number of accumulated pixels.
pub proof fn lemma_accumulate_sum(s: Seq<usize>, ps: Seq<(u8, u8, u8)>, f: usize)
    requires
        valid_factor(f),
        forall|i: int| 0 <= i < s.len() ==> s[i] + ps.len() <= usize::MAX,
        s.len() == spec_units(f) * spec_units(f) * spec_units(f),
    ensures
        count_sum(spec_accumulate(s, ps, f)) == count_sum(s) + ps.len(),
    decreases ps.len(),
{
    if ps.len() > 0 {
        let p = ps.last();
        let pk = spec_bucket_of(p.0 as int, p.1 as int, p.2 as int, f);
        lemma_bucket_of_range(p.0 as int, p.1 as int, p.2 as int, f);
        assert(forall|i: int| 0 <= i < s.len() ==> s[i] + ps.drop_last().len() <= usize::MAX);
        lemma_accumulate_sum(s, ps.drop_last(), f);
        let mid = spec_accumulate(s, ps.drop_last(), f);
        lemma_accumulate_pointwise(s, ps.drop_last(), f, pk);
        lemma_hits_bounds(ps.drop_last(), pk, f);
        lemma_count_sum_update(mid, pk, (mid[pk] + 1) as usize);
    }
}

/// Accumulation is order-independent: two pixel sequences with the same
/// multiset of pixels drive the histogram to the same state.
pub proof fn lemma_accumulate_commutes(
    s: Seq<usize>,
    ps1: Seq<(u8, u8, u8)>,
    ps2: Seq<(u8, u8, u8)>,
    f: usize,
)
    requires
        valid_factor(f),
        forall|i: int| 0 <= i < s.len() ==> s[i] + ps1.len() <= usize::MAX,
        s.len() == spec_units(f) * spec_units(f) * spec_units(f),
        ps1.to_multiset() == ps2.to_multiset(),
    ensures
        spec_accumulate(s, ps1, f) == spec_accumulate(s, ps2, f),
{
    vstd::seq_lib::to_multiset_len(ps1);
    vstd::seq_lib::to_multiset_len(ps2);
    assert(ps1.len() == ps2.len());
    assert forall|k: int| 0 <= k < s.len() implies spec_accumulate(s, ps1, f)[k]
        == spec_accumulate(s, ps2, f)[k] by {
        lemma_accumulate_pointwise(s, ps1, f, k);
        lemma_accumulate_pointwise(s, ps2, f, k);
        lemma_hits_multiset(ps1, ps2, k, f);
    }
    lemma_accumulate_len(s, ps1, f);
    lemma_accumulate_len(s, ps2, f);
    assert(spec_accumulate(s, ps1, f) =~= spec_accumulate(s, ps2, f));
}

/// Removing one pixel from a sequence removes its contribution to `hits`.
proof fn lemma_hits_remove(ps: Seq<(u8, u8, u8)>, j: int, k: int, f: usize)
    requires
        0 <= j < ps.len(),
    ensures
        hits(ps.remove(j), k, f) == hits(ps, k, f) - if spec_bucket_of(
            ps[j].0 as int,
            ps[j].1 as int,
            ps[j].2 as int,
            f,
        ) == k {
            1int
        } else {
            0int
        },
    decreases ps.len(),
{
    if j == ps.len() - 1 {
        assert(ps.remove(j) =~= ps.drop_last());
    } else {
        lemma_hits_remove(ps.drop_last(), j, k, f);
        assert(ps.remove(j).drop_last() =~= ps.drop_last().remove(j));
        assert(ps.remove(j).last() == ps.last());
    }
}

/// Sequences with the same multiset of pixels give every bucket the same
/// number of hits.
proof fn lemma_hits_multiset(ps1: Seq<(u8, u8, u8)>, ps2: Seq<(u8, u8, u8)>, k: int, f: usize)
    requires
        ps1.to_multiset() == ps2.to_multiset(),
    ensures
        hits(ps1, k, f) == hits(ps2, k, f),
    decreases ps1.len(),
{
    broadcast use vstd::seq_lib::group_to_multiset_ensures;

    vstd::seq_lib::to_multiset_len(ps1);
    vstd::seq_lib::to_multiset_len(ps2);
    assert(ps1.len() == ps2.len());
    if ps1.len() > 0 {
        let p = ps1.last();
        assert(ps1.to_multiset().count(p) > 0);
        assert(ps2.to_multiset().count(p) > 0);
        assert(ps2.contains(p));
        let j = choose|j: int| 0 <= j < ps2.len() && ps2[j] == p;
        assert(ps1.drop_last() =~= ps1.remove(ps1.len() - 1));
        assert(ps1.remove(ps1.len() - 1).to_multiset() == ps1.to_multiset().remove(p));
        assert(ps2.remove(j).to_multiset() == ps2.to_multiset().remove(p));
        lemma_hits_multiset(ps1.drop_last(), ps2.remove(j), k, f);
        lemma_hits_remove(ps2, j, k, f);
    }
}

/// One ranked entry: a bucket's count and its representative color, the
/// lower corner of the bucket's cell.
pub type Entry = (usize, u8, u8, u8);

/// Rank order on entries: strictly higher count first; among equal counts,
/// the representative color in row-major (red, then green, then blue) order,
/// which is ascending bucket-index order.
pub open spec fn spec_entry_le(a: Entry, b: Entry) -> bool {
    ||| a.0 > b.0
    ||| (a.0 == b.0 && (a.1 < b.1 || (a.1 == b.1 && (a.2 < b.2 || (a.2 == b.2 && a.3 <= b.3)))))
}

/// The rank order as a relation value, for `sorted_by` and `sort_by`.
pub open spec fn rank_le() -> spec_fn(Entry, Entry) -> bool {
    |a: Entry, b: Entry| spec_entry_le(a, b)
}

/// The rank order is a total order: ranking has exactly one answer.
pub proof fn lemma_rank_le_total()
    ensures
        vstd::relations::total_ordering(rank_le()),
{
    let r = rank_le();
    assert forall|x: Entry| #[trigger] r(x, x) by {}
    assert forall|x: Entry, y: Entry| #[trigger] r(x, y) && #[trigger] r(y, x) implies x == y by {}
    assert forall|x: Entry, y: Entry, z: Entry| #[trigger] r(x, y) && #[trigger] r(y, z) implies r(
        x,
        z,
    ) by {}
    assert forall|x: Entry, y: Entry| !(#[trigger] r(x, y)) implies #[trigger] r(y, x) by {}
}

/// Rank comparison, executable.
fn entry_le(a: &Entry, b: &Entry) -> (r: bool)
    ensures
        r == spec_entry_le(*a, *b),
{
    if a.0 != b.0 {
        a.0 > b.0
    } else if a.1 != b.1 {
        a.1 < b.1
    } else if a.2 != b.2 {
        a.2 < b.2
    } else {
        a.3 <= b.3
    }
}

/// Insertion sort of entries under the rank order: the result is a sorted
/// rearrangement of the input.
fn sort_entries(v: &mut Vec<Entry>)
    ensures
        final(v)@.to_multiset() == old(v)@.to_multiset(),
        vstd::relations::sorted_by(final(v)@, rank_le()),
{
    broadcast use vstd::seq_lib::to_multiset_insert;
    broadcast use vstd::seq_lib::to_multiset_remove;
    broadcast use vstd::seq_lib::to_multiset_contains;
    broadcast use vstd::multiset::group_multiset_axioms;

    let mut i: usize = 0;
    while i < v.len()
        invariant
            i <= v@.len(),
            v@.len() == old(v)@.len(),
            v@.to_multiset() == old(v)@.to_multiset(),
            vstd::relations::sorted_by(v@.take(i as int), rank_le()),
        decreases v@.len() - i,
    {
        let ghost before = v@;
        let x = v.remove(i);
        let ghost pre = v@;
        let mut j: usize = i;
        while j > 0 && !entry_le(&v[j - 1], &x)
            invariant
                j <= i,
                i < before.len(),
                v@ == pre,
                pre == before.remove(i as int),
                forall|k: int| j <= k < i ==> !spec_entry_le(#[trigger] pre[k], x),
            decreases j,
        {
            j = j - 1;
        }
        v.insert(j, x);
        proof {
            // The prefix 0..i of `pre` is the previously sorted prefix.
            assert(forall|k: int| 0 <= k < i ==> pre[k] == before[k]);
            let now = v@;
            assert(now == pre.insert(j as int, x));
            assert forall|a: int, b: int| 0 <= a < b < i + 1 implies #[trigger] rank_le()(
                now[a],
                now[b],
            ) by {
                if b < j {
                    assert(now[a] == pre[a] && now[b] == pre[b]);
                    assert(rank_le()(before[a], before[b]));
                } else if b == j {
                    assert(now[a] == pre[a] && now[b] == x);
                    // a < j, so the scan stopped at an element at most x,
                    // and everything before it is at most that element.
                    assert(spec_entry_le(pre[j - 1], x));
                    if a < j - 1 {
                        assert(rank_le()(before[a], before[j - 1]));
                    }
                } else if a < j {
                    assert(now[a] == pre[a] && now[b] == pre[b - 1]);
                    if b - 1 >= i {
                    } else if j <= b - 1 {
                        // pre[b-1] is above x in the scanned range.
                        assert(!spec_entry_le(pre[b - 1], x));
                        assert(spec_entry_le(pre[j - 1], x));
                        if a < j - 1 {
                            assert(rank_le()(before[a], before[j - 1]));
                        }
                        assert(spec_entry_le(pre[a], x));
                        assert(spec_entry_le(x, pre[b - 1]));
                    }
                } else if a == j {
                    assert(now[a] == x && now[b] == pre[b - 1]);
                    assert(!spec_entry_le(pre[b - 1], x));
                } else {
                    assert(now[a] == pre[a - 1] && now[b] == pre[b - 1]);
                    assert(!spec_entry_le(pre[a - 1], x) && !spec_entry_le(pre[b - 1], x));
                    assert(rank_le()(before[a - 1], before[b - 1]));
                }
            }
            assert(vstd::relations::sorted_by(now.take(i as int + 1), rank_le()));
            // Taking the element out and putting it back is a rearrangement.
            assert(before.contains(x)) by {
                assert(before[i as int] == x);
            }
            vstd::seq_lib::to_multiset_contains(before, x);
            assert(before.to_multiset().count(x) > 0);
            vstd::seq_lib::to_multiset_insert(pre, j as int, x);
            assert(v@.to_multiset() == pre.to_multiset().insert(x));
            vstd::seq_lib::to_multiset_remove(before, i as int);
            assert(pre.to_multiset() == before.to_multiset().remove(x));
            assert(v@.to_multiset() =~= before.to_multiset());
        }
        i = i + 1;
    }
    proof {
        assert(v@.take(v@.len() as int) =~= v@);
    }
}

/// Bucket index a ranked entry's representative color stands for.
pub open spec fn entry_bucket(e: Entry, f: usize) -> int {
    spec_bucket_of(e.1 as int, e.2 as int, e.3 as int, f)
}

/// Row-major order of two bucket indices agrees with the rank order of
/// their representative colors: the tie-break by color is a tie-break by
/// ascending bucket index.
proof fn lemma_color_order_is_index_order(k1: int, k2: int, f: usize)
    requires
        valid_factor(f),
        0 <= k1 < spec_units(f) * spec_units(f) * spec_units(f),
        0 <= k2 < spec_units(f) * spec_units(f) * spec_units(f),
    ensures
        ({
            let lex_le = spec_rep_r(k1, f) < spec_rep_r(k2, f)
                || (spec_rep_r(k1, f) == spec_rep_r(k2, f)
                    && (spec_rep_g(k1, f) < spec_rep_g(k2, f)
                        || (spec_rep_g(k1, f) == spec_rep_g(k2, f)
                            && spec_rep_b(k1, f) <= spec_rep_b(k2, f))));
            lex_le <==> k1 <= k2
        }),
{
    let u = spec_units(f);
    let fi = f as int;
    crate::quantize::lemma_rep_roundtrip(k1, f);
    crate::quantize::lemma_rep_roundtrip(k2, f);
    let a1 = k1 / (u * u);
    let b1 = (k1 / u) % u;
    let c1 = k1 % u;
    let a2 = k2 / (u * u);
    let b2 = (k2 / u) % u;
    let c2 = k2 % u;
    lemma_digit_bounds(k1, f);
    lemma_digit_bounds(k2, f);
    // Multiplying by the positive factor preserves strict order and equality
    // of the digits, so the color comparison is the digit comparison.
    assert forall|x: int, y: int| #![trigger x * fi, y * fi] x < y implies x * fi < y * fi by {
        vstd::arithmetic::mul::lemma_mul_strict_inequality(x, y, fi);
    }
    // Lexicographic digit order is row-major index order.
    if a1 < a2 {
        lemma_digits_lt(a1, b1, c1, a2, b2, c2, u);
    } else if a2 < a1 {
        lemma_digits_lt(a2, b2, c2, a1, b1, c1, u);
    } else if b1 < b2 {
        lemma_digits_lt(a1, b1, c1, a2, b2, c2, u);
    } else if b2 < b1 {
        lemma_digits_lt(a2, b2, c2, a1, b1, c1, u);
    } else if c1 < c2 {
        lemma_digits_lt(a1, b1, c1, a2, b2, c2, u);
    } else if c2 < c1 {
        lemma_digits_lt(a2, b2, c2, a1, b1, c1, u);
    }
}

/// The row-major digits of a bucket index recompose to the index and lie
/// below the per-channel bucket count.
proof fn lemma_digit_bounds(k: int, f: usize)
    requires
        valid_factor(f),
        0 <= k < spec_units(f) * spec_units(f) * spec_units(f),
    ensures
        ({
            let u = spec_units(f);
            &&& 0 <= k / (u * u) < u
            &&& 0 <= (k / u) % u < u
            &&& 0 <= k % u < u
            &&& k == (k / (u * u)) * u * u + ((k / u) % u) * u + k % u
        }),
{
    let u = spec_units(f);
    assert(u * u > 0 && u > 0) by (nonlinear_arith)
        requires
            u > 0,
    ;
    vstd::arithmetic::div_mod::lemma_div_pos_is_pos(k, u * u);
    assert(k < (u * u) * u) by (nonlinear_arith)
        requires
            k < u * u * u,
    ;
    vstd::arithmetic::div_mod::lemma_multiply_divide_lt(k, u * u, u);
    vstd::arithmetic::div_mod::lemma_mod_bound(k / u, u);
    vstd::arithmetic::div_mod::lemma_mod_bound(k, u);
    vstd::arithmetic::div_mod::lemma_fundamental_div_mod(k, u * u);
    vstd::arithmetic::div_mod::lemma_breakdown(k, u, u);
    assert((u * u) * (k / (u * u)) == (k / (u * u)) * u * u && u * ((k / u) % u) == ((k / u) % u)
        * u) by (nonlinear_arith);
}

/// Strict lexicographic order of row-major digits gives strict order of the
/// composed indices.
proof fn lemma_digits_lt(a1: int, b1: int, c1: int, a2: int, b2: int, c2: int, u: int)
    requires
        0 < u,
        0 <= a1 < u,
        0 <= b1 < u,
        0 <= c1 < u,
        0 <= a2 < u,
        0 <= b2 < u,
        0 <= c2 < u,
        a1 < a2 || (a1 == a2 && b1 < b2) || (a1 == a2 && b1 == b2 && c1 < c2),
    ensures
        a1 * u * u + b1 * u + c1 < a2 * u * u + b2 * u + c2,
{
    assert(a1 * u * u + b1 * u + c1 < a2 * u * u + b2 * u + c2) by (nonlinear_arith)
        requires
            0 < u,
            0 <= a1 < u,
            0 <= b1 < u,
            0 <= c1 < u,
            0 <= a2 < u,
            0 <= b2 < u,
            0 <= c2 < u,
            a1 < a2 || (a1 == a2 && b1 < b2) || (a1 == a2 && b1 == b2 && c1 < c2),
    ;
}

/// Dense histogram: one counter per bucket, plus the total pixel count and
/// the reduction factor the bucket space was built from.
pub struct Histogram {
    pub counts: Vec<usize>,
    pub pixels: usize,
    pub reduction: usize,
}

impl Histogram {
    /// Well-formedness: the factor is valid, there is one counter per bucket
    /// of the quantized space, and the counters sum to the total pixel count.
    pub open spec fn wf(self) -> bool {
        &&& valid_factor(self.reduction)
        &&& self.counts@.len() == spec_units(self.reduction) * spec_units(self.reduction)
            * spec_units(self.reduction)
        &&& count_sum(self.counts@) == self.pixels
    }

    /// Fresh histogram over the bucket space of reduction factor `f`:
    /// all counters zero, total zero.
    pub fn new(f: usize) -> (h: Histogram)
        requires
            valid_factor(f),
        ensures
            h.wf(),
            h.reduction == f,
            h.pixels == 0,
            h.counts@.len() == spec_units(f) * spec_units(f) * spec_units(f),
            forall|i: int| 0 <= i < h.counts@.len() ==> h.counts@[i] == 0,
    {
        let u = units(f);
        proof {
            let ui = spec_units(f);
            assert(u * u * u == ui * ui * ui && u * u <= 256 * 256 && u * u * u <= 256 * 256
                * 256) by (nonlinear_arith)
                requires
                    u == ui,
                    0 < u <= 256,
            ;
        }
        let counts = vec![0usize; u * u * u];
        proof {
            lemma_count_sum_zero(counts@);
        }
        Histogram { counts, pixels: 0, reduction: f }
    }

    /// Accumulate one pixel: bump the counter of its bucket and the total,
    /// and nothing else.
    pub fn add(&mut self, r: u8, g: u8, b: u8)
        requires
            old(self).wf(),
            old(self).pixels < usize::MAX,
        ensures
            final(self).wf(),
            final(self).reduction == old(self).reduction,
            final(self).pixels == old(self).pixels + 1,
            final(self).counts@ == bump(
                old(self).counts@,
                spec_bucket_of(r as int, g as int, b as int, old(self).reduction),
            ),
    {
        let pos = bucket_index(r, g, b, self.reduction);
        proof {
            lemma_count_sum_bounds(self.counts@, pos as int);
            lemma_count_sum_update(
                self.counts@,
                pos as int,
                (self.counts@[pos as int] + 1) as usize,
            );
        }
        let c = self.counts[pos];
        self.counts[pos] = c + 1;
        self.pixels = self.pixels + 1;
    }

    /// Accumulate every pixel of a decoded image, in order.
    pub fn add_all(&mut self, ps: &Vec<(u8, u8, u8)>)
        requires
            old(self).wf(),
            old(self).pixels + ps@.len() <= usize::MAX,
        ensures
            final(self).wf(),
            final(self).reduction == old(self).reduction,
            final(self).pixels == old(self).pixels + ps@.len(),
            final(self).counts@ == spec_accumulate(old(self).counts@, ps@, old(self).reduction),
    {
        let ghost s0 = self.counts@;
        let ghost f = self.reduction;
        let mut i: usize = 0;
        while i < ps.len()
            invariant
                i <= ps@.len(),
                self.wf(),
                self.reduction == f,
                self.pixels == old(self).pixels + i,
                old(self).pixels + ps@.len() <= usize::MAX,
                old(self).wf(),
                s0 == old(self).counts@,
                self.counts@ == spec_accumulate(s0, ps@.take(i as int), f),
            decreases ps@.len() - i,
        {
            let p = ps[i];
            proof {
                assert(ps@.take(i as int + 1).drop_last() =~= ps@.take(i as int));
                assert(ps@.take(i as int + 1).last() == ps@[i as int]);
            }
            self.add(p.0, p.1, p.2);
            i = i + 1;
        }
        proof {
            assert(ps@.take(ps@.len() as int) =~= ps@);
        }
    }

    /// Entry of bucket `k`: its count and its representative color.
    pub open spec fn spec_entry(self, k: int) -> Entry {
        (
            self.counts@[k],
            spec_rep_r(k, self.reduction) as u8,
            spec_rep_g(k, self.reduction) as u8,
            spec_rep_b(k, self.reduction) as u8,
        )
    }

    /// All bucket entries, zero counts included, in bucket-index order.
    pub open spec fn spec_entries(self) -> Seq<Entry> {
        Seq::new(self.counts@.len(), |k: int| self.spec_entry(k))
    }

    /// The ranked sequence: every bucket's entry, sorted by descending
    /// count, ties by ascending bucket index.
    pub open spec fn spec_ranked(self) -> Seq<Entry> {
        self.spec_entries().sort_by(rank_le())
    }

    /// The ranked extraction: one entry per bucket of the whole space,
    /// zero counts included, in rank order.
    pub fn histo(&self) -> (r: Vec<Entry>)
        requires
            self.wf(),
        ensures
            r@ == self.spec_ranked(),
            r@.len() == spec_units(self.reduction) * spec_units(self.reduction) * spec_units(
                self.reduction,
            ),
            r@.to_multiset() == self.spec_entries().to_multiset(),
            vstd::relations::sorted_by(r@, rank_le()),
    {
        let u = units(self.reduction);
        proof {
            let ui = spec_units(self.reduction);
            assert(u * u * u == ui * ui * ui && u * u <= 256 * 256 && u * u * u <= 256 * 256
                * 256) by (nonlinear_arith)
                requires
                    u == ui,
                    0 < u <= 256,
            ;
        }
        let n = u * u * u;
        let mut v: Vec<Entry> = Vec::new();
        let mut k: usize = 0;
        while k < n
            invariant
                k <= n,
                n == self.counts@.len(),
                self.wf(),
                v@.len() == k,
                forall|t: int| 0 <= t < k ==> v@[t] == self.spec_entry(t),
            decreases n - k,
        {
            let c = self.counts[k];
            let rep = rep_color(k, self.reduction);
            proof {
                crate::quantize::lemma_rep_roundtrip(k as int, self.reduction);
            }
            v.push((c, rep.0, rep.1, rep.2));
            k = k + 1;
        }
        assert(v@ =~= self.spec_entries());
        sort_entries(&mut v);
        proof {
            lemma_rank_le_total();
            self.spec_entries().lemma_sort_by_ensures(rank_le());
            vstd::seq_lib::lemma_sorted_unique(v@, self.spec_ranked(), rank_le());
            vstd::seq_lib::to_multiset_len(self.spec_ranked());
            vstd::seq_lib::to_multiset_len(self.spec_entries());
        }
        v
    }

    /// Every ranked entry is the entry of the bucket its representative
    /// color stands for, and the ranked sequence covers the whole space.
    pub proof fn lemma_ranked_entry_bucket(self, i: int)
        requires
            self.wf(),
            0 <= i < self.spec_ranked().len(),
        ensures
            self.spec_ranked().len() == self.counts@.len(),
            ({
                let e = self.spec_ranked()[i];
                let k = entry_bucket(e, self.reduction);
                &&& 0 <= k < self.counts@.len()
                &&& e == self.spec_entry(k)
            }),
    {
        broadcast use vstd::seq_lib::to_multiset_contains;

        let f = self.reduction;
        let ranked = self.spec_ranked();
        let entries = self.spec_entries();
        lemma_rank_le_total();
        entries.lemma_sort_by_ensures(rank_le());
        vstd::seq_lib::to_multiset_len(ranked);
        vstd::seq_lib::to_multiset_len(entries);
        let e = ranked[i];
        assert(ranked.contains(e));
        assert(entries.to_multiset().count(e) > 0);
        assert(entries.contains(e));
        let k = choose|k: int| 0 <= k < entries.len() && entries[k] == e;
        crate::quantize::lemma_rep_roundtrip(k, f);
        assert(e.1 as int == spec_rep_r(k, f) && e.2 as int == spec_rep_g(k, f) && e.3 as int
            == spec_rep_b(k, f));
        assert(entry_bucket(e, f) == k);
    }

    /// Every bucket's entry appears exactly once, both in index order and
    /// in the ranked sequence.
    pub proof fn lemma_entries_no_duplicates(self)
        requires
            self.wf(),
        ensures
            self.spec_entries().no_duplicates(),
            self.spec_ranked().no_duplicates(),
    {
        let f = self.reduction;
        let entries = self.spec_entries();
        assert forall|k1: int, k2: int|
            0 <= k1 < entries.len() && 0 <= k2 < entries.len() && k1 != k2 implies entries[k1]
            != entries[k2] by {
            crate::quantize::lemma_rep_roundtrip(k1, f);
            crate::quantize::lemma_rep_roundtrip(k2, f);
            if entries[k1] == entries[k2] {
                // Equal entries share their representative color, and a
                // representative color maps back to a single bucket index.
                assert(spec_rep_r(k1, f) == spec_rep_r(k2, f) && spec_rep_g(k1, f) == spec_rep_g(
                    k2,
                    f,
                ) && spec_rep_b(k1, f) == spec_rep_b(k2, f));
                assert(k1 == k2);
            }
        }
        entries.lemma_multiset_has_no_duplicates();
        lemma_rank_le_total();
        entries.lemma_sort_by_ensures(rank_le());
        self.spec_ranked().lemma_multiset_has_no_duplicates_conv();
    }

    /// The ranked sequence is ordered by non-increasing count; among equal
    /// counts, by strictly ascending bucket index. Ranking is deterministic.
    pub proof fn lemma_ranked_order(self, i: int, j: int)
        requires
            self.wf(),
            0 <= i < j < self.spec_ranked().len(),
        ensures
            self.spec_ranked()[i].0 >= self.spec_ranked()[j].0,
            self.spec_ranked()[i].0 == self.spec_ranked()[j].0 ==> entry_bucket(
                self.spec_ranked()[i],
                self.reduction,
            ) < entry_bucket(self.spec_ranked()[j], self.reduction),
    {
        let f = self.reduction;
        let ranked = self.spec_ranked();
        lemma_rank_le_total();
        self.spec_entries().lemma_sort_by_ensures(rank_le());
        assert(rank_le()(ranked[i], ranked[j]));
        assert(spec_entry_le(ranked[i], ranked[j]));
        self.lemma_ranked_entry_bucket(i);
        self.lemma_ranked_entry_bucket(j);
        self.lemma_entries_no_duplicates();
        let k1 = entry_bucket(ranked[i], f);
        let k2 = entry_bucket(ranked[j], f);
        crate::quantize::lemma_rep_roundtrip(k1, f);
        crate::quantize::lemma_rep_roundtrip(k2, f);
        if ranked[i].0 == ranked[j].0 {
            lemma_color_order_is_index_order(k1, k2, f);
            // Distinct positions hold distinct entries, and entries with the
            // same bucket index are the same entry.
            assert(ranked[i] != ranked[j]);
            assert(k1 != k2) by {
                if k1 == k2 {
                    assert(ranked[i] == self.spec_entry(k1) && ranked[j] == self.spec_entry(k2));
                }
            }
        }
    }

    /// Accumulate the pixels of one decode attempt: a failed decode
    /// (`None`) is skipped and leaves the histogram untouched.
    pub fn add_decoded(&mut self, decoded: &Option<Vec<(u8, u8, u8)>>)
        requires
            old(self).wf(),
            match *decoded {
                Some(ps) => old(self).pixels + ps@.len() <= usize::MAX,
                None => true,
            },
        ensures
            final(self).wf(),
            final(self).reduction == old(self).reduction,
            match *decoded {
                Some(ps) => final(self).pixels == old(self).pixels + ps@.len()
                    && final(self).counts@ == spec_accumulate(old(self).counts@, ps@, old(self).reduction),
                None => *final(self) == *old(self),
            },
    {
        match decoded {
            Some(ps) => self.add_all(ps),
            None => {},
        }
    }
}

} // verus!
