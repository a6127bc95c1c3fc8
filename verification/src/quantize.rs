//! Quantization of 8-bit RGB triples into coarse color buckets.
//!
//! A reduction factor `f` (positive, dividing 256) splits each channel's
//! 0..256 range into `256 / f` cells of width `f`. The three per-channel
//! cell coordinates are combined row-major (red-major, then green, then
//! blue) into a single linear bucket index.

use vstd::prelude::*;

verus! {

/// A valid reduction factor: positive and dividing 256 evenly.
pub open spec fn valid_factor(f: usize) -> bool {
    0 < f <= 256 && 256int % (f as int) == 0
}

/// Number of buckets per channel for factor `f`.
pub open spec fn spec_units(f: usize) -> int {
    256int / (f as int)
}

/// Number of buckets per channel, executable.
pub fn units(f: usize) -> (u: usize)
    requires
        valid_factor(f),
    ensures
        u == spec_units(f),
        1 <= u <= 256,
{
    proof {
        vstd::arithmetic::div_mod::lemma_div_is_ordered_by_denominator(256, f as int, 256);
        vstd::arithmetic::div_mod::lemma_div_is_ordered_by_denominator(256, 1, f as int);
        vstd::arithmetic::div_mod::lemma_div_by_self(f as int);
        vstd::arithmetic::div_mod::lemma_div_basics(256);
    }
    256 / f
}

/// Per-channel bucket coordinate of channel value `c`.
pub open spec fn chan_bucket(c: int, f: usize) -> int {
    c / (f as int)
}

/// Row-major linear bucket index of an RGB triple.
pub open spec fn spec_bucket_of(r: int, g: int, b: int, f: usize) -> int {
    let u = spec_units(f);
    chan_bucket(r, f) * u * u + chan_bucket(g, f) * u + chan_bucket(b, f)
}

/// A channel bucket coordinate lies below the per-channel bucket count.
proof fn lemma_chan_bucket_range(c: int, f: usize)
    requires
        valid_factor(f),
        0 <= c < 256,
    ensures
        0 <= chan_bucket(c, f) < spec_units(f),
{
    let fi = f as int;
    let u = spec_units(f);
    assert(fi * u == 256) by {
        vstd::arithmetic::div_mod::lemma_fundamental_div_mod(256, fi);
    };
    assert(0 <= c / fi) by {
        vstd::arithmetic::div_mod::lemma_div_pos_is_pos(c, fi);
    };
    assert(c / fi < u) by {
        vstd::arithmetic::div_mod::lemma_multiply_divide_lt(c, fi, u);
    };
}

/// The linear index lies below the total bucket count `u^3`.
pub proof fn lemma_bucket_of_range(r: int, g: int, b: int, f: usize)
    requires
        valid_factor(f),
        0 <= r < 256,
        0 <= g < 256,
        0 <= b < 256,
    ensures
        0 <= spec_bucket_of(r, g, b, f) < spec_units(f) * spec_units(f) * spec_units(f),
{
    let u = spec_units(f);
    lemma_chan_bucket_range(r, f);
    lemma_chan_bucket_range(g, f);
    lemma_chan_bucket_range(b, f);
    let cr = chan_bucket(r, f);
    let cg = chan_bucket(g, f);
    let cb = chan_bucket(b, f);
    assert(cr * u * u + cg * u + cb < u * u * u) by (nonlinear_arith)
        requires
            0 <= cr < u,
            0 <= cg < u,
            0 <= cb < u,
    ;
    assert(0 <= cr * u * u + cg * u + cb) by (nonlinear_arith)
        requires
            0 <= cr,
            0 <= cg,
            0 <= cb,
            0 < u,
    ;
}

/// Linear bucket index of an RGB pixel, executable.
pub fn bucket_index(r: u8, g: u8, b: u8, f: usize) -> (idx: usize)
    requires
        valid_factor(f),
    ensures
        idx == spec_bucket_of(r as int, g as int, b as int, f),
        idx < spec_units(f) * spec_units(f) * spec_units(f),
{
    proof {
        lemma_bucket_of_range(r as int, g as int, b as int, f);
        lemma_chan_bucket_range(r as int, f);
        lemma_chan_bucket_range(g as int, f);
        lemma_chan_bucket_range(b as int, f);
        let u = spec_units(f);
        assert(u * u <= 256 * 256 && u * u * u <= 256 * 256 * 256) by (nonlinear_arith)
            requires
                0 < u <= 256,
        ;
        let cr = chan_bucket(r as int, f);
        let cg = chan_bucket(g as int, f);
        let cb = chan_bucket(b as int, f);
        assert(cr * u * u + cg * u + cb < u * u * u);
        assert(cr * u <= 256 * 256 && cr * u * u <= 256 * 256 * 256 && cg * u <= 256 * 256)
            by (nonlinear_arith)
            requires
                0 <= cr < u,
                0 <= cg < u,
                u <= 256,
        ;
    }
    let u = units(f);
    r as usize / f * u * u + g as usize / f * u + b as usize / f
}

/// Red representative (cell lower corner) of bucket `idx`.
pub open spec fn spec_rep_r(idx: int, f: usize) -> int {
    let u = spec_units(f);
    idx / (u * u) * (f as int)
}

/// Green representative (cell lower corner) of bucket `idx`.
pub open spec fn spec_rep_g(idx: int, f: usize) -> int {
    let u = spec_units(f);
    (idx / u) % u * (f as int)
}

/// Blue representative (cell lower corner) of bucket `idx`.
pub open spec fn spec_rep_b(idx: int, f: usize) -> int {
    let u = spec_units(f);
    idx % u * (f as int)
}

/// Composing per-channel coordinates row-major and taking the index apart
/// again are mutually inverse: the quantizer is a bijection between the
/// coordinate space and the index range.
proof fn lemma_compose_decompose(a: int, b: int, c: int, f: usize)
    requires
        valid_factor(f),
        0 <= a < spec_units(f),
        0 <= b < spec_units(f),
        0 <= c < spec_units(f),
    ensures
        ({
            let u = spec_units(f);
            let k = a * u * u + b * u + c;
            &&& 0 <= k < u * u * u
            &&& k / (u * u) == a
            &&& (k / u) % u == b
            &&& k % u == c
        }),
{
    let u = spec_units(f);
    let k = a * u * u + b * u + c;
    assert(a * u * u == a * (u * u) && 0 <= a * (u * u) && 0 <= b * u) by (nonlinear_arith)
        requires
            0 <= a,
            0 <= b,
            0 < u,
    ;
    vstd::arithmetic::mul::lemma_mul_inequality(a, u - 1, u * u);
    vstd::arithmetic::mul::lemma_mul_inequality(b, u - 1, u);
    assert((u - 1) * (u * u) + (u - 1) * u + (u - 1) == u * u * u - 1) by (nonlinear_arith);
    assert(0 <= k < u * u * u);
    assert(0 <= b * u + c < u * u && a * u * u == a * (u * u)) by (nonlinear_arith)
        requires
            0 <= b < u,
            0 <= c < u,
    ;
    assert(u * u > 0) by (nonlinear_arith)
        requires
            u > 0,
    ;
    vstd::arithmetic::div_mod::lemma_fundamental_div_mod_converse(k, u * u, a, b * u + c);
    assert(k / (u * u) == a);
    assert(k == (a * u + b) * u + c && a * u + b >= 0) by (nonlinear_arith)
        requires
            k == a * u * u + b * u + c,
            0 <= a,
            0 <= b,
            u > 0,
    ;
    vstd::arithmetic::div_mod::lemma_fundamental_div_mod_converse(k, u, a * u + b, c);
    assert(k / u == a * u + b);
    assert(k % u == c);
    vstd::arithmetic::div_mod::lemma_fundamental_div_mod_converse(a * u + b, u, a, b);
    assert((k / u) % u == b);
}

/// Mapping a bucket index to its representative color and quantizing that
/// color again yields the same index, and each representative channel is a
/// multiple of `f` below 256: the index range and the coordinate space are
/// in bijection.
pub proof fn lemma_rep_roundtrip(idx: int, f: usize)
    requires
        valid_factor(f),
        0 <= idx < spec_units(f) * spec_units(f) * spec_units(f),
    ensures
        spec_bucket_of(spec_rep_r(idx, f), spec_rep_g(idx, f), spec_rep_b(idx, f), f) == idx,
        0 <= spec_rep_r(idx, f) < 256,
        0 <= spec_rep_g(idx, f) < 256,
        0 <= spec_rep_b(idx, f) < 256,
        spec_rep_r(idx, f) % (f as int) == 0,
        spec_rep_g(idx, f) % (f as int) == 0,
        spec_rep_b(idx, f) % (f as int) == 0,
{
    let u = spec_units(f);
    let fi = f as int;
    assert(fi * u == 256) by {
        vstd::arithmetic::div_mod::lemma_fundamental_div_mod(256, fi);
    };
    let a = idx / (u * u);
    let b = (idx / u) % u;
    let c = idx % u;
    // a, b, c are the row-major digits of idx in base u.
    assert(u * u > 0 && u > 0) by (nonlinear_arith)
        requires
            u > 0,
    ;
    assert(0 <= a < u) by {
        vstd::arithmetic::div_mod::lemma_div_pos_is_pos(idx, u * u);
        assert(idx < (u * u) * u) by (nonlinear_arith)
            requires
                idx < u * u * u,
        ;
        vstd::arithmetic::div_mod::lemma_multiply_divide_lt(idx, u * u, u);
    };
    assert(0 <= b < u) by {
        vstd::arithmetic::div_mod::lemma_mod_bound((idx / u), u);
    };
    assert(0 <= c < u) by {
        vstd::arithmetic::div_mod::lemma_mod_bound(idx, u);
    };
    lemma_compose_decompose(a, b, c, f);
    // The digits recompose to idx itself.
    assert(idx == a * u * u + b * u + c) by {
        vstd::arithmetic::div_mod::lemma_fundamental_div_mod(idx, u * u);
        vstd::arithmetic::div_mod::lemma_breakdown(idx, u, u);
        assert((u * u) * a == a * u * u && u * b == b * u) by (nonlinear_arith);
    };
    // Each representative channel quantizes back to its digit.
    lemma_rep_channel(a, f);
    lemma_rep_channel(b, f);
    lemma_rep_channel(c, f);
}

/// A representative channel value `i * f` lies in `[0, 256)`, is a multiple
/// of `f`, and quantizes back to coordinate `i`.
proof fn lemma_rep_channel(i: int, f: usize)
    requires
        valid_factor(f),
        0 <= i < spec_units(f),
    ensures
        0 <= i * (f as int) < 256,
        chan_bucket(i * (f as int), f) == i,
        (i * (f as int)) % (f as int) == 0,
{
    let u = spec_units(f);
    let fi = f as int;
    assert(fi * u == 256) by {
        vstd::arithmetic::div_mod::lemma_fundamental_div_mod(256, fi);
    };
    assert(0 <= i * fi && i * fi + fi <= 256) by (nonlinear_arith)
        requires
            0 <= i < u,
            fi > 0,
            fi * u == 256,
    ;
    assert(i * fi == i * fi + 0);
    vstd::arithmetic::div_mod::lemma_fundamental_div_mod_converse(i * fi, fi, i, 0);
}

/// Every channel value in the cell `[i * f, (i + 1) * f)` maps to the same
/// per-channel coordinate `i`.
pub proof fn lemma_cell_maps_to_bucket(c: int, i: int, f: usize)
    requires
        valid_factor(f),
        0 <= i < spec_units(f),
        i * (f as int) <= c < (i + 1) * (f as int),
    ensures
        chan_bucket(c, f) == i,
{
    let fi = f as int;
    assert(c == i * fi + (c - i * fi) && 0 <= c - i * fi < fi) by (nonlinear_arith)
        requires
            i * fi <= c < (i + 1) * fi,
            fi > 0,
    ;
    vstd::arithmetic::div_mod::lemma_fundamental_div_mod_converse(c, fi, i, c - i * fi);
}

/// Quantizing a pixel and mapping the bucket back yields the lower corner
/// of the pixel's cell: `inverse(forward(p))` is the representative that
/// `p`'s whole cell shares.
pub proof fn lemma_pixel_rep(r: int, g: int, b: int, f: usize)
    requires
        valid_factor(f),
        0 <= r < 256,
        0 <= g < 256,
        0 <= b < 256,
    ensures
        spec_rep_r(spec_bucket_of(r, g, b, f), f) == chan_bucket(r, f) * (f as int),
        spec_rep_g(spec_bucket_of(r, g, b, f), f) == chan_bucket(g, f) * (f as int),
        spec_rep_b(spec_bucket_of(r, g, b, f), f) == chan_bucket(b, f) * (f as int),
{
    lemma_chan_bucket_range(r, f);
    lemma_chan_bucket_range(g, f);
    lemma_chan_bucket_range(b, f);
    lemma_compose_decompose(chan_bucket(r, f), chan_bucket(g, f), chan_bucket(b, f), f);
}

/// Representative color of a bucket index, executable.
pub fn rep_color(idx: usize, f: usize) -> (c: (u8, u8, u8))
    requires
        valid_factor(f),
        idx < spec_units(f) * spec_units(f) * spec_units(f),
    ensures
        c.0 as int == spec_rep_r(idx as int, f),
        c.1 as int == spec_rep_g(idx as int, f),
        c.2 as int == spec_rep_b(idx as int, f),
{
    proof {
        lemma_rep_roundtrip(idx as int, f);
        let u = spec_units(f);
        assert(1 <= u * u <= 256 * 256 && u * u * u <= 256 * 256 * 256) by (nonlinear_arith)
            requires
                0 < u <= 256,
        ;
        assert(idx as int / (u * u) <= u && idx as int / u >= 0) by {
            vstd::arithmetic::div_mod::lemma_div_pos_is_pos(idx as int, u);
            vstd::arithmetic::div_mod::lemma_div_pos_is_pos(idx as int, u * u);
            vstd::arithmetic::div_mod::lemma_multiply_divide_le(idx as int, u * u, u);
        };
        assert((idx as int / u) % u >= 0 && idx as int % u >= 0) by {
            vstd::arithmetic::div_mod::lemma_mod_bound(idx as int / u, u);
            vstd::arithmetic::div_mod::lemma_mod_bound(idx as int, u);
        };
    }
    let u = units(f);
    let r = idx / (u * u) * f;
    let g = idx / u % u * f;
    let b = idx % u * f;
    (r as u8, g as u8, b as u8)
}

} // verus!
