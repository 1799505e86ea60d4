//! The transform engine.

use vstd::prelude::*;
use vstd::arithmetic::div_mod::{
    lemma_div_denominator, lemma_fundamental_div_mod, lemma_fundamental_div_mod_converse,
    lemma_mod_multiples_basic, lemma_small_mod,
};
use vstd::arithmetic::power2::{lemma2_to64, lemma_pow2_adds, lemma_pow2_pos, pow2};
use crate::float::Float;
use crate::wavelet::{Wavelet, WaveletModel};
use crate::{Error, Operation};

verus! {

/// The base index of the circular convolution for sub-length `n`: a
/// non-negative stand-in for `-offset` modulo `n`, chosen large enough that
/// `2 * i + base + j` never goes below zero before the modulo reduction.
pub open spec fn base_offset<T>(w: WaveletModel<T>, n: int) -> int {
    w.length * n - w.offset
}

/// The circularly indexed filter sum
/// `zero + coef[0] * data[(base + 0) % n] + ... + coef[taps - 1] * data[(base + taps - 1) % n]`,
/// accumulated left to right.
pub open spec fn dot<T: Float>(coef: Seq<T>, data: Seq<T>, base: int, n: int, taps: int) -> T
    decreases taps,
{
    if taps <= 0 {
        T::zero_spec()
    } else {
        dot(coef, data, base, n, taps - 1).add_spec(
            coef[taps - 1].mul_spec(data[(base + taps - 1) % n]),
        )
    }
}

/// One forward pass over the first `n` positions: position `i` of the first
/// half receives the low-pass filter sum at `2 * i`, position `i` of the
/// second half the high-pass filter sum at the same base, and everything at
/// `n` and beyond is left as it was.
pub open spec fn forward_step_spec<T: Float>(w: WaveletModel<T>, d: Seq<T>, n: int) -> Seq<T> {
    let nh = n / 2;
    let nm = base_offset(w, n);
    Seq::new(
        d.len(),
        |k: int|
            if 0 <= k < nh {
                dot(w.dec_lo, d, 2 * k + nm, n, w.length as int)
            } else if nh <= k < n {
                dot(w.dec_hi, d, 2 * (k - nh) + nm, n, w.length as int)
            } else {
                d[k]
            },
    )
}

/// One reconstruction contribution: a scratch cell after the approximation
/// sample `h` and the detail sample `g` have been spread onto it through
/// tap `j` of the reconstruction filters.
pub open spec fn inverse_tap<T: Float>(w: WaveletModel<T>, cell: T, h: T, g: T, j: int) -> T {
    cell.add_spec(w.rec_lo[j].mul_spec(h)).add_spec(w.rec_hi[j].mul_spec(g))
}

/// The scratch state after the pair at input index `i` has been spread
/// through the first `taps` reconstruction taps, starting from state `s`.
pub open spec fn inverse_taps<T: Float>(
    w: WaveletModel<T>,
    d: Seq<T>,
    s: Seq<T>,
    n: int,
    i: int,
    taps: int,
) -> Seq<T>
    decreases taps,
{
    if taps <= 0 {
        s
    } else {
        let s1 = inverse_taps(w, d, s, n, i, taps - 1);
        let k = (2 * i + base_offset(w, n) + taps - 1) % n;
        s1.update(k, inverse_tap(w, s1[k], d[i], d[i + n / 2], taps - 1))
    }
}

/// The scratch state after the first `i` approximation/detail pairs have
/// been spread onto it, starting from state `s`.
pub open spec fn inverse_accum<T: Float>(
    w: WaveletModel<T>,
    d: Seq<T>,
    s: Seq<T>,
    n: int,
    i: int,
) -> Seq<T>
    decreases i,
{
    if i <= 0 {
        s
    } else {
        inverse_taps(w, d, inverse_accum(w, d, s, n, i - 1), n, i - 1, w.length as int)
    }
}

/// The sequence `d` with its first `n` entries replaced by the additive
/// identity.
pub open spec fn zeroed_prefix<T: Float>(d: Seq<T>, n: int) -> Seq<T> {
    Seq::new(d.len(), |k: int| if 0 <= k < n { T::zero_spec() } else { d[k] })
}

/// One inverse pass over the first `n` positions: every pair
/// `(d[i], d[i + n / 2])` spreads its contribution circularly across the
/// reconstruction filters into a freshly zeroed prefix, and everything at
/// `n` and beyond is left as it was.
pub open spec fn inverse_step_spec<T: Float>(w: WaveletModel<T>, d: Seq<T>, n: int) -> Seq<T> {
    inverse_accum(w, d, zeroed_prefix(d, n), n, n / 2)
}

/// The machine-size bound under which every index computed by a step on a
/// buffer of length `len` stays within `usize`.
pub open spec fn fits(taps: int, len: int) -> bool {
    taps * len + taps + 2 * len <= usize::MAX as int
}

/// The bound of `fits` survives shrinking the buffer.
proof fn lemma_fits_shrink(taps: int, n: int, len: int)
    requires
        0 <= taps,
        0 <= n <= len,
        fits(taps, len),
    ensures
        fits(taps, n),
{
    assert(taps * n <= taps * len) by (nonlinear_arith)
        requires
            0 <= taps,
            n <= len,
    ;
}

/// Replace the first `n` elements of `buffer` with the additive identity.
fn zero_prefix<T: Float>(buffer: &mut Vec<T>, n: usize)
    requires
        n <= old(buffer).len(),
    ensures
        final(buffer).len() == old(buffer).len(),
        forall|k: int| 0 <= k < n ==> final(buffer)@[k] == T::zero_spec(),
        forall|k: int| n <= k < final(buffer).len() ==> final(buffer)@[k] == old(buffer)@[k],
{
    let mut idx: usize = 0;
    while idx < n
        invariant
            idx <= n <= buffer.len(),
            buffer.len() == old(buffer).len(),
            forall|k: int| 0 <= k < idx ==> buffer@[k] == T::zero_spec(),
            forall|k: int| idx <= k < buffer.len() ==> buffer@[k] == old(buffer)@[k],
        decreases n - idx,
    {
        buffer.set(idx, T::zero());
        idx = idx + 1;
    }
}

/// Copy the first `n` elements of `source` over the first `n` elements of
/// `destination`.
fn copy_prefix<T: Copy>(destination: &mut Vec<T>, source: &Vec<T>, n: usize)
    requires
        n <= old(destination).len(),
        n <= source.len(),
    ensures
        final(destination).len() == old(destination).len(),
        forall|k: int| 0 <= k < n ==> final(destination)@[k] == source@[k],
        forall|k: int| n <= k < final(destination).len() ==> final(destination)@[k] == old(destination)@[k],
{
    let mut idx: usize = 0;
    while idx < n
        invariant
            idx <= n <= destination.len(),
            n <= source.len(),
            destination.len() == old(destination).len(),
            forall|k: int| 0 <= k < idx ==> destination@[k] == source@[k],
            forall|k: int| idx <= k < destination.len() ==> destination@[k] == old(destination)@[k],
        decreases n - idx,
    {
        destination.set(idx, source[idx]);
        idx = idx + 1;
    }
}

/// Apply one forward (analysis) pass to `data[0..n]`, using `work` as the
/// scratch buffer.
pub fn forward_step<T: Float>(data: &mut Vec<T>, wavelet: &Wavelet<T>, n: usize, work: &mut Vec<T>)
    requires
        wavelet@.valid(),
        0 < n,
        n % 2 == 0,
        n <= old(data).len(),
        n <= old(work).len(),
        fits(wavelet@.length as int, n as int),
    ensures
        final(data).len() == old(data).len(),
        final(work).len() == old(work).len(),
        final(data)@ == forward_step_spec(wavelet@, old(data)@, n as int),
        forall|k: int| 0 <= k < n ==> final(work)@[k] == final(data)@[k],
        forall|k: int| n <= k < final(work).len() ==> final(work)@[k] == old(work)@[k],
{
    let ghost d0 = data@;
    let ghost wm = wavelet@;
    let ghost taps = wavelet@.length as int;
    zero_prefix(work, n);
    proof {
        assert(taps <= taps * (n as int) && 0 <= taps * (n as int)) by (nonlinear_arith)
            requires
                0 <= taps,
                1 <= n as int,
        ;
    }
    let nm = wavelet.length * n - wavelet.offset;
    let nh = n / 2;
    assert(2 * (nh as int) == n as int);
    let mut i: usize = 0;
    while i < nh
        invariant
            wavelet@ == wm,
            wm.valid(),
            0 < n,
            2 * (nh as int) == n as int,
            nm as int == base_offset(wm, n as int),
            fits(taps, n as int),
            taps == wm.length as int,
            data@ == d0,
            n <= data.len(),
            n <= work.len(),
            work.len() == old(work).len(),
            i <= nh,
            forall|k: int| 0 <= k < i ==> work@[k] == dot(wm.dec_lo, d0, 2 * k + nm, n as int, taps),
            forall|k: int| i <= k < nh ==> work@[k] == T::zero_spec(),
            forall|k: int|
                nh <= k < nh + i ==> work@[k] == dot(
                    wm.dec_hi,
                    d0,
                    2 * (k - nh) + nm,
                    n as int,
                    taps,
                ),
            forall|k: int| nh + i <= k < n ==> work@[k] == T::zero_spec(),
            forall|k: int| n <= k < work.len() ==> work@[k] == old(work)@[k],
        decreases nh - i,
    {
        let mut h = T::zero();
        let mut g = T::zero();
        let k0 = 2 * i + nm;
        let ghost base = k0 as int;
        let mut j: usize = 0;
        while j < wavelet.length
            invariant
                wavelet@ == wm,
                wm.valid(),
                0 < n,
                n <= data.len(),
                data@ == d0,
                taps == wm.length as int,
                base == k0 as int,
                k0 as int + taps <= usize::MAX as int,
                j <= wavelet.length,
                h == dot(wm.dec_lo, d0, base, n as int, j as int),
                g == dot(wm.dec_hi, d0, base, n as int, j as int),
            decreases wavelet.length - j,
        {
            let k = (k0 + j) % n;
            h = h.plus(wavelet.dec_lo[j].times(data[k]));
            g = g.plus(wavelet.dec_hi[j].times(data[k]));
            j = j + 1;
        }
        proof {
            T::add_zero_left(h);
            T::add_zero_left(g);
        }
        let updated_low = work[i].plus(h);
        work.set(i, updated_low);
        let updated_high = work[i + nh].plus(g);
        work.set(i + nh, updated_high);
        i = i + 1;
    }
    copy_prefix(data, work, n);
    proof {
        let fs = forward_step_spec(wm, d0, n as int);
        let nhi = n as int / 2;
        assert(nhi == nh as int);
        assert(fs.len() == d0.len());
        assert(data@.len() == d0.len());
        assert forall|k: int| 0 <= k < d0.len() implies data@[k] == fs[k] by {
            if k < nhi {
                assert(data@[k] == work@[k]);
                assert(work@[k] == dot(wm.dec_lo, d0, 2 * k + nm, n as int, taps));
                assert(fs[k] == dot(wm.dec_lo, d0, 2 * k + base_offset(wm, n as int), n as int, taps));
            } else if k < n as int {
                assert(data@[k] == work@[k]);
                assert(work@[k] == dot(wm.dec_hi, d0, 2 * (k - nh) + nm, n as int, taps));
                assert(fs[k] == dot(wm.dec_hi, d0, 2 * (k - nhi) + base_offset(wm, n as int), n as int, taps));
            } else {
                assert(data@[k] == d0[k]);
                assert(fs[k] == d0[k]);
            }
        }
        assert(data@ =~= forward_step_spec(wm, d0, n as int));
    }
}

/// Spreading one pair through the reconstruction taps changes nothing at
/// position `n` or beyond, and keeps the length of the scratch state.
proof fn lemma_inverse_taps_frame<T: Float>(
    w: WaveletModel<T>,
    d: Seq<T>,
    s: Seq<T>,
    n: int,
    i: int,
    taps: int,
)
    requires
        0 < n,
        n <= s.len(),
    ensures
        inverse_taps(w, d, s, n, i, taps).len() == s.len(),
        forall|k: int| n <= k < s.len() ==> inverse_taps(w, d, s, n, i, taps)[k] == s[k],
    decreases taps,
{
    if taps > 0 {
        lemma_inverse_taps_frame(w, d, s, n, i, taps - 1);
        let s1 = inverse_taps(w, d, s, n, i, taps - 1);
        let k = (2 * i + base_offset(w, n) + taps - 1) % n;
        assert(0 <= k < n);
        assert(inverse_taps(w, d, s, n, i, taps) == s1.update(
            k,
            inverse_tap(w, s1[k], d[i], d[i + n / 2], taps - 1),
        ));
        assert forall|q: int| n <= q < s.len() implies inverse_taps(w, d, s, n, i, taps)[q]
            == s[q] by {
            assert(inverse_taps(w, d, s, n, i, taps)[q] == s1[q]);
        }
    }
}

/// Spreading any number of pairs through the reconstruction taps changes
/// nothing at position `n` or beyond, and keeps the length of the scratch
/// state.
proof fn lemma_inverse_accum_frame<T: Float>(
    w: WaveletModel<T>,
    d: Seq<T>,
    s: Seq<T>,
    n: int,
    i: int,
)
    requires
        0 < n,
        n <= s.len(),
    ensures
        inverse_accum(w, d, s, n, i).len() == s.len(),
        forall|k: int| n <= k < s.len() ==> inverse_accum(w, d, s, n, i)[k] == s[k],
    decreases i,
{
    if i > 0 {
        lemma_inverse_accum_frame(w, d, s, n, i - 1);
        lemma_inverse_taps_frame(w, d, inverse_accum(w, d, s, n, i - 1), n, i - 1, w.length as int);
    }
}

/// Apply one inverse (synthesis) pass to `data[0..n]`, using `work` as the
/// scratch buffer.
pub fn inverse_step<T: Float>(data: &mut Vec<T>, wavelet: &Wavelet<T>, n: usize, work: &mut Vec<T>)
    requires
        wavelet@.valid(),
        0 < n,
        n % 2 == 0,
        n <= old(data).len(),
        n <= old(work).len(),
        fits(wavelet@.length as int, n as int),
    ensures
        final(data).len() == old(data).len(),
        final(work).len() == old(work).len(),
        final(data)@ == inverse_step_spec(wavelet@, old(data)@, n as int),
        forall|k: int| 0 <= k < n ==> final(work)@[k] == final(data)@[k],
        forall|k: int| n <= k < final(work).len() ==> final(work)@[k] == old(work)@[k],
{
    let ghost d0 = data@;
    let ghost wm = wavelet@;
    let ghost taps = wavelet@.length as int;
    let ghost s0 = zeroed_prefix::<T>(d0, n as int);
    zero_prefix(work, n);
    proof {
        assert(taps <= taps * (n as int) && 0 <= taps * (n as int)) by (nonlinear_arith)
            requires
                0 <= taps,
                1 <= n as int,
        ;
    }
    let nm = wavelet.length * n - wavelet.offset;
    let nh = n / 2;
    assert(2 * (nh as int) == n as int);
    let mut i: usize = 0;
    while i < nh
        invariant
            wavelet@ == wm,
            wm.valid(),
            0 < n,
            2 * (nh as int) == n as int,
            nm as int == base_offset(wm, n as int),
            fits(taps, n as int),
            taps == wm.length as int,
            data@ == d0,
            s0 == zeroed_prefix::<T>(d0, n as int),
            n <= data.len(),
            n <= work.len(),
            work.len() == old(work).len(),
            i <= nh,
            forall|k: int|
                0 <= k < n ==> work@[k] == inverse_accum(wm, d0, s0, n as int, i as int)[k],
            forall|k: int| n <= k < work.len() ==> work@[k] == old(work)@[k],
        decreases nh - i,
    {
        let h = data[i];
        let g = data[i + nh];
        let k0 = 2 * i + nm;
        let ghost base = k0 as int;
        let ghost acc = inverse_accum(wm, d0, s0, n as int, i as int);
        let mut j: usize = 0;
        while j < wavelet.length
            invariant
                wavelet@ == wm,
                wm.valid(),
                0 < n,
                2 * (nh as int) == n as int,
                data@ == d0,
                n <= data.len(),
                n <= work.len(),
                work.len() == old(work).len(),
                i < nh,
                taps == wm.length as int,
                base == k0 as int,
                base == 2 * (i as int) + base_offset(wm, n as int),
                k0 as int + taps <= usize::MAX as int,
                h == d0[i as int],
                g == d0[i as int + n as int / 2],
                s0 == zeroed_prefix::<T>(d0, n as int),
                acc == inverse_accum(wm, d0, s0, n as int, i as int),
                j <= wavelet.length,
                forall|k: int|
                    0 <= k < n ==> work@[k] == inverse_taps(
                        wm,
                        d0,
                        acc,
                        n as int,
                        i as int,
                        j as int,
                    )[k],
                forall|k: int| n <= k < work.len() ==> work@[k] == old(work)@[k],
            decreases wavelet.length - j,
        {
            let k = (k0 + j) % n;
            let cell = work[k];
            let updated = cell.plus(wavelet.rec_lo[j].times(h)).plus(wavelet.rec_hi[j].times(g));
            work.set(k, updated);
            proof {
                lemma_inverse_accum_frame(wm, d0, s0, n as int, i as int);
                lemma_inverse_taps_frame(wm, d0, acc, n as int, i as int, j as int);
                let s1 = inverse_taps(wm, d0, acc, n as int, i as int, j as int);
                let s2 = inverse_taps(wm, d0, acc, n as int, i as int, j as int + 1);
                let km = (2 * (i as int) + base_offset(wm, n as int) + j as int) % (n as int);
                assert(s1.len() == d0.len());
                assert(km == k as int);
                assert(0 <= km < n);
                assert(s2 == s1.update(
                    km,
                    inverse_tap(wm, s1[km], d0[i as int], d0[i as int + n as int / 2], j as int),
                ));
                assert(cell == s1[km]);
                assert(updated == inverse_tap(wm, s1[km], d0[i as int], d0[i as int + n as int / 2], j as int));
                assert forall|q: int| 0 <= q < n implies work@[q] == s2[q] by {
                    if q != km {
                        assert(work@[q] == s1[q]);
                        assert(s2[q] == s1[q]);
                    } else {
                        assert(work@[km] == updated);
                        assert(s2[km] == inverse_tap(wm, s1[km], d0[i as int], d0[i as int + n as int / 2], j as int));
                    }
                }
            }
            j = j + 1;
        }
        proof {
            assert(inverse_accum(wm, d0, s0, n as int, i as int + 1) == inverse_taps(
                wm,
                d0,
                acc,
                n as int,
                i as int,
                taps,
            ));
        }
        i = i + 1;
    }
    copy_prefix(data, work, n);
    proof {
        let spec_result = inverse_step_spec(wm, d0, n as int);
        lemma_inverse_accum_frame(wm, d0, s0, n as int, n as int / 2);
        assert forall|k: int| 0 <= k < d0.len() implies data@[k] == spec_result[k] by {
            if k < n as int {
                assert(data@[k] == work@[k]);
            } else {
                assert(spec_result[k] == s0[k]);
                assert(s0[k] == d0[k]);
            }
        }
        assert(data@ =~= spec_result);
    }
}

/// The buffer after `level` forward passes on an active region that starts
/// at length `n`: pass `i` acts on the prefix of length `n / 2^i`.
pub open spec fn forward_levels<T: Float>(
    w: WaveletModel<T>,
    d: Seq<T>,
    n: int,
    level: int,
) -> Seq<T>
    decreases level,
{
    if level <= 0 {
        d
    } else {
        forward_step_spec(
            w,
            forward_levels(w, d, n, level - 1),
            n / pow2((level - 1) as nat) as int,
        )
    }
}

/// The buffer after `level` inverse passes whose last pass acts on the
/// prefix of length `n`: the first pass acts on length `n / 2^(level - 1)`,
/// and each later pass on twice the length of the one before.
pub open spec fn inverse_levels<T: Float>(
    w: WaveletModel<T>,
    d: Seq<T>,
    n: int,
    level: int,
) -> Seq<T>
    decreases level,
{
    if level <= 0 {
        d
    } else {
        inverse_step_spec(w, inverse_levels(w, d, n / 2, level - 1), n)
    }
}

/// The buffer after a whole `transform` call on data `d` with `level`
/// passes.
pub open spec fn transform_spec<T: Float>(
    operation: Operation,
    w: WaveletModel<T>,
    d: Seq<T>,
    level: int,
) -> Seq<T> {
    match operation {
        Operation::Forward => forward_levels(w, d, d.len() as int, level),
        Operation::Inverse => inverse_levels(w, d, d.len() as int, level),
    }
}

/// A multiple of a larger power of two is a multiple of a smaller one.
proof fn lemma_pow2_divides_smaller(len: int, small: nat, big: nat)
    requires
        small <= big,
        0 <= len,
        len % (pow2(big) as int) == 0,
    ensures
        len % (pow2(small) as int) == 0,
{
    let ps = pow2(small) as int;
    let pb = pow2(big) as int;
    let pd = pow2((big - small) as nat) as int;
    lemma_pow2_pos(small);
    lemma_pow2_pos(big);
    lemma_pow2_pos((big - small) as nat);
    lemma_pow2_adds(small, (big - small) as nat);
    lemma_fundamental_div_mod(len, pb);
    let q = len / pb;
    assert(len == pb * q);
    assert(pb == ps * pd);
    assert(len == (q * pd) * ps) by (nonlinear_arith)
        requires
            len == pb * q,
            pb == ps * pd,
    ;
    lemma_mod_multiples_basic(q * pd, ps);
}

/// Dividing by `2^e` and halving is dividing by `2^(e + 1)`.
proof fn lemma_half_quotient(x: int, e: nat)
    requires
        0 <= x,
    ensures
        (x / (pow2(e) as int)) / 2 == x / (pow2((e + 1) as nat) as int),
{
    lemma_pow2_pos(e);
    lemma_pow2_adds(e, 1);
    lemma2_to64();
    lemma_div_denominator(x, pow2(e) as int, 2);
}

/// The active sub-length `n / 2^i` of pass `i` is positive, even, no larger
/// than `n`, and divides `n` exactly, whenever `2^level` divides `n`.
proof fn lemma_active_length(n: int, i: nat, level: nat)
    requires
        0 < n,
        i < level,
        n % (pow2(level) as int) == 0,
    ensures
        0 < n / (pow2(i) as int),
        n / (pow2(i) as int) <= n,
        (n / (pow2(i) as int)) % 2 == 0,
        (n / (pow2(i) as int)) * (pow2(i) as int) == n,
{
    let pi = pow2(i) as int;
    let pl = pow2(level) as int;
    let pd = pow2((level - i) as nat) as int;
    let pd1 = pow2((level - i - 1) as nat) as int;
    lemma_pow2_pos(i);
    lemma_pow2_pos(level);
    lemma_pow2_pos((level - i) as nat);
    lemma_pow2_pos((level - i - 1) as nat);
    lemma_pow2_adds(i, (level - i) as nat);
    lemma_fundamental_div_mod(n, pl);
    let q = n / pl;
    assert(n == pl * q);
    assert(pl == pi * pd);
    let m = q * pd;
    assert(n == m * pi + 0) by (nonlinear_arith)
        requires
            n == pl * q,
            pl == pi * pd,
            m == q * pd,
    ;
    lemma_fundamental_div_mod_converse(n, pi, m, 0);
    assert(n / pi == m);
    assert(0 < m && m <= n) by (nonlinear_arith)
        requires
            n == m * pi,
            0 < n,
            1 <= pi,
    ;
    lemma_pow2_adds(1, (level - i - 1) as nat);
    lemma2_to64();
    assert(pd == 2 * pd1);
    assert(m == (q * pd1) * 2) by (nonlinear_arith)
        requires
            pd == 2 * pd1,
            m == q * pd,
    ;
    lemma_mod_multiples_basic(q * pd1, 2);
}

/// Forward passes on an empty active region change nothing.
proof fn lemma_forward_levels_trivial<T: Float>(w: WaveletModel<T>, d: Seq<T>, level: int)
    ensures
        forward_levels(w, d, 0, level) == d,
    decreases level,
{
    if level > 0 {
        lemma_forward_levels_trivial(w, d, level - 1);
        lemma_pow2_pos((level - 1) as nat);
        assert(0int / (pow2((level - 1) as nat) as int) == 0);
        assert(forward_step_spec(w, d, 0) =~= d);
    }
}

/// Inverse passes on an empty active region change nothing.
proof fn lemma_inverse_levels_trivial<T: Float>(w: WaveletModel<T>, d: Seq<T>, level: int)
    ensures
        inverse_levels(w, d, 0, level) == d,
    decreases level,
{
    if level > 0 {
        lemma_inverse_levels_trivial(w, d, level - 1);
        assert(inverse_step_spec(w, d, 0) == inverse_accum(w, d, zeroed_prefix(d, 0), 0, 0));
        assert(zeroed_prefix::<T>(d, 0) =~= d);
    }
}

/// Divide `len` by `2^e`, rounding down.
fn div_pow2(len: usize, e: usize) -> (r: usize)
    ensures
        r as int == len as int / (pow2(e as nat) as int),
{
    proof {
        lemma2_to64();
    }
    let mut m: usize = len;
    let mut t: usize = 0;
    while t < e
        invariant
            t <= e,
            m as int == len as int / (pow2(t as nat) as int),
        decreases e - t,
    {
        proof {
            lemma_half_quotient(len as int, t as nat);
        }
        m = m / 2;
        t = t + 1;
    }
    m
}

/// Check whether `len` is divisible by `2^level`.
fn divisible_by_pow2(len: usize, level: usize) -> (r: bool)
    ensures
        r == (len as int % (pow2(level as nat) as int) == 0),
{
    proof {
        lemma2_to64();
        lemma_pow2_pos(level as nat);
    }
    let mut m: usize = len;
    let mut t: usize = 0;
    while t < level
        invariant
            t <= level,
            m as int * (pow2(t as nat) as int) == len as int,
        decreases level - t,
    {
        proof {
            lemma_pow2_pos(t as nat);
            lemma_pow2_pos(level as nat);
        }
        if m == 0 {
            proof {
                assert(len as int == 0) by (nonlinear_arith)
                    requires
                        m as int * (pow2(t as nat) as int) == len as int,
                        m as int == 0,
                ;
                lemma_small_mod(0, pow2(level as nat));
            }
            return true;
        }
        if m % 2 == 1 {
            proof {
                let pt = pow2(t as nat) as int;
                let pt1 = pow2((t + 1) as nat) as int;
                lemma_pow2_adds(1, t as nat);
                lemma2_to64();
                assert(pt1 == 2 * pt);
                lemma_fundamental_div_mod(m as int, 2);
                assert(len as int == (m as int / 2) * pt1 + pt) by (nonlinear_arith)
                    requires
                        len as int == m as int * pt,
                        m as int == 2 * (m as int / 2) + 1,
                        pt1 == 2 * pt,
                ;
                lemma_fundamental_div_mod_converse(len as int, pt1, m as int / 2, pt);
                if len as int % (pow2(level as nat) as int) == 0 {
                    lemma_pow2_divides_smaller(len as int, (t + 1) as nat, level as nat);
                    assert(false);
                }
            }
            return false;
        }
        proof {
            let pt = pow2(t as nat) as int;
            lemma_pow2_adds(1, t as nat);
            lemma2_to64();
            lemma_fundamental_div_mod(m as int, 2);
            assert((m as int / 2) * (pow2((t + 1) as nat) as int) == len as int) by (nonlinear_arith)
                requires
                    len as int == m as int * pt,
                    m as int == 2 * (m as int / 2),
                    pow2((t + 1) as nat) as int == 2 * pt,
            ;
        }
        m = m / 2;
        t = t + 1;
    }
    proof {
        lemma_mod_multiples_basic(m as int, pow2(level as nat) as int);
    }
    true
}

/// The transform.
pub trait Transform<T: Float> {
    /// The samples the transform acts on.
    spec fn buffer(&self) -> Seq<T>;

    /// Perform the transform.
    ///
    /// The number of points must be divisible by `2^level`; otherwise the
    /// call fails with `Error::InvalidLength` and changes nothing, and a
    /// malformed wavelet is rejected with `Error::InvalidWavelet`. At level
    /// zero the call succeeds without touching the data. If the operation
    /// is forward, the data are replaced by the approximation and detail
    /// coefficients stored in the first and second halves of the active
    /// region, respectively. If the operation is inverse, the data are
    /// assumed to be stored according to the above convention.
    fn transform(&mut self, operation: Operation, wavelet: &Wavelet<T>, level: usize) -> (r: Result<
        (),
        Error,
    >)
        requires
            (level > 0 && wavelet@.valid() && old(self).buffer().len() as int % (pow2(
                level as nat,
            ) as int) == 0) ==> fits(wavelet@.length as int, old(self).buffer().len() as int),
        ensures
            final(self).buffer().len() == old(self).buffer().len(),
            level == 0 ==> r == Ok::<(), Error>(()) && final(self).buffer() == old(self).buffer(),
            level > 0 && old(self).buffer().len() as int % (pow2(level as nat) as int) != 0 ==> r
                == Err::<(), Error>(Error::InvalidLength) && final(self).buffer() == old(self).buffer(),
            level > 0 && old(self).buffer().len() as int % (pow2(level as nat) as int) == 0
                && !wavelet@.valid() ==> r == Err::<(), Error>(Error::InvalidWavelet) && final(self).buffer() == old(self).buffer(),
            level > 0 && old(self).buffer().len() as int % (pow2(level as nat) as int) == 0
                && wavelet@.valid() ==> r == Ok::<(), Error>(()) && final(self).buffer()
                == transform_spec(operation, wavelet@, old(self).buffer(), level as int),
    ;
}

impl<T: Float> Transform<T> for Vec<T> {
    open spec fn buffer(&self) -> Seq<T> {
        self@
    }

    fn transform(&mut self, operation: Operation, wavelet: &Wavelet<T>, level: usize) -> (r: Result<
        (),
        Error,
    >) {
        if level == 0 {
            return Ok(());
        }
        let n = self.len();
        if !divisible_by_pow2(n, level) {
            return Err(Error::InvalidLength);
        }
        if !wavelet.is_valid() {
            return Err(Error::InvalidWavelet);
        }
        let ghost d0 = self@;
        let ghost wm = wavelet@;
        let ghost taps = wavelet@.length as int;
        if n == 0 {
            proof {
                lemma_forward_levels_trivial::<T>(wm, d0, level as int);
                lemma_inverse_levels_trivial::<T>(wm, d0, level as int);
            }
            return Ok(());
        }
        let mut work: Vec<T> = Vec::new();
        let mut t: usize = 0;
        while t < n
            invariant
                t <= n,
                work.len() == t,
            decreases n - t,
        {
            work.push(T::zero());
            t = t + 1;
        }
        match operation {
            Operation::Forward => {
                let mut i: usize = 0;
                while i < level
                    invariant
                        wavelet@ == wm,
                        wm.valid(),
                        taps == wm.length as int,
                        fits(taps, n as int),
                        0 < n,
                        0 < level,
                        n == self.len(),
                        d0.len() == n,
                        n <= work.len(),
                        (n as int) % (pow2(level as nat) as int) == 0,
                        i <= level,
                        self@ == forward_levels(wm, d0, n as int, i as int),
                    decreases level - i,
                {
                    let m = div_pow2(n, i);
                    proof {
                        lemma_active_length(n as int, i as nat, level as nat);
                        lemma_fits_shrink(taps, m as int, n as int);
                    }
                    forward_step(self, wavelet, m, &mut work);
                    proof {
                        assert(forward_levels(wm, d0, n as int, i as int + 1) == forward_step_spec(
                            wm,
                            forward_levels(wm, d0, n as int, i as int),
                            (n as int) / (pow2(i as nat) as int),
                        ));
                    }
                    i = i + 1;
                }
            },
            Operation::Inverse => {
                let mut i: usize = 0;
                while i < level
                    invariant
                        wavelet@ == wm,
                        wm.valid(),
                        taps == wm.length as int,
                        fits(taps, n as int),
                        0 < n,
                        0 < level,
                        n == self.len(),
                        d0.len() == n,
                        n <= work.len(),
                        (n as int) % (pow2(level as nat) as int) == 0,
                        i <= level,
                        self@ == inverse_levels(
                            wm,
                            d0,
                            (n as int) / (pow2((level - i) as nat) as int),
                            i as int,
                        ),
                    decreases level - i,
                {
                    let m = div_pow2(n, level - i - 1);
                    proof {
                        lemma_active_length(n as int, (level - i - 1) as nat, level as nat);
                        lemma_fits_shrink(taps, m as int, n as int);
                        lemma_half_quotient(n as int, (level - i - 1) as nat);
                    }
                    inverse_step(self, wavelet, m, &mut work);
                    proof {
                        assert(inverse_levels(wm, d0, m as int, i as int + 1) == inverse_step_spec(
                            wm,
                            inverse_levels(wm, d0, (m as int) / 2, i as int),
                            m as int,
                        ));
                    }
                    i = i + 1;
                }
                proof {
                    lemma2_to64();
                }
            },
        }
        Ok(())
    }
}

/// The length of a buffer never changes across forward passes.
proof fn lemma_forward_levels_len<T: Float>(w: WaveletModel<T>, d: Seq<T>, n: int, level: int)
    ensures
        forward_levels(w, d, n, level).len() == d.len(),
    decreases level,
{
    if level > 0 {
        lemma_forward_levels_len(w, d, n, level - 1);
    }
}

/// The filter sum over the first `n` positions ignores anything appended
/// after position `n`.
proof fn lemma_dot_prefix<T: Float>(
    coef: Seq<T>,
    e: Seq<T>,
    t: Seq<T>,
    base: int,
    n: int,
    taps: int,
)
    requires
        0 < n <= e.len(),
    ensures
        dot(coef, e + t, base, n, taps) == dot(coef, e, base, n, taps),
    decreases taps,
{
    if taps > 0 {
        lemma_dot_prefix(coef, e, t, base, n, taps - 1);
        assert(0 <= (base + taps - 1) % n < n);
        assert((e + t)[(base + taps - 1) % n] == e[(base + taps - 1) % n]);
    }
}

/// One forward pass over the first `n` positions ignores and preserves
/// anything appended after the end of `e`.
proof fn lemma_forward_step_local<T: Float>(w: WaveletModel<T>, e: Seq<T>, t: Seq<T>, n: int)
    requires
        0 <= n <= e.len(),
    ensures
        forward_step_spec(w, e + t, n) == forward_step_spec(w, e, n) + t,
{
    let lhs = forward_step_spec(w, e + t, n);
    let rhs = forward_step_spec(w, e, n) + t;
    assert forall|k: int| 0 <= k < lhs.len() implies lhs[k] == rhs[k] by {
        if k < n {
            if 0 < n {
                let nh = n / 2;
                let nm = base_offset(w, n);
                if k < nh {
                    lemma_dot_prefix(w.dec_lo, e, t, 2 * k + nm, n, w.length as int);
                } else {
                    lemma_dot_prefix(w.dec_hi, e, t, 2 * (k - nh) + nm, n, w.length as int);
                }
            }
        } else if k < e.len() {
            assert((e + t)[k] == e[k]);
        } else {
            assert((e + t)[k] == t[k - e.len()]);
        }
    }
    assert(lhs =~= rhs);
}

/// Unfolding a multi-level forward transform from the first pass: the full
/// pass at length `n` comes first, and the remaining passes act at `n / 2`
/// and below.
proof fn lemma_forward_levels_unfold_first<T: Float>(
    w: WaveletModel<T>,
    d: Seq<T>,
    n: int,
    level: int,
)
    requires
        0 <= n,
        1 <= level,
    ensures
        forward_levels(w, d, n, level) == forward_levels(
            w,
            forward_step_spec(w, d, n),
            n / 2,
            level - 1,
        ),
    decreases level,
{
    lemma2_to64();
    if level == 1 {
        assert(forward_levels(w, d, n, 0) == d);
        assert(forward_levels(w, d, n, 1) == forward_step_spec(w, d, n / (pow2(0) as int)));
        assert(n / (pow2(0) as int) == n);
        assert(forward_levels(w, forward_step_spec(w, d, n), n / 2, 0) == forward_step_spec(
            w,
            d,
            n,
        ));
    } else {
        lemma_forward_levels_unfold_first(w, d, n, level - 1);
        let b1 = forward_step_spec(w, d, n);
        lemma_pow2_pos((level - 2) as nat);
        lemma_pow2_adds(1, (level - 2) as nat);
        lemma_div_denominator(n, 2, pow2((level - 2) as nat) as int);
        assert(pow2((level - 1) as nat) as int == 2 * (pow2((level - 2) as nat) as int));
        assert((n / 2) / (pow2((level - 2) as nat) as int) == n / (pow2((level - 1) as nat) as int));
        assert(forward_levels(w, b1, n / 2, level - 1) == forward_step_spec(
            w,
            forward_levels(w, b1, n / 2, level - 2),
            (n / 2) / (pow2((level - 2) as nat) as int),
        ));
        assert(forward_levels(w, d, n, level) == forward_step_spec(
            w,
            forward_levels(w, d, n, level - 1),
            n / (pow2((level - 1) as nat) as int),
        ));
        assert(forward_levels(w, d, n, level - 1) == forward_levels(w, b1, n / 2, level - 2));
    }
}

/// A multi-level forward transform of the first `n` positions acts the same
/// whether the positions beyond `n` are carried along or split off.
proof fn lemma_forward_levels_local<T: Float>(w: WaveletModel<T>, d: Seq<T>, n: int, level: int)
    requires
        0 <= n <= d.len(),
    ensures
        forward_levels(w, d, n, level) == forward_levels(w, d.take(n), n, level) + d.skip(n),
    decreases level,
{
    if level <= 0 {
        assert(d =~= d.take(n) + d.skip(n));
    } else {
        lemma_forward_levels_local(w, d, n, level - 1);
        lemma_forward_levels_len(w, d.take(n), n, level - 1);
        let inner = forward_levels(w, d.take(n), n, level - 1);
        let tail = d.skip(n);
        let m = n / pow2((level - 1) as nat) as int;
        lemma_pow2_pos((level - 1) as nat);
        assert(0 <= m <= n) by (nonlinear_arith)
            requires
                0 <= n,
                m == n / pow2((level - 1) as nat) as int,
                1 <= pow2((level - 1) as nat) as int,
        ;
        lemma_forward_step_local(w, inner, tail, m);
    }
}

/// The buffer after repeatedly applying one forward pass to a shrinking,
/// split-off prefix: the whole active region of length `n` is transformed
/// once, its first half is split off and handled the same way with one
/// level less, and the result is glued back before the untouched rest.
pub open spec fn iterated_single_levels<T: Float>(
    w: WaveletModel<T>,
    d: Seq<T>,
    n: int,
    level: int,
) -> Seq<T>
    decreases level,
{
    if level <= 0 {
        d
    } else {
        let once = forward_step_spec(w, d, n);
        iterated_single_levels(w, once.take(n / 2), n / 2, level - 1) + once.skip(n / 2)
    }
}

/// A multi-level forward transform is the same as iterated single-level
/// transforms confined to the shrinking active prefix: after the pass at
/// length `n`, the remaining passes may be run on the first `n / 2`
/// positions split off as a buffer of their own, and the results glued
/// back together.
pub proof fn lemma_multi_level_consistency<T: Float>(
    w: WaveletModel<T>,
    d: Seq<T>,
    n: int,
    level: int,
)
    requires
        0 <= level,
        0 <= n <= d.len(),
    ensures
        forward_levels(w, d, n, level) == iterated_single_levels(w, d, n, level),
    decreases level,
{
    if level > 0 {
        let once = forward_step_spec(w, d, n);
        lemma_forward_levels_unfold_first(w, d, n, level);
        assert(once.len() == d.len());
        lemma_forward_levels_local(w, once, n / 2, level - 1);
        lemma_multi_level_consistency(w, once.take(n / 2), n / 2, level - 1);
    }
}

} // verus!
