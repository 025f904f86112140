//! The mathematical model of discrete convolution that the engines are
//! verified against, together with the laws the library guarantees.
//!
//! Output sample `n` of convolving a signal `x` with an impulse response `h`
//! is `sum over k of h[k] * x[n - k]`, with indices outside either sequence
//! contributing nothing. This treats the signal as zero-padded on both sides,
//! so the same definition covers the start-up samples (before `x` covers the
//! whole of `h`) and the tail (after the signal ends).

use vstd::prelude::*;

verus! {

use crate::SAMPLE_LIMIT;

/// The view of a sequence of samples as mathematical integers.
pub open spec fn as_ints(s: Seq<i64>) -> Seq<int> {
    s.map(|_i: int, v: i64| v as int)
}

/// A sequence of `n` silent samples.
pub open spec fn zeros(n: nat) -> Seq<int> {
    Seq::new(n, |i: int| 0)
}

/// Every element of `s` has magnitude at most `SAMPLE_LIMIT`.
pub open spec fn bounded(s: Seq<int>) -> bool {
    forall|i: int|
        0 <= i < s.len() ==> -(SAMPLE_LIMIT as int) <= #[trigger] s[i] <= SAMPLE_LIMIT as int
}

/// One term of the convolution sum: `h[k] * x[n - k]`, or zero when either
/// index falls outside its sequence.
pub open spec fn conv_term(x: Seq<int>, h: Seq<int>, n: int, k: int) -> int {
    if 0 <= k < h.len() && 0 <= n - k < x.len() {
        h[k] * x[n - k]
    } else {
        0
    }
}

/// The convolution sum at output position `n`, restricted to the impulse
/// response's first `kmax` taps.
pub open spec fn conv_prefix(x: Seq<int>, h: Seq<int>, n: int, kmax: int) -> int
    decreases kmax,
{
    if kmax <= 0 {
        0
    } else {
        conv_prefix(x, h, n, kmax - 1) + conv_term(x, h, n, kmax - 1)
    }
}

/// Output sample `n` of convolving the signal `x` with the impulse response
/// `h`: the full convolution sum over every tap of `h`.
pub open spec fn conv_at(x: Seq<int>, h: Seq<int>, n: int) -> int {
    conv_prefix(x, h, n, h.len() as int)
}

/// Extending the signal does not change output samples that the original
/// signal already determined.
pub proof fn lemma_conv_prefix_append(x: Seq<int>, y: Seq<int>, h: Seq<int>, n: int, kmax: int)
    requires
        n < x.len(),
    ensures
        conv_prefix(x + y, h, n, kmax) == conv_prefix(x, h, n, kmax),
    decreases kmax,
{
    if kmax > 0 {
        lemma_conv_prefix_append(x, y, h, n, kmax - 1);
        assert(conv_term(x + y, h, n, kmax - 1) == conv_term(x, h, n, kmax - 1));
    }
}

/// Block-size invariance: output sample `n` is already final once the signal
/// prefix reaches past `n`, so feeding one fixed input sequence through the
/// stream in blocks of arbitrary and differing sizes yields the same
/// concatenated output as one call over the whole sequence.
pub proof fn lemma_block_size_invariance(x: Seq<int>, y: Seq<int>, h: Seq<int>, n: int)
    requires
        0 <= n < x.len(),
    ensures
        conv_at(x + y, h, n) == conv_at(x, h, n),
{
    lemma_conv_prefix_append(x, y, h, n, h.len() as int);
}

/// The convolution sum splits across a concatenation of the signal.
pub proof fn lemma_conv_prefix_split(x: Seq<int>, y: Seq<int>, h: Seq<int>, n: int, kmax: int)
    ensures
        conv_prefix(x + y, h, n, kmax) == conv_prefix(x, h, n, kmax) + conv_prefix(
            y,
            h,
            n - x.len(),
            kmax,
        ),
    decreases kmax,
{
    if kmax > 0 {
        lemma_conv_prefix_split(x, y, h, n, kmax - 1);
        let k = kmax - 1;
        assert(conv_term(x + y, h, n, k) == conv_term(x, h, n, k) + conv_term(
            y,
            h,
            n - x.len(),
            k,
        ));
    }
}

/// Overlap-add: a window appended to the already-consumed signal contributes
/// the window's own convolution, shifted to the window's start position.
pub proof fn lemma_overlap_add(x: Seq<int>, w: Seq<int>, h: Seq<int>, n: int)
    ensures
        conv_at(x + w, h, n) == conv_at(x, h, n) + conv_at(w, h, n - x.len()),
{
    lemma_conv_prefix_split(x, w, h, n, h.len() as int);
}

/// An all-zero signal contributes nothing.
pub proof fn lemma_conv_prefix_zero_signal(x: Seq<int>, h: Seq<int>, n: int, kmax: int)
    requires
        forall|i: int| 0 <= i < x.len() ==> x[i] == 0,
    ensures
        conv_prefix(x, h, n, kmax) == 0,
    decreases kmax,
{
    if kmax > 0 {
        lemma_conv_prefix_zero_signal(x, h, n, kmax - 1);
        assert(conv_term(x, h, n, kmax - 1) == 0);
    }
}

/// Zero-in-zero-out: an all-zero input of any length produces all-zero
/// output, whichever engine computes it.
pub proof fn lemma_zero_in_zero_out(x: Seq<int>, h: Seq<int>, n: int)
    requires
        forall|i: int| 0 <= i < x.len() ==> x[i] == 0,
    ensures
        conv_at(x, h, n) == 0,
{
    lemma_conv_prefix_zero_signal(x, h, n, h.len() as int);
}

/// Appending silence to the signal changes no output sample anywhere: the
/// model already reads absent positions as silence.
pub proof fn lemma_conv_prefix_zero_extend(x: Seq<int>, y: Seq<int>, h: Seq<int>, n: int, kmax: int)
    requires
        forall|i: int| 0 <= i < y.len() ==> y[i] == 0,
    ensures
        conv_prefix(x + y, h, n, kmax) == conv_prefix(x, h, n, kmax),
    decreases kmax,
{
    if kmax > 0 {
        lemma_conv_prefix_zero_extend(x, y, h, n, kmax - 1);
        assert(conv_term(x + y, h, n, kmax - 1) == conv_term(x, h, n, kmax - 1));
    }
}

/// Flushing with silence leaves every output sample as the original signal
/// alone determines it.
pub proof fn lemma_conv_zero_extend(x: Seq<int>, y: Seq<int>, h: Seq<int>, n: int)
    requires
        forall|i: int| 0 <= i < y.len() ==> y[i] == 0,
    ensures
        conv_at(x + y, h, n) == conv_at(x, h, n),
{
    lemma_conv_prefix_zero_extend(x, y, h, n, h.len() as int);
}

/// Negative output positions receive no contribution at all.
pub proof fn lemma_conv_prefix_neg_position(x: Seq<int>, h: Seq<int>, n: int, kmax: int)
    requires
        n < 0,
    ensures
        conv_prefix(x, h, n, kmax) == 0,
    decreases kmax,
{
    if kmax > 0 {
        lemma_conv_prefix_neg_position(x, h, n, kmax - 1);
        assert(conv_term(x, h, n, kmax - 1) == 0);
    }
}

/// Positions at or past `x.len() + kmax - 1` receive no contribution from the
/// first `kmax` taps.
pub proof fn lemma_conv_prefix_past_end(x: Seq<int>, h: Seq<int>, n: int, kmax: int)
    requires
        n >= x.len() + kmax - 1,
    ensures
        conv_prefix(x, h, n, kmax) == 0,
    decreases kmax,
{
    if kmax > 0 {
        lemma_conv_prefix_past_end(x, h, n, kmax - 1);
        assert(conv_term(x, h, n, kmax - 1) == 0);
    }
}

/// Tail completeness: after a signal of length `M` ends, only positions `M`
/// up to `M + h.len() - 1` (exclusive) can still be nonzero, so the
/// convolution tail holds exactly `h.len() - 1` samples and every further
/// flush yields silence.
pub proof fn lemma_tail_exhausted(x: Seq<int>, h: Seq<int>, n: int)
    requires
        n >= x.len() + h.len() - 1,
    ensures
        conv_at(x, h, n) == 0,
{
    lemma_conv_prefix_past_end(x, h, n, h.len() as int);
}

/// Taps numbered past the signal's end reach only negative signal positions.
pub proof fn lemma_conv_prefix_high_taps(x: Seq<int>, h: Seq<int>, n: int, k1: int, k2: int)
    requires
        n < k1 <= k2,
    ensures
        conv_prefix(x, h, n, k2) == conv_prefix(x, h, n, k1),
    decreases k2 - k1,
{
    if k1 < k2 {
        lemma_conv_prefix_high_taps(x, h, n, k1, k2 - 1);
        assert(conv_term(x, h, n, k2 - 1) == 0);
    }
}

/// Zero-valued taps appended to the impulse response contribute nothing.
pub proof fn lemma_conv_prefix_padded_taps(
    x: Seq<int>,
    h: Seq<int>,
    hp: Seq<int>,
    n: int,
    kmax: int,
)
    requires
        h.len() <= hp.len(),
        forall|k: int| 0 <= k < h.len() ==> h[k] == #[trigger] hp[k],
        forall|k: int| h.len() <= k < hp.len() ==> #[trigger] hp[k] == 0,
        kmax <= hp.len(),
    ensures
        conv_prefix(x, hp, n, kmax) == conv_prefix(x, h, n, kmax),
    decreases kmax,
{
    if kmax > 0 {
        lemma_conv_prefix_padded_taps(x, h, hp, n, kmax - 1);
        if kmax - 1 < h.len() {
            assert(conv_term(x, hp, n, kmax - 1) == conv_term(x, h, n, kmax - 1));
        } else {
            assert(conv_term(x, hp, n, kmax - 1) == 0);
            assert(conv_term(x, h, n, kmax - 1) == 0);
        }
    }
}

/// Convolving against a zero-padded impulse response equals convolving
/// against the impulse response itself.
pub proof fn lemma_conv_padded_ir(x: Seq<int>, h: Seq<int>, hp: Seq<int>, n: int)
    requires
        h.len() <= hp.len(),
        forall|k: int| 0 <= k < h.len() ==> h[k] == #[trigger] hp[k],
        forall|k: int| h.len() <= k < hp.len() ==> #[trigger] hp[k] == 0,
    ensures
        conv_at(x, hp, n) == conv_at(x, h, n),
{
    lemma_conv_prefix_padded_taps(x, h, hp, n, hp.len() as int);
    lemma_conv_prefix_high_taps_or_equal(x, h, n, hp.len() as int);
}

/// The sum over any first `kmax >= h.len()` taps equals the full convolution:
/// taps past the impulse response's end contribute nothing.
pub proof fn lemma_conv_prefix_high_taps_or_equal(x: Seq<int>, h: Seq<int>, n: int, kmax: int)
    requires
        kmax >= h.len(),
    ensures
        conv_prefix(x, h, n, kmax) == conv_at(x, h, n),
    decreases kmax - h.len(),
{
    if kmax > h.len() {
        lemma_conv_prefix_high_taps_or_equal(x, h, n, kmax - 1);
        assert(conv_term(x, h, n, kmax - 1) == 0);
    }
}

/// A contiguous run of `b` taps starting at `k1` contributes the same sum as
/// the block cut from them, convolved at the position shifted back by `k1`.
/// This is the partitioned engine's bookkeeping identity.
pub proof fn lemma_conv_prefix_block(
    x: Seq<int>,
    h: Seq<int>,
    blk: Seq<int>,
    n: int,
    k1: int,
    b: int,
)
    requires
        0 <= k1,
        0 <= b <= blk.len(),
        k1 + blk.len() <= h.len(),
        forall|j: int| 0 <= j < blk.len() ==> #[trigger] blk[j] == h[k1 + j],
    ensures
        conv_prefix(x, h, n, k1 + b) == conv_prefix(x, h, n, k1) + conv_prefix(x, blk, n - k1, b),
    decreases b,
{
    if b > 0 {
        lemma_conv_prefix_block(x, h, blk, n, k1, b - 1);
        assert(conv_term(x, h, n, k1 + b - 1) == conv_term(x, blk, n - k1, b - 1));
    }
}

/// The convolution of a signal with a single nonzero sample, of amplitude `a`
/// at position `k0`, at output position `n`.
pub open spec fn impulse_conv(h: Seq<int>, n: int, k0: int, a: int) -> int {
    if 0 <= n - k0 < h.len() {
        a * h[n - k0]
    } else {
        0
    }
}

pub proof fn lemma_conv_prefix_impulse(x: Seq<int>, h: Seq<int>, n: int, k0: int, a: int, kmax: int)
    requires
        0 <= k0 < x.len(),
        x[k0] == a,
        forall|i: int| 0 <= i < x.len() && i != k0 ==> x[i] == 0,
    ensures
        conv_prefix(x, h, n, kmax) == if 0 <= n - k0 < kmax && n - k0 < h.len() {
            h[n - k0] * a
        } else {
            0
        },
    decreases kmax,
{
    if kmax > 0 {
        lemma_conv_prefix_impulse(x, h, n, k0, a, kmax - 1);
    }
}

/// Identity property: convolving an impulse response with a unit impulse of
/// amplitude `a` at position `k0` reproduces the impulse response, scaled by
/// `a`, starting at output position `k0`. With `a == 1` the output is the
/// impulse response itself.
pub proof fn lemma_impulse_identity(x: Seq<int>, h: Seq<int>, n: int, k0: int, a: int)
    requires
        0 <= k0 < x.len(),
        x[k0] == a,
        forall|i: int| 0 <= i < x.len() && i != k0 ==> x[i] == 0,
    ensures
        conv_at(x, h, n) == impulse_conv(h, n, k0, a),
{
    lemma_conv_prefix_impulse(x, h, n, k0, a, h.len() as int);
    if 0 <= n - k0 < h.len() {
        assert(h[n - k0] * a == a * h[n - k0]) by (nonlinear_arith);
    }
}

/// Cross-mode equivalence: two output streams that each satisfy the engines'
/// contract—sample `n` equals the model's convolution at position `n`—agree
/// exactly on every position both have emitted. The direct and the
/// partitioned engine therefore agree sample for sample, with no error at
/// all, well within any floating-point tolerance.
pub proof fn lemma_cross_mode_equivalence(d: Seq<int>, f: Seq<int>, x: Seq<int>, h: Seq<int>)
    requires
        forall|n: int| 0 <= n < d.len() ==> #[trigger] d[n] == conv_at(x, h, n),
        forall|n: int| 0 <= n < f.len() ==> #[trigger] f[n] == conv_at(x, h, n),
    ensures
        forall|n: int| 0 <= n < d.len() && n < f.len() ==> #[trigger] d[n] == #[trigger] f[n],
{
}

/// Every convolution sum over `kmax` taps of bounded sequences has magnitude
/// at most `kmax * SAMPLE_LIMIT * SAMPLE_LIMIT`.
pub proof fn lemma_conv_prefix_bound(x: Seq<int>, h: Seq<int>, n: int, kmax: int)
    requires
        bounded(x),
        bounded(h),
        0 <= kmax,
    ensures
        -(kmax * SAMPLE_LIMIT as int * SAMPLE_LIMIT as int) <= conv_prefix(x, h, n, kmax)
            <= kmax * SAMPLE_LIMIT as int * SAMPLE_LIMIT as int,
    decreases kmax,
{
    let lim = SAMPLE_LIMIT as int;
    if kmax > 0 {
        lemma_conv_prefix_bound(x, h, n, kmax - 1);
        let k = kmax - 1;
        assert(-(lim * lim) <= conv_term(x, h, n, k) <= lim * lim) by {
            if 0 <= k < h.len() && 0 <= n - k < x.len() {
                let hv = h[k];
                let xv = x[n - k];
                assert(-(lim * lim) <= hv * xv <= lim * lim) by (nonlinear_arith)
                    requires
                        -lim <= hv <= lim,
                        -lim <= xv <= lim,
                        0 <= lim,
                ;
            } else {
                assert(lim * lim >= 0) by (nonlinear_arith)
                    requires
                        0 <= lim,
                ;
            }
        }
        assert((kmax - 1) * (lim * lim) + lim * lim == kmax * (lim * lim)) by (nonlinear_arith);
        assert(kmax * lim * lim == kmax * (lim * lim)) by (nonlinear_arith);
        assert((kmax - 1) * lim * lim == (kmax - 1) * (lim * lim)) by (nonlinear_arith);
    } else {
        assert(kmax * lim * lim == 0) by (nonlinear_arith)
            requires
                kmax == 0,
        ;
    }
}

/// The full convolution sum of bounded sequences has magnitude at most
/// `h.len() * SAMPLE_LIMIT * SAMPLE_LIMIT`.
pub proof fn lemma_conv_bound(x: Seq<int>, h: Seq<int>, n: int)
    requires
        bounded(x),
        bounded(h),
    ensures
        -(h.len() as int * SAMPLE_LIMIT as int * SAMPLE_LIMIT as int) <= conv_at(x, h, n)
            <= h.len() as int * SAMPLE_LIMIT as int * SAMPLE_LIMIT as int,
{
    lemma_conv_prefix_bound(x, h, n, h.len() as int);
}

} // verus!
