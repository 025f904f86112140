//! The streaming convolution engine.
//!
//! An engine is constructed once from an impulse response and a mode, and
//! convolves a stream of input samples delivered in blocks of arbitrary size.
//! In time-domain mode every sample is pushed into a circular history buffer
//! and the full dot-product against the impulse response is formed at once.
//! In frequency-domain (partitioned) mode the impulse response is split into
//! fixed-size partitions at construction; buffered input is consumed two
//! blocks at a time by an analysis step that convolves the window against
//! every partition and overlap-adds the results into a circular output
//! accumulator, whose finalized prefix is emitted.
//!
//! Both modes are verified against the same model: every emitted sample `n`
//! equals `conv_at(history, impulse_response, n)`, so the two modes agree
//! exactly.
//!
//! The per-partition products are formed as exact integer dot products
//! rather than through a floating-point transform, so an analysis step over
//! `N` partitions of size `B` costs `O(N * B * B)` instead of the
//! transform's `O(N * B * log B)`; in exchange the partitioned output is
//! bit-exact against the direct mode instead of equal within a tolerance.

use vstd::prelude::*;

verus! {

use vstd::arithmetic::div_mod::{
    lemma_add_mod_noop,
    lemma_add_mod_noop_right,
    lemma_fundamental_div_mod,
    lemma_mod_add_multiples_vanish,
    lemma_mod_division_less_than_divisor,
    lemma_small_mod,
};
use crate::convolution::{
    as_ints,
    bounded,
    conv_at,
    conv_prefix,
    conv_term,
    lemma_block_size_invariance,
    lemma_conv_bound,
    lemma_conv_padded_ir,
    lemma_conv_prefix_append,
    lemma_conv_prefix_block,
    lemma_conv_prefix_bound,
    lemma_conv_prefix_high_taps,
    lemma_conv_prefix_neg_position,
    lemma_conv_prefix_past_end,
    lemma_conv_zero_extend,
    lemma_overlap_add,
    lemma_tail_exhausted,
    lemma_zero_in_zero_out,
    zeros,
};
use crate::ring_buffer::{lemma_mod_offset_injective, lemma_mod_shift_cycle, RingBuffer};
use crate::Error;
use crate::SAMPLE_LIMIT;

/// Largest impulse-response length the engine accepts; keeps every
/// convolution sum within `i64` range for samples bounded by `SAMPLE_LIMIT`.
pub const MAX_IR_LEN: usize = 4096;

/// Largest partition size the frequency-domain mode accepts.
pub const MAX_BLOCK_SIZE: usize = 4096;

/// The convolution method, selected once at construction and fixed for the
/// engine's lifetime.
#[derive(Clone, Copy, Debug, PartialEq, Eq, Structural)]
pub enum ConvolutionMode {
    /// Direct summation: each output sample is the full dot-product of the
    /// history against the impulse response.
    TimeDomain,
    /// Partitioned overlap-add over pre-split impulse-response blocks of
    /// `block_size` samples, consumed two blocks per analysis step.
    FrequencyDomain { block_size: usize },
}

/// The slot of `rb` located `t` slots after the absolute position `base`,
/// modulo the capacity.
pub open spec fn slot_at(rb: RingBuffer, base: int, t: int) -> int {
    rb.slots()[(base + t) % rb.capacity_spec()]
}

/// Splitting a length-`l` sequence into blocks of `b` yields `(l + b - 1) / b`
/// blocks, which together cover `l` but overshoot it by less than one block.
proof fn lemma_partition_total(l: int, b: int)
    requires
        1 <= l,
        1 <= b,
    ensures
        ({
            let n = (l + b - 1) / b;
            l <= n * b <= l + b - 1 && 1 <= n
        }),
{
    let n = (l + b - 1) / b;
    lemma_fundamental_div_mod(l + b - 1, b);
    lemma_mod_division_less_than_divisor(l + b - 1, b);
    let r = (l + b - 1) % b;
    assert(l + b - 1 == b * n + r);
    assert(n * b == b * n) by (nonlinear_arith);
    assert(1 <= n) by (nonlinear_arith)
        requires
            n * b >= l,
            l >= 1,
            b >= 1,
    ;
}

/// The largest magnitude a sum of `taps` products of two bounded samples can
/// reach.
spec fn mag_limit(taps: int) -> int {
    taps * (SAMPLE_LIMIT as int) * (SAMPLE_LIMIT as int)
}

/// Pops one full analysis window of `two_b` buffered samples, whose values
/// are `vals`, out of the input accumulator.
fn drain_window(conv: &mut RingBuffer, two_b: usize, vals: Ghost<Seq<int>>) -> (w: Vec<i64>)
    requires
        old(conv).wf(),
        2 <= two_b,
        old(conv).capacity_spec() == two_b as int + 1,
        vals@.len() == two_b as int,
        forall|u: int|
            0 <= u < two_b as int ==> #[trigger] slot_at(*old(conv), old(conv).read_at(), u)
                == vals@[u],
    ensures
        final(conv).wf(),
        final(conv).slots() == old(conv).slots(),
        final(conv).capacity_spec() == old(conv).capacity_spec(),
        final(conv).write_at() == old(conv).write_at(),
        final(conv).read_at() == (old(conv).read_at() + two_b as int) % old(conv).capacity_spec(),
        w@.len() == two_b as int,
        as_ints(w@) == vals@,
{
    let ghost cap = conv.capacity_spec();
    let ghost read0 = conv.read_at();
    proof {
        lemma_small_mod(read0 as nat, cap as nat);
        assert forall|u: int|
            0 <= u < two_b as int implies #[trigger] conv.slots()[(read0 + u) % cap] == vals@[u]
            by {
            assert(slot_at(*conv, read0, u) == vals@[u]);
        }
    }
    let mut w: Vec<i64> = Vec::new();
    let mut t: usize = 0;
    while t < two_b
        invariant
            t <= two_b,
            2 <= two_b,
            conv.wf(),
            conv.capacity_spec() == cap,
            cap == two_b as int + 1,
            conv.slots() == old(conv).slots(),
            conv.write_at() == old(conv).write_at(),
            0 <= read0 < cap,
            conv.read_at() == (read0 + t as int) % cap,
            vals@.len() == two_b as int,
            forall|u: int|
                0 <= u < two_b as int ==> #[trigger] old(conv).slots()[(read0 + u) % cap]
                    == vals@[u],
            w@.len() == t as int,
            forall|u: int| 0 <= u < t as int ==> (#[trigger] w@[u]) as int == vals@[u],
        decreases two_b - t,
    {
        let v = conv.pop();
        proof {
            lemma_add_mod_noop(read0 + t as int, 1int, cap);
            lemma_small_mod(1nat, cap as nat);
            assert(v as int == vals@[t as int]);
        }
        w.push(v);
        t = t + 1;
    }
    proof {
        assert(as_ints(w@) =~= vals@);
    }
    w
}

/// One overlap-add pass over the output accumulator: pops and emits the
/// `two_b` finalized samples (each the popped partial sum plus the window's
/// contribution), read-modify-writes the still-pending positions, and pushes
/// the window's fresh reach beyond them.
fn merge_output(
    acc: &mut RingBuffer,
    sums: &Vec<i64>,
    two_b: usize,
    pending: usize,
    prior: Ghost<Seq<int>>,
) -> (out: Vec<i64>)
    requires
        old(acc).wf(),
        2 <= two_b <= pending,
        old(acc).capacity_spec() == pending as int + 1,
        old(acc).write_at() == (old(acc).read_at() + pending as int) % old(acc).capacity_spec(),
        prior@.len() == pending as int,
        sums@.len() == two_b as int + pending as int,
        forall|j: int|
            0 <= j < pending as int ==> #[trigger] slot_at(*old(acc), old(acc).read_at(), j)
                == prior@[j],
        forall|j: int|
            0 <= j < pending as int ==> -mag_limit(MAX_IR_LEN as int) <= #[trigger] prior@[j]
                <= mag_limit(MAX_IR_LEN as int),
        forall|m: int|
            0 <= m < sums@.len() ==> -mag_limit(MAX_IR_LEN as int + 2 * MAX_BLOCK_SIZE as int)
                <= (#[trigger] sums@[m]) as int <= mag_limit(
                MAX_IR_LEN as int + 2 * MAX_BLOCK_SIZE as int,
            ),
    ensures
        final(acc).wf(),
        final(acc).capacity_spec() == old(acc).capacity_spec(),
        final(acc).read_at() == (old(acc).read_at() + two_b as int) % old(acc).capacity_spec(),
        final(acc).write_at() == (final(acc).read_at() + pending as int) % old(
            acc,
        ).capacity_spec(),
        out@.len() == two_b as int,
        forall|i: int|
            0 <= i < two_b as int ==> (#[trigger] out@[i]) as int == prior@[i] + sums@[i],
        forall|j: int|
            0 <= j < pending as int ==> #[trigger] slot_at(*final(acc), final(acc).read_at(), j)
                == if j < pending as int - two_b as int {
                prior@[two_b as int + j] + sums@[two_b as int + j]
            } else {
                sums@[two_b as int + j] as int
            },
{
    let ghost ocap = acc.capacity_spec();
    let ghost read0 = acc.read_at();
    let ghost write0 = acc.write_at();
    proof {
        assert(mag_limit(MAX_IR_LEN as int) + mag_limit(
            MAX_IR_LEN as int + 2 * MAX_BLOCK_SIZE as int,
        ) == 4611686018427387904) by (nonlinear_arith);
    }
    proof {
        lemma_small_mod(read0 as nat, ocap as nat);
        assert forall|j: int|
            0 <= j < pending as int implies #[trigger] acc.slots()[(read0 + j) % ocap] == prior@[j]
            by {
            assert(slot_at(*acc, read0, j) == prior@[j]);
        }
    }
    let mut out: Vec<i64> = Vec::new();
    let mut i: usize = 0;
    while i < two_b
        invariant
            i <= two_b,
            2 <= two_b <= pending,
            acc.wf(),
            acc.capacity_spec() == ocap,
            ocap == pending as int + 1,
            acc.slots() == old(acc).slots(),
            acc.write_at() == write0,
            0 <= read0 < ocap,
            write0 == (read0 + pending as int) % ocap,
            acc.read_at() == (read0 + i as int) % ocap,
            prior@.len() == pending as int,
            sums@.len() == two_b as int + pending as int,
            forall|j: int|
                0 <= j < pending as int ==> #[trigger] old(acc).slots()[(read0 + j) % ocap]
                    == prior@[j],
            forall|j: int|
                0 <= j < pending as int ==> -mag_limit(MAX_IR_LEN as int) <= #[trigger] prior@[j]
                    <= mag_limit(MAX_IR_LEN as int),
            forall|m: int|
                0 <= m < sums@.len() ==> -mag_limit(MAX_IR_LEN as int + 2 * MAX_BLOCK_SIZE as int)
                    <= (#[trigger] sums@[m]) as int <= mag_limit(
                    MAX_IR_LEN as int + 2 * MAX_BLOCK_SIZE as int,
                ),
            mag_limit(MAX_IR_LEN as int) + mag_limit(
                MAX_IR_LEN as int + 2 * MAX_BLOCK_SIZE as int,
            ) == 4611686018427387904,
            out@.len() == i as int,
            forall|u: int|
                0 <= u < i as int ==> (#[trigger] out@[u]) as int == prior@[u] + sums@[u],
        decreases two_b - i,
    {
        let prev = acc.pop();
        proof {
            lemma_add_mod_noop(read0 + i as int, 1int, ocap);
            lemma_small_mod(1nat, ocap as nat);
            assert(prev as int == prior@[i as int]);
        }
        out.push(prev + sums[i]);
        i = i + 1;
    }
    let rmw = pending - two_b;
    let ghost read1 = acc.read_at();
    proof {
        lemma_mod_division_less_than_divisor(read0 + two_b as int, ocap);
        assert forall|u: int|
            0 <= u < rmw as int implies #[trigger] acc.slots()[(read1 + u) % ocap] == prior@[
        two_b as int + u] by {
            lemma_add_mod_noop(read0 + two_b as int, u, ocap);
            lemma_small_mod(u as nat, ocap as nat);
            assert((read1 + u) % ocap == (read0 + (two_b as int + u)) % ocap);
        }
    }
    let mut j: usize = 0;
    while j < rmw
        invariant
            j <= rmw,
            rmw as int == pending as int - two_b as int,
            2 <= two_b <= pending,
            acc.wf(),
            acc.capacity_spec() == ocap,
            ocap == pending as int + 1,
            acc.write_at() == write0,
            acc.read_at() == read1,
            0 <= read1 < ocap,
            prior@.len() == pending as int,
            sums@.len() == two_b as int + pending as int,
            forall|u: int|
                0 <= u < j as int ==> #[trigger] acc.slots()[(read1 + u) % ocap] == prior@[
                two_b as int + u] + sums@[two_b as int + u],
            forall|u: int|
                j as int <= u < rmw as int ==> #[trigger] acc.slots()[(read1 + u) % ocap]
                    == prior@[two_b as int + u],
            forall|jj: int|
                0 <= jj < pending as int ==> -mag_limit(MAX_IR_LEN as int)
                    <= #[trigger] prior@[jj] <= mag_limit(MAX_IR_LEN as int),
            forall|m: int|
                0 <= m < sums@.len() ==> -mag_limit(MAX_IR_LEN as int + 2 * MAX_BLOCK_SIZE as int)
                    <= (#[trigger] sums@[m]) as int <= mag_limit(
                    MAX_IR_LEN as int + 2 * MAX_BLOCK_SIZE as int,
                ),
            mag_limit(MAX_IR_LEN as int) + mag_limit(
                MAX_IR_LEN as int + 2 * MAX_BLOCK_SIZE as int,
            ) == 4611686018427387904,
        decreases rmw - j,
    {
        let current = acc.get(j);
        let updated = current + sums[two_b + j];
        let ghost slots_pre = acc.slots();
        acc.set(j, updated);
        proof {
            assert forall|u: int|
                0 <= u < rmw as int && u != j as int implies #[trigger] acc.slots()[(read1 + u)
                % ocap] == slots_pre[(read1 + u) % ocap] by {
                lemma_mod_offset_injective(read1, u, j as int, ocap);
                lemma_mod_division_less_than_divisor(read1 + u, ocap);
            }
        }
        j = j + 1;
    }
    let mut u: usize = rmw;
    proof {
        lemma_add_mod_noop(read0 + two_b as int, rmw as int, ocap);
        lemma_small_mod(rmw as nat, ocap as nat);
        assert(write0 == (read1 + rmw as int) % ocap) by {
            assert((read1 + rmw as int) % ocap == (read0 + two_b as int + rmw as int) % ocap);
        }
    }
    while u < pending
        invariant
            rmw as int == pending as int - two_b as int,
            rmw <= u <= pending,
            2 <= two_b <= pending,
            acc.wf(),
            acc.capacity_spec() == ocap,
            ocap == pending as int + 1,
            acc.read_at() == read1,
            0 <= read1 < ocap,
            acc.write_at() == (read1 + u as int) % ocap,
            prior@.len() == pending as int,
            sums@.len() == two_b as int + pending as int,
            forall|jj: int|
                0 <= jj < rmw as int ==> #[trigger] acc.slots()[(read1 + jj) % ocap] == prior@[
                two_b as int + jj] + sums@[two_b as int + jj],
            forall|jj: int|
                rmw as int <= jj < u as int ==> #[trigger] acc.slots()[(read1 + jj) % ocap]
                    == sums@[two_b as int + jj] as int,
        decreases pending - u,
    {
        let value = sums[two_b + u];
        let ghost slots_pre = acc.slots();
        acc.push(value);
        proof {
            lemma_add_mod_noop(read1 + u as int, 1int, ocap);
            lemma_small_mod(1nat, ocap as nat);
            assert forall|jj: int|
                0 <= jj < u as int implies #[trigger] acc.slots()[(read1 + jj) % ocap]
                == slots_pre[(read1 + jj) % ocap] by {
                lemma_mod_offset_injective(read1, jj, u as int, ocap);
                lemma_mod_division_less_than_divisor(read1 + jj, ocap);
            }
        }
        u = u + 1;
    }
    proof {
        lemma_add_mod_noop(read0 + two_b as int, pending as int, ocap);
        lemma_small_mod(pending as nat, ocap as nat);
        assert((read1 + pending as int) % ocap == (read0 + two_b as int + pending as int) % ocap);
    }
    out
}

/// Copies a vector of samples.
fn copy_samples(v: &Vec<i64>) -> (r: Vec<i64>)
    ensures
        r@ == v@,
{
    let mut r: Vec<i64> = Vec::new();
    let mut i: usize = 0;
    while i < v.len()
        invariant
            i <= v@.len(),
            r@ == v@.take(i as int),
        decreases v@.len() - i,
    {
        r.push(v[i]);
        proof {
            assert(r@ =~= v@.take(i as int + 1));
        }
        i = i + 1;
    }
    proof {
        assert(v@.take(v@.len() as int) =~= v@);
    }
    r
}

/// A vector of `n` silent samples.
fn zeros_vec(n: usize) -> (r: Vec<i64>)
    ensures
        r@.len() == n as int,
        forall|i: int| 0 <= i < n as int ==> #[trigger] r@[i] == 0i64,
{
    let mut r: Vec<i64> = Vec::new();
    let mut i: usize = 0;
    while i < n
        invariant
            i <= n,
            r@.len() == i as int,
            forall|j: int| 0 <= j < i as int ==> #[trigger] r@[j] == 0i64,
        decreases n - i,
    {
        r.push(0i64);
        i = i + 1;
    }
    r
}

/// The streaming convolution engine. See the module documentation.
pub struct FastConvolver {
    impulse_response: Vec<i64>,
    mode: ConvolutionMode,
    conv_buffer: RingBuffer,
    impulse_response_block: Vec<Vec<i64>>,
    block_size: usize,
    output_buffer: RingBuffer,
    history_count: usize,
    fill: usize,
    inputs: Ghost<Seq<int>>,
}

impl FastConvolver {
    /// The impulse response the engine was built with.
    pub closed spec fn ir(self) -> Seq<int> {
        as_ints(self.impulse_response@)
    }

    /// Every sample ever fed through the engine's recurrence: real input of
    /// `process`/`process_freq` calls, followed by the silence a flush feeds.
    pub closed spec fn history(self) -> Seq<int> {
        self.inputs@
    }

    /// The mode the engine was built with.
    pub closed spec fn mode_spec(self) -> ConvolutionMode {
        self.mode
    }

    pub open spec fn is_time_domain(self) -> bool {
        self.mode_spec() is TimeDomain
    }

    pub open spec fn is_frequency_domain(self) -> bool {
        self.mode_spec() is FrequencyDomain
    }

    /// The partition size of a frequency-domain engine.
    pub open spec fn block_size_spec(self) -> int {
        self.mode_spec()->block_size as int
    }

    /// Input samples buffered but not yet consumed by an analysis step.
    /// Zero in time-domain mode, where every sample is emitted at once.
    pub closed spec fn buffered(self) -> int {
        self.fill as int
    }

    /// The number of output samples the engine has emitted so far. The
    /// samples owed to the caller are those at positions `emitted()` and
    /// beyond.
    pub open spec fn emitted(self) -> int {
        self.history().len() - self.buffered()
    }

    /// The number of partitions the impulse response was split into.
    pub closed spec fn partition_count(self) -> int {
        self.impulse_response_block@.len() as int
    }

    /// The impulse response's length rounded up to whole partitions.
    pub closed spec fn padded_len(self) -> int {
        self.partition_count() * self.block_size as int
    }

    /// The impulse response, zero-padded on the right to whole partitions.
    pub closed spec fn padded_ir(self) -> Seq<int> {
        Seq::new(
            self.padded_len() as nat,
            |j: int|
                if j < self.ir().len() {
                    self.ir()[j]
                } else {
                    0
                },
        )
    }

    /// The output accumulator's occupancy: enough pending positions to hold
    /// every partition's reach past the emitted prefix.
    pub closed spec fn pending(self) -> int {
        if self.padded_len() >= 2 * self.block_size as int {
            self.padded_len()
        } else {
            2 * self.block_size as int
        }
    }

    /// The slot holding the `k`-th most recently pushed history sample.
    pub closed spec fn recent_slot(self, k: int) -> int {
        self.conv_buffer.slots()[(self.conv_buffer.write_at() - 1 - k) % self.conv_buffer.capacity_spec()]
    }

    /// The input accumulator's slot `t` positions past its read cursor.
    pub closed spec fn in_slot(self, t: int) -> int {
        self.conv_buffer.slots()[(self.conv_buffer.read_at() + t) % self.conv_buffer.capacity_spec()]
    }

    /// The output accumulator's slot `j` positions past its read cursor.
    pub closed spec fn acc_slot(self, j: int) -> int {
        self.output_buffer.slots()[(self.output_buffer.read_at() + j) % self.output_buffer.capacity_spec()]
    }

    spec fn common_inv(self) -> bool {
        &&& 1 <= self.ir().len() <= MAX_IR_LEN as int
        &&& bounded(self.ir())
        &&& bounded(self.history())
    }

    spec fn time_inv(self) -> bool {
        &&& self.mode is TimeDomain
        &&& self.conv_buffer.wf()
        &&& self.conv_buffer.capacity_spec() == 2 * self.ir().len()
        &&& self.history_count as int == if self.history().len() < self.ir().len() {
            self.history().len() as int
        } else {
            self.ir().len() as int
        }
        &&& forall|k: int|
            0 <= k < self.history_count as int ==> #[trigger] self.recent_slot(k) == self.history()[self.history().len() - 1 - k]
        &&& self.fill == 0
        &&& self.block_size == 0
        &&& self.impulse_response_block@.len() == 0
        &&& self.output_buffer.wf()
    }

    spec fn freq_inv(self) -> bool {
        let b = self.block_size as int;
        let n = self.partition_count();
        let p = self.pending();
        let c = self.emitted();
        &&& self.mode matches ConvolutionMode::FrequencyDomain { block_size } && block_size
            == self.block_size
        &&& 1 <= b <= MAX_BLOCK_SIZE as int
        &&& n == (self.ir().len() + b - 1) / b
        &&& forall|i: int|
            0 <= i < n ==> (#[trigger] self.impulse_response_block@[i])@.len() == b
        &&& forall|i: int, k: int|
            0 <= i < n && 0 <= k < b ==> (#[trigger] self.impulse_response_block@[i]@[k]) as int
                == self.padded_ir()[i * b + k]
        &&& self.conv_buffer.wf()
        &&& self.conv_buffer.capacity_spec() == 2 * b + 1
        &&& self.fill as int <= 2 * b
        &&& c >= 0
        &&& c % (2 * b) == 0
        &&& self.conv_buffer.write_at() == (self.conv_buffer.read_at() + self.fill as int)
            % self.conv_buffer.capacity_spec()
        &&& forall|t: int|
            0 <= t < self.fill as int ==> #[trigger] self.in_slot(t) == self.history()[c + t]
        &&& self.output_buffer.wf()
        &&& self.output_buffer.capacity_spec() == p + 1
        &&& self.output_buffer.write_at() == (self.output_buffer.read_at() + p)
            % self.output_buffer.capacity_spec()
        &&& forall|j: int|
            0 <= j < p ==> #[trigger] self.acc_slot(j) == conv_at(
                self.history().take(c),
                self.ir(),
                c + j,
            )
        &&& self.history_count == 0
    }

    /// The engine's invariant: established by `new` and preserved by every
    /// method.
    pub closed spec fn wf(self) -> bool {
        &&& self.common_inv()
        &&& match self.mode {
            ConvolutionMode::TimeDomain => self.time_inv(),
            ConvolutionMode::FrequencyDomain { .. } => self.freq_inv() && self.buffered() < 2
                * self.block_size as int,
        }
    }

    /// Builds an engine for the given impulse response and mode. In
    /// frequency-domain mode the impulse response is partitioned and the
    /// output accumulator is pre-filled with the silence that represents the
    /// start-up latency; in time-domain mode a history buffer of twice the
    /// impulse response's length is allocated.
    pub fn new(impulse_response: &Vec<i64>, mode: ConvolutionMode) -> (r: FastConvolver)
        requires
            1 <= impulse_response@.len() <= MAX_IR_LEN,
            bounded(as_ints(impulse_response@)),
            mode matches ConvolutionMode::FrequencyDomain { block_size } ==> 1 <= block_size
                <= MAX_BLOCK_SIZE,
        ensures
            r.wf(),
            r.ir() == as_ints(impulse_response@),
            r.mode_spec() == mode,
            r.history() == Seq::<int>::empty(),
            r.emitted() == 0,
    {
        match mode {
            ConvolutionMode::TimeDomain => {
                let conv_buffer = RingBuffer::new(2 * impulse_response.len());
                let output_buffer = RingBuffer::new(1);
                let r = FastConvolver {
                    impulse_response: copy_samples(impulse_response),
                    mode,
                    conv_buffer,
                    impulse_response_block: Vec::new(),
                    block_size: 0,
                    output_buffer,
                    history_count: 0,
                    fill: 0,
                    inputs: Ghost(Seq::empty()),
                };
                r
            },
            ConvolutionMode::FrequencyDomain { block_size } => {
                let blocks = Self::get_impulse_block(impulse_response, block_size);
                let n = blocks.len();
                proof {
                    lemma_partition_total(impulse_response@.len() as int, block_size as int);
                }
                let padded = n * block_size;
                let two_b = 2 * block_size;
                let pending = if padded > two_b {
                    padded
                } else {
                    two_b
                };
                let mut conv_buffer = RingBuffer::new(two_b + 1);
                conv_buffer.set_write_index(0);
                let mut output_buffer = RingBuffer::new(pending + 1);
                output_buffer.set_write_index(pending);
                let r = FastConvolver {
                    impulse_response: copy_samples(impulse_response),
                    mode,
                    conv_buffer,
                    impulse_response_block: blocks,
                    block_size,
                    output_buffer,
                    history_count: 0,
                    fill: 0,
                    inputs: Ghost(Seq::empty()),
                };
                proof {
                    let b = block_size as int;
                    let p = r.pending();
                    let ocap = r.output_buffer.capacity_spec();
                    lemma_small_mod(0nat, (2 * b + 1) as nat);
                    lemma_small_mod(0nat, (2 * b) as nat);
                    lemma_small_mod(p as nat, ocap as nat);
                    assert forall|i: int, k: int|
                        0 <= i < r.partition_count() && 0 <= k < b implies (
                    #[trigger] r.impulse_response_block@[i]@[k]) as int == r.padded_ir()[i * b
                        + k] by {
                        assert(0 <= i * b + k < r.padded_len()) by (nonlinear_arith)
                            requires
                                0 <= i <= r.partition_count() - 1,
                                0 <= k <= b - 1,
                                b >= 1,
                                r.padded_len() == r.partition_count() * b,
                        ;
                    }
                    assert forall|j: int| 0 <= j < p implies #[trigger] r.acc_slot(j) == conv_at(
                        r.history().take(0),
                        r.ir(),
                        j,
                    ) by {
                        lemma_mod_division_less_than_divisor(0 + j, ocap);
                        assert(r.acc_slot(j) == 0);
                        assert(r.history().take(0) =~= Seq::<int>::empty());
                        lemma_zero_in_zero_out(Seq::<int>::empty(), r.ir(), j);
                    }
                    assert(r.freq_inv());
                }
                r
            },
        }
    }

    /// Clears the engine back to its just-constructed state: history and
    /// accumulators emptied, impulse response and mode kept.
    pub fn reset(&mut self)
        requires
            old(self).wf(),
        ensures
            final(self).wf(),
            final(self).ir() == old(self).ir(),
            final(self).mode_spec() == old(self).mode_spec(),
            final(self).history() == Seq::<int>::empty(),
            final(self).emitted() == 0,
    {
        self.conv_buffer.reset();
        self.history_count = 0;
        self.fill = 0;
        proof {
            self.inputs@ = Seq::empty();
        }
        match self.mode {
            ConvolutionMode::TimeDomain => {},
            ConvolutionMode::FrequencyDomain { .. } => {
                proof {
                    lemma_partition_total(self.ir().len() as int, self.block_size as int);
                }
                self.conv_buffer.set_write_index(0);
                self.output_buffer.reset();
                let n = self.impulse_response_block.len();
                let padded = n * self.block_size;
                let two_b = 2 * self.block_size;
                let pending = if padded > two_b {
                    padded
                } else {
                    two_b
                };
                self.output_buffer.set_write_index(pending);
                proof {
                    let b = self.block_size as int;
                    let p = self.pending();
                    let ocap = self.output_buffer.capacity_spec();
                    lemma_small_mod(0nat, (2 * b + 1) as nat);
                    lemma_small_mod(0nat, (2 * b) as nat);
                    lemma_small_mod(p as nat, ocap as nat);
                    assert forall|j: int| 0 <= j < p implies #[trigger] self.acc_slot(j)
                        == conv_at(self.history().take(0), self.ir(), j) by {
                        lemma_mod_division_less_than_divisor(0 + j, ocap);
                        assert(self.acc_slot(j) == 0);
                        assert(self.history().take(0) =~= Seq::<int>::empty());
                        lemma_zero_in_zero_out(Seq::<int>::empty(), self.ir(), j);
                    }
                    assert(self.freq_inv());
                }
            },
        }
    }

    /// Splits the impulse response into blocks of `block_size` samples, the
    /// last block zero-padded on the right: the impulse-response partition
    /// set of the frequency-domain engine.
    pub fn get_impulse_block(impulse_response: &Vec<i64>, block_size: usize) -> (blocks: Vec<
        Vec<i64>,
    >)
        requires
            1 <= impulse_response@.len() <= MAX_IR_LEN,
            1 <= block_size <= MAX_BLOCK_SIZE,
        ensures
            blocks@.len() == (impulse_response@.len() as int + block_size as int - 1) / (
            block_size as int),
            forall|i: int|
                0 <= i < blocks@.len() ==> (#[trigger] blocks@[i])@.len() == block_size as int,
            forall|i: int, k: int|
                0 <= i < blocks@.len() && 0 <= k < block_size as int ==> (
                #[trigger] blocks@[i]@[k]) as int == if i * block_size as int + k
                    < impulse_response@.len() {
                    as_ints(impulse_response@)[i * block_size as int + k]
                } else {
                    0
                },
    {
        let length = impulse_response.len();
        let count = (length + block_size - 1) / block_size;
        let mut blocks: Vec<Vec<i64>> = Vec::new();
        let mut i: usize = 0;
        while i < count
            invariant
                i <= count,
                1 <= length <= MAX_IR_LEN,
                1 <= block_size <= MAX_BLOCK_SIZE,
                length == impulse_response@.len(),
                count as int == ((length as int) + (block_size as int) - 1) / (block_size as int),
                blocks@.len() == i as int,
                forall|ii: int|
                    0 <= ii < i as int ==> (#[trigger] blocks@[ii])@.len() == block_size as int,
                forall|ii: int, k: int|
                    0 <= ii < i as int && 0 <= k < block_size as int ==> (
                    #[trigger] blocks@[ii]@[k]) as int == if ii * block_size as int + k
                        < length as int {
                        as_ints(impulse_response@)[ii * block_size as int + k]
                    } else {
                        0
                    },
            decreases count - i,
        {
            proof {
                assert(i as int * block_size as int <= (count - 1) * block_size as int)
                    by (nonlinear_arith)
                    requires
                        i as int <= count - 1,
                        block_size >= 1,
                ;
                assert((count - 1) * (block_size as int) < (length as int) + (block_size as int)) by {
                    lemma_fundamental_div_mod(
                        length as int + block_size as int - 1,
                        block_size as int,
                    );
                    lemma_mod_division_less_than_divisor(
                        length as int + block_size as int - 1,
                        block_size as int,
                    );
                    assert(count as int * block_size as int == block_size as int * count as int)
                        by (nonlinear_arith);
                    assert((count - 1) * block_size as int == count as int * block_size as int
                        - block_size as int) by (nonlinear_arith);
                }
            }
            let base = i * block_size;
            let mut block: Vec<i64> = Vec::new();
            let mut k: usize = 0;
            while k < block_size
                invariant
                    k <= block_size,
                    1 <= block_size <= MAX_BLOCK_SIZE,
                    1 <= length <= MAX_IR_LEN,
                    length == impulse_response@.len(),
                    base == i as int * block_size as int,
                    base < length + block_size,
                    block@.len() == k as int,
                    forall|kk: int|
                        0 <= kk < k as int ==> (#[trigger] block@[kk]) as int == if base + kk
                            < length as int {
                            as_ints(impulse_response@)[base + kk]
                        } else {
                            0
                        },
                decreases block_size - k,
            {
                let index = base + k;
                if index < length {
                    block.push(impulse_response[index]);
                } else {
                    block.push(0i64);
                }
                k = k + 1;
            }
            blocks.push(block);
            i = i + 1;
        }
        blocks
    }

    /// The convolution tail's length: one less than the impulse response's.
    /// `flush`/`flush_freq` ultimately yield exactly this many samples.
    pub fn get_tail_size(&self) -> (r: usize)
        requires
            self.wf(),
        ensures
            r as int == self.ir().len() - 1,
    {
        self.impulse_response.len() - 1
    }

    /// How many impulse-response taps the next dot-product covers: the whole
    /// impulse response once the history is long enough, the history's length
    /// before that.
    pub fn get_conv_length(&self) -> (r: usize)
        requires
            self.wf(),
            self.is_time_domain(),
        ensures
            r as int == if self.history().len() < self.ir().len() {
                self.history().len() as int
            } else {
                self.ir().len() as int
            },
    {
        if self.history_count < self.impulse_response.len() {
            self.history_count
        } else {
            self.impulse_response.len()
        }
    }

    /// The full dot-product of the history against the impulse response,
    /// most-recent-sample-first: the convolution at the latest position.
    pub fn calculate_conv_sum(&self) -> (r: i64)
        requires
            self.wf(),
            self.is_time_domain(),
        ensures
            r as int == conv_at(self.history(), self.ir(), self.history().len() - 1),
    {
        let conv_length = self.get_conv_length();
        let capacity = self.conv_buffer.capacity();
        let write_index = self.conv_buffer.get_write_index();
        let read_index = self.conv_buffer.get_read_index();
        let ghost x = self.history();
        let ghost h = self.ir();
        let ghost n = x.len() as int - 1;
        let ghost lim = SAMPLE_LIMIT as int;
        let mut conv_sum: i64 = 0;
        let mut k: usize = 0;
        while k < conv_length
            invariant
                self.wf(),
                self.is_time_domain(),
                x == self.history(),
                h == self.ir(),
                n == x.len() as int - 1,
                lim == SAMPLE_LIMIT as int,
                k <= conv_length,
                conv_length as int == if x.len() < h.len() {
                    x.len() as int
                } else {
                    h.len() as int
                },
                capacity as int == self.conv_buffer.capacity_spec(),
                write_index as int == self.conv_buffer.write_at(),
                read_index as int == self.conv_buffer.read_at(),
                conv_sum as int == conv_prefix(x, h, n, k as int),
            decreases conv_length - k,
        {
            proof {
                lemma_conv_prefix_bound(x, h, n, k as int);
                assert(k as int * lim * lim <= MAX_IR_LEN as int * lim * lim) by (nonlinear_arith)
                    requires
                        0 <= k as int <= MAX_IR_LEN as int,
                        lim > 0,
                ;
            }
            let offset = (write_index + capacity - 1 - k + capacity - read_index) % capacity;
            let cur_data = self.conv_buffer.get(offset);
            let cur_kernel = self.impulse_response[k];
            proof {
                let cap = capacity as int;
                let w = write_index as int;
                let rd = read_index as int;
                lemma_add_mod_noop_right(rd, w + 2 * cap - 1 - k - rd, cap);
                lemma_mod_shift_cycle(w - 1 - k, 2, cap);
                assert((rd + (w + 2 * cap - 1 - k - rd)) % cap == (w - 1 - k) % cap) by {
                    assert(rd + (w + 2 * cap - 1 - k - rd) == w - 1 - k + 2 * cap);
                }
                assert(cur_data as int == self.recent_slot(k as int));
                assert(cur_data as int == x[x.len() - 1 - k]);
                assert(cur_kernel as int == h[k as int]);
                assert(-(lim * lim) <= cur_data as int * cur_kernel as int <= lim * lim)
                    by (nonlinear_arith)
                    requires
                        -lim <= cur_data as int <= lim,
                        -lim <= cur_kernel as int <= lim,
                        lim > 0,
                ;
                assert(conv_term(x, h, n, k as int) == h[k as int] * x[n - k]);
                assert(cur_data as int * cur_kernel as int == h[k as int] * x[n - k])
                    by (nonlinear_arith)
                    requires
                        cur_data as int == x[n - k],
                        cur_kernel as int == h[k as int],
                ;
            }
            conv_sum = conv_sum + cur_data * cur_kernel;
            k = k + 1;
        }
        proof {
            if x.len() < h.len() {
                lemma_conv_prefix_high_taps(x, h, n, conv_length as int, h.len() as int);
            }
        }
        conv_sum
    }

    /// Pushes one sample into the time-domain history.
    fn push_history(&mut self, value: i64)
        requires
            old(self).wf(),
            old(self).is_time_domain(),
            -SAMPLE_LIMIT <= value <= SAMPLE_LIMIT,
        ensures
            final(self).wf(),
            final(self).is_time_domain(),
            final(self).ir() == old(self).ir(),
            final(self).mode_spec() == old(self).mode_spec(),
            final(self).history() == old(self).history().push(value as int),
    {
        let ghost x = self.history();
        let ghost cap = self.conv_buffer.capacity_spec();
        let ghost w = self.conv_buffer.write_at();
        self.conv_buffer.push(value);
        if self.history_count < self.impulse_response.len() {
            self.history_count = self.history_count + 1;
        }
        proof {
            self.inputs@ = self.inputs@.push(value as int);
        }
        proof {
            let x2 = self.history();
            assert forall|k: int| 0 <= k < self.history_count as int implies #[trigger] self
                .recent_slot(k) == x2[x2.len() - 1 - k] by {
                let w2 = self.conv_buffer.write_at();
                assert(w2 == (w + 1) % cap);
                if w + 1 < cap {
                    lemma_small_mod((w + 1) as nat, cap as nat);
                    assert(w2 == w + 1);
                } else {
                    assert(w + 1 == cap);
                    vstd::arithmetic::div_mod::lemma_mod_self_0(cap);
                    assert(w2 == 0);
                }
                assert((w2 - 1 - k) % cap == (w - k) % cap) by {
                    if w + 1 < cap {
                    } else {
                        lemma_mod_add_multiples_vanish(-1 - k, cap);
                        assert(cap + (-1 - k) == w - k);
                    }
                }
                if k == 0 {
                    lemma_small_mod(w as nat, cap as nat);
                    assert(self.conv_buffer.slots()[(w - 0) % cap] == value as int);
                } else {
                    assert((w - k) % cap == (w + (cap - k)) % cap) by {
                        lemma_mod_add_multiples_vanish(w - k, cap);
                    }
                    lemma_mod_offset_injective(w, cap - k, 0, cap);
                    lemma_small_mod(w as nat, cap as nat);
                    assert((w + (cap - k)) % cap != w);
                    lemma_mod_division_less_than_divisor(w + (cap - k), cap);
                    assert(self.conv_buffer.slots()[(w - k) % cap] == old(
                        self,
                    ).conv_buffer.slots()[(w - k) % cap]);
                    assert(old(self).recent_slot(k - 1) == old(self).conv_buffer.slots()[(w - 1 - (
                    k - 1)) % cap]);
                    assert(old(self).recent_slot(k - 1) == x[x.len() - 1 - (k - 1)]);
                    assert(x2[x2.len() - 1 - k] == x[x.len() - 1 - (k - 1)]);
                }
            }
        }
    }

    /// Feeds `input` through the time-domain recurrence and fills `output`
    /// with the convolved samples: `output[i]` is the convolution of
    /// everything pushed so far at the position of `input[i]`. Fails with
    /// `WrongMode` against a frequency-domain engine and with
    /// `LengthMismatch` when `input` and `output` disagree in length, and in
    /// both cases changes nothing.
    pub fn process(&mut self, input: &Vec<i64>, output: &mut Vec<i64>) -> (r: Result<(), Error>)
        requires
            old(self).wf(),
            bounded(as_ints(input@)),
        ensures
            final(self).ir() == old(self).ir(),
            final(self).mode_spec() == old(self).mode_spec(),
            match r {
                Result::Ok(_) => {
                    &&& old(self).is_time_domain()
                    &&& input@.len() == old(output)@.len()
                    &&& final(self).wf()
                    &&& final(self).history() == old(self).history() + as_ints(input@)
                    &&& final(output)@.len() == input@.len()
                    &&& forall|i: int|
                        0 <= i < input@.len() ==> (#[trigger] final(output)@[i]) as int == conv_at(
                            final(self).history(),
                            old(self).ir(),
                            old(self).history().len() + i,
                        )
                },
                Result::Err(e) => {
                    &&& *final(self) == *old(self)
                    &&& *final(output) == *old(output)
                    &&& (e == Error::WrongMode || e == Error::LengthMismatch)
                    &&& (e == Error::WrongMode <==> !old(self).is_time_domain())
                    &&& (e == Error::LengthMismatch <==> old(self).is_time_domain() && input@.len()
                        != old(output)@.len())
                },
            },
    {
        match self.mode {
            ConvolutionMode::FrequencyDomain { .. } => {
                return Result::Err(Error::WrongMode);
            },
            ConvolutionMode::TimeDomain => {},
        }
        if input.len() != output.len() {
            return Result::Err(Error::LengthMismatch);
        }
        let ghost x0 = self.history();
        let ghost h = self.ir();
        output.clear();
        let mut n: usize = 0;
        while n < input.len()
            invariant
                n <= input@.len(),
                bounded(as_ints(input@)),
                self.wf(),
                self.is_time_domain(),
                self.ir() == h,
                self.mode_spec() == old(self).mode_spec(),
                self.history() == x0 + as_ints(input@).take(n as int),
                output@.len() == n as int,
                forall|i: int|
                    0 <= i < n as int ==> (#[trigger] output@[i]) as int == conv_at(
                        self.history(),
                        h,
                        x0.len() + i,
                    ),
            decreases input@.len() - n,
        {
            let ghost x_before = self.history();
            let value = input[n];
            assert(as_ints(input@)[n as int] == value as int);
            self.push_history(value);
            proof {
                assert(self.history() =~= x0 + as_ints(input@).take(n as int + 1));
                assert(x_before + seq![value as int] =~= self.history());
                assert forall|i: int| 0 <= i < n as int implies (#[trigger] output@[i]) as int
                    == conv_at(self.history(), h, x0.len() + i) by {
                    lemma_block_size_invariance(x_before, seq![value as int], h, x0.len() + i);
                }
            }
            let sum = self.calculate_conv_sum();
            output.push(sum);
            n = n + 1;
        }
        proof {
            assert(as_ints(input@).take(input@.len() as int) =~= as_ints(input@));
        }
        Result::Ok(())
    }

    /// Feeds `output.len()` zero samples through the time-domain recurrence,
    /// draining the remaining influence of previously pushed real samples.
    /// Requesting exactly `get_tail_size()` samples retrieves the full tail;
    /// requesting fewer truncates it, requesting more yields trailing zeros.
    /// Fails with `WrongMode` against a frequency-domain engine.
    pub fn flush(&mut self, output: &mut Vec<i64>) -> (r: Result<(), Error>)
        requires
            old(self).wf(),
        ensures
            final(self).ir() == old(self).ir(),
            final(self).mode_spec() == old(self).mode_spec(),
            match r {
                Result::Ok(_) => {
                    &&& old(self).is_time_domain()
                    &&& final(self).wf()
                    &&& final(self).history() == old(self).history() + zeros(old(output)@.len())
                    &&& final(output)@.len() == old(output)@.len()
                    &&& forall|i: int|
                        0 <= i < final(output)@.len() ==> (#[trigger] final(output)@[i]) as int
                            == conv_at(
                            old(self).history(),
                            old(self).ir(),
                            old(self).history().len() + i,
                        )
                },
                Result::Err(e) => {
                    &&& *final(self) == *old(self)
                    &&& *final(output) == *old(output)
                    &&& e == Error::WrongMode
                    &&& !old(self).is_time_domain()
                },
            },
    {
        match self.mode {
            ConvolutionMode::FrequencyDomain { .. } => {
                return Result::Err(Error::WrongMode);
            },
            ConvolutionMode::TimeDomain => {},
        }
        let ghost x0 = self.history();
        let ghost h = self.ir();
        let count = output.len();
        output.clear();
        let mut n: usize = 0;
        while n < count
            invariant
                n <= count,
                self.wf(),
                self.is_time_domain(),
                self.ir() == h,
                self.mode_spec() == old(self).mode_spec(),
                self.history() == x0 + zeros(n as nat),
                output@.len() == n as int,
                forall|i: int|
                    0 <= i < n as int ==> (#[trigger] output@[i]) as int == conv_at(
                        x0,
                        h,
                        x0.len() + i,
                    ),
            decreases count - n,
        {
            self.push_history(0i64);
            proof {
                assert(self.history() =~= x0 + zeros((n + 1) as nat));
            }
            let sum = self.calculate_conv_sum();
            proof {
                lemma_conv_zero_extend(x0, zeros((n + 1) as nat), h, x0.len() + n as int);
                assert(self.history().len() - 1 == x0.len() + n as int);
            }
            output.push(sum);
            n = n + 1;
        }
        Result::Ok(())
    }

    /// The dot-product of one impulse-response partition against the analysis
    /// window at window-relative position `t`: the partition's contribution
    /// to one output sample.
    fn block_dot(block: &Vec<i64>, window: &Vec<i64>, t: usize) -> (r: i64)
        requires
            1 <= block@.len() <= MAX_BLOCK_SIZE,
            bounded(as_ints(block@)),
            bounded(as_ints(window@)),
        ensures
            r as int == conv_prefix(
                as_ints(window@),
                as_ints(block@),
                t as int,
                block@.len() as int,
            ),
    {
        let ghost wseq = as_ints(window@);
        let ghost bseq = as_ints(block@);
        let ghost lim = SAMPLE_LIMIT as int;
        let len = block.len();
        let window_len = window.len();
        let mut sum: i64 = 0;
        let mut k: usize = 0;
        while k < len
            invariant
                k <= len,
                len == block@.len(),
                1 <= len <= MAX_BLOCK_SIZE,
                window_len == window@.len(),
                wseq == as_ints(window@),
                bseq == as_ints(block@),
                bounded(wseq),
                bounded(bseq),
                lim == SAMPLE_LIMIT as int,
                sum as int == conv_prefix(wseq, bseq, t as int, k as int),
            decreases len - k,
        {
            proof {
                lemma_conv_prefix_bound(wseq, bseq, t as int, k as int);
                assert(k as int * lim * lim <= MAX_BLOCK_SIZE as int * lim * lim)
                    by (nonlinear_arith)
                    requires
                        0 <= k as int <= MAX_BLOCK_SIZE as int,
                        lim > 0,
                ;
            }
            if k <= t && t - k < window_len {
                let data = window[t - k];
                let kernel = block[k];
                proof {
                    assert(data as int == wseq[t - k]);
                    assert(kernel as int == bseq[k as int]);
                    assert(-(lim * lim) <= kernel as int * data as int <= lim * lim)
                        by (nonlinear_arith)
                        requires
                            -lim <= data as int <= lim,
                            -lim <= kernel as int <= lim,
                            lim > 0,
                    ;
                    assert(conv_term(wseq, bseq, t as int, k as int) == bseq[k as int] * wseq[
                        t as int - k as int]);
                    assert(kernel as int * data as int == bseq[k as int] * wseq[t as int - k as int])
                        by (nonlinear_arith)
                        requires
                            kernel as int == bseq[k as int],
                            data as int == wseq[t as int - k as int],
                    ;
                }
                sum = sum + kernel * data;
            } else {
                proof {
                    assert(conv_term(wseq, bseq, t as int, k as int) == 0);
                }
            }
            k = k + 1;
        }
        sum
    }

    /// One analysis window's contributions to the output stream: position `m`
    /// of the result is the convolution of the window against the zero-padded
    /// impulse response `hp` at window-relative position `m`, formed by
    /// summing every partition's dot-products at its own offset — the
    /// partitioned overlap-add of a single window.
    fn window_sums(
        blocks: &Vec<Vec<i64>>,
        window: &Vec<i64>,
        block_size: usize,
        total: usize,
        hp: Ghost<Seq<int>>,
    ) -> (sums: Vec<i64>)
        requires
            1 <= block_size <= MAX_BLOCK_SIZE,
            window@.len() == 2 * block_size as int,
            1 <= blocks@.len(),
            blocks@.len() * block_size as int <= MAX_IR_LEN as int + MAX_BLOCK_SIZE as int,
            hp@.len() == blocks@.len() * block_size as int,
            forall|i: int| 0 <= i < blocks@.len() ==> (#[trigger] blocks@[i])@.len() == block_size as int,
            forall|i: int, k: int|
                0 <= i < blocks@.len() && 0 <= k < block_size as int ==> (
                #[trigger] blocks@[i]@[k]) as int == hp@[i * block_size as int + k],
            bounded(hp@),
            bounded(as_ints(window@)),
            total as int >= blocks@.len() * block_size as int + 2 * block_size as int - 1,
            total as int <= MAX_IR_LEN as int + 4 * MAX_BLOCK_SIZE as int,
        ensures
            sums@.len() == total as int,
            forall|m: int|
                0 <= m < total as int ==> (#[trigger] sums@[m]) as int == conv_at(
                    as_ints(window@),
                    hp@,
                    m,
                ),
    {
        let ghost w = as_ints(window@);
        let ghost lim = SAMPLE_LIMIT as int;
        let n = blocks.len();
        let b = block_size;
        let mut sums = zeros_vec(total);
        proof {
            assert forall|m: int| 0 <= m < total as int implies (#[trigger] sums@[m]) as int
                == conv_prefix(w, hp@, m, 0) by {}
        }
        let mut i: usize = 0;
        while i < n
            invariant
                i <= n,
                n == blocks@.len(),
                b == block_size,
                1 <= b <= MAX_BLOCK_SIZE,
                window@.len() == 2 * b as int,
                n as int * b as int <= MAX_IR_LEN as int + MAX_BLOCK_SIZE as int,
                hp@.len() == n as int * b as int,
                forall|ii: int| 0 <= ii < n as int ==> (#[trigger] blocks@[ii])@.len() == b as int,
                forall|ii: int, k: int|
                    0 <= ii < n as int && 0 <= k < b as int ==> (#[trigger] blocks@[ii]@[k]) as int
                        == hp@[ii * b as int + k],
                bounded(hp@),
                bounded(w),
                w == as_ints(window@),
                lim == SAMPLE_LIMIT as int,
                total as int >= n as int * b as int + 2 * b as int - 1,
                total as int <= MAX_IR_LEN as int + 4 * MAX_BLOCK_SIZE as int,
                sums@.len() == total as int,
                forall|m: int|
                    0 <= m < total as int ==> (#[trigger] sums@[m]) as int == conv_prefix(
                        w,
                        hp@,
                        m,
                        i as int * b as int,
                    ),
            decreases n - i,
        {
            let ghost kbase = i as int * b as int;
            let ghost bseq = as_ints(blocks@[i as int]@);
            proof {
                assert(kbase + b as int <= n as int * b as int) by (nonlinear_arith)
                    requires
                        kbase == i as int * b as int,
                        i as int <= n as int - 1,
                        b as int >= 1,
                ;
                assert(kbase >= 0) by (nonlinear_arith)
                    requires
                        kbase == i as int * b as int,
                        i as int >= 0,
                        b as int >= 1,
                ;
                assert(bounded(bseq)) by {
                    assert forall|k: int|
                        0 <= k < bseq.len() implies -(SAMPLE_LIMIT as int) <= #[trigger] bseq[k]
                        <= SAMPLE_LIMIT as int by {
                        assert(bseq[k] == hp@[kbase + k]);
                    }
                }
                assert forall|j: int| 0 <= j < bseq.len() implies #[trigger] bseq[j] == hp@[kbase
                    + j] by {}
            }
            let block = &blocks[i];
            let t_end = 3 * b - 1;
            let mut t: usize = 0;
            while t < t_end
                invariant
                    t <= t_end,
                    t_end == 3 * b as int - 1,
                    i < n,
                    n == blocks@.len(),
                    b == block_size,
                    1 <= b <= MAX_BLOCK_SIZE,
                    window@.len() == 2 * b as int,
                    n as int * b as int <= MAX_IR_LEN as int + MAX_BLOCK_SIZE as int,
                    hp@.len() == n as int * b as int,
                    kbase == i as int * b as int,
                    0 <= kbase,
                    kbase + b as int <= hp@.len(),
                    block@ == blocks@[i as int]@,
                    block@.len() == b as int,
                    bseq == as_ints(block@),
                    forall|j: int| 0 <= j < bseq.len() ==> #[trigger] bseq[j] == hp@[kbase + j],
                    bounded(hp@),
                    bounded(w),
                    bounded(bseq),
                    w == as_ints(window@),
                    lim == SAMPLE_LIMIT as int,
                    total as int >= n as int * b as int + 2 * b as int - 1,
                    total as int <= MAX_IR_LEN as int + 4 * MAX_BLOCK_SIZE as int,
                    sums@.len() == total as int,
                    forall|m: int|
                        0 <= m < total as int && !(kbase <= m < kbase + t as int) ==> (
                        #[trigger] sums@[m]) as int == conv_prefix(w, hp@, m, kbase),
                    forall|m: int|
                        kbase <= m < kbase + t as int ==> (#[trigger] sums@[m]) as int
                            == conv_prefix(w, hp@, m, kbase + b as int),
                decreases t_end - t,
            {
                let index = i * b + t;
                proof {
                    assert(index as int == kbase + t as int);
                    assert(kbase + (t as int) < (total as int)) by (nonlinear_arith)
                        requires
                            kbase == i as int * b as int,
                            i as int <= n as int - 1,
                            t as int <= 3 * b as int - 2,
                            b as int >= 1,
                            total as int >= n as int * b as int + 2 * b as int - 1,
                    ;
                }
                let contribution = Self::block_dot(block, window, t);
                let previous = sums[index];
                proof {
                    lemma_conv_prefix_block(w, hp@, bseq, kbase + t as int, kbase, b as int);
                    lemma_conv_prefix_bound(w, hp@, kbase + t as int, kbase);
                    lemma_conv_prefix_bound(w, bseq, t as int, b as int);
                    assert(kbase * lim * lim + b as int * lim * lim <= (MAX_IR_LEN as int + 2
                        * MAX_BLOCK_SIZE as int) * lim * lim) by (nonlinear_arith)
                        requires
                            0 <= kbase,
                            kbase + b as int <= MAX_IR_LEN as int + MAX_BLOCK_SIZE as int,
                            b as int >= 1,
                            lim > 0,
                    ;
                }
                sums.set(index, previous + contribution);
                t = t + 1;
            }
            proof {
                assert forall|m: int| 0 <= m < total as int implies (#[trigger] sums@[m]) as int
                    == conv_prefix(w, hp@, m, kbase + b as int) by {
                    if m < kbase {
                        lemma_conv_prefix_block(w, hp@, bseq, m, kbase, b as int);
                        lemma_conv_prefix_neg_position(w, bseq, m - kbase, b as int);
                    } else if m >= kbase + t_end as int {
                        lemma_conv_prefix_block(w, hp@, bseq, m, kbase, b as int);
                        lemma_conv_prefix_past_end(w, bseq, m - kbase, b as int);
                    }
                }
                assert((i as int + 1) * b as int == kbase + b as int) by (nonlinear_arith)
                    requires
                        kbase == i as int * b as int,
                ;
            }
            i = i + 1;
        }
        sums
    }

    /// Consumes one full analysis window from the input accumulator:
    /// convolves it against every impulse-response partition, overlap-adds
    /// the contributions into the output accumulator, and returns the two
    /// blocks of output samples this finalizes.
    fn analysis_step(&mut self) -> (out: Vec<i64>)
        requires
            old(self).common_inv(),
            old(self).freq_inv(),
            old(self).fill as int == 2 * old(self).block_size as int,
        ensures
            final(self).common_inv(),
            final(self).freq_inv(),
            final(self).fill == 0,
            final(self).history() == old(self).history(),
            final(self).ir() == old(self).ir(),
            final(self).mode_spec() == old(self).mode_spec(),
            final(self).block_size == old(self).block_size,
            final(self).emitted() == old(self).emitted() + 2 * old(self).block_size as int,
            out@.len() == 2 * old(self).block_size as int,
            forall|i: int|
                0 <= i < out@.len() ==> (#[trigger] out@[i]) as int == conv_at(
                    old(self).history().take(
                        old(self).emitted() + 2 * old(self).block_size as int,
                    ),
                    old(self).ir(),
                    old(self).emitted() + i,
                ),
    {
        let b = self.block_size;
        let two_b = 2 * b;
        let ghost x = self.history();
        let ghost h = self.ir();
        let ghost c0 = self.emitted();
        let ghost wvals = x.subrange(c0, c0 + two_b as int);
        let ghost hp = self.padded_ir();
        let ghost lim = SAMPLE_LIMIT as int;
        proof {
            assert forall|u: int|
                0 <= u < two_b as int implies #[trigger] slot_at(
                self.conv_buffer,
                self.conv_buffer.read_at(),
                u,
            ) == wvals[u] by {
                assert(self.in_slot(u) == x[c0 + u]);
            }
        }
        let window = drain_window(&mut self.conv_buffer, two_b, Ghost(wvals));
        self.fill = 0;
        let n = self.impulse_response_block.len();
        proof {
            lemma_partition_total(h.len() as int, b as int);
        }
        let padded = n * b;
        let pending = if padded > two_b {
            padded
        } else {
            two_b
        };
        let total = two_b + pending;
        proof {
            assert(bounded(hp)) by {
                assert forall|jj: int| 0 <= jj < hp.len() implies -lim <= #[trigger] hp[jj] <= lim
                    by {
                    if jj < h.len() {
                        assert(hp[jj] == h[jj]);
                    } else {
                        assert(hp[jj] == 0);
                    }
                }
            }
            assert(bounded(wvals)) by {
                assert forall|jj: int|
                    0 <= jj < wvals.len() implies -lim <= #[trigger] wvals[jj] <= lim by {
                    assert(wvals[jj] == x[c0 + jj]);
                }
            }
            assert(as_ints(window@) == wvals);
        }
        let sums = Self::window_sums(&self.impulse_response_block, &window, b, total, Ghost(hp));
        let ghost prior = Seq::new(pending as nat, |j: int| conv_at(x.take(c0), h, c0 + j));
        proof {
            let xc = x.take(c0);
            assert(bounded(xc)) by {
                assert forall|jj: int| 0 <= jj < xc.len() implies -lim <= #[trigger] xc[jj] <= lim
                    by {
                    assert(xc[jj] == x[jj]);
                }
            }
            assert forall|j: int|
                0 <= j < pending as int implies #[trigger] slot_at(
                self.output_buffer,
                self.output_buffer.read_at(),
                j,
            ) == prior[j] by {
                assert(old(self).acc_slot(j) == conv_at(xc, h, c0 + j));
            }
            assert forall|j: int|
                0 <= j < pending as int implies -mag_limit(MAX_IR_LEN as int)
                    <= #[trigger] prior[j] <= mag_limit(MAX_IR_LEN as int) by {
                lemma_conv_bound(xc, h, c0 + j);
                assert(h.len() as int * lim * lim <= MAX_IR_LEN as int * lim * lim)
                    by (nonlinear_arith)
                    requires
                        0 <= h.len() as int <= MAX_IR_LEN as int,
                        lim > 0,
                ;
            }
            assert forall|m: int|
                0 <= m < sums@.len() implies -mag_limit(
                MAX_IR_LEN as int + 2 * MAX_BLOCK_SIZE as int,
            ) <= (#[trigger] sums@[m]) as int <= mag_limit(
                MAX_IR_LEN as int + 2 * MAX_BLOCK_SIZE as int,
            ) by {
                assert(sums@[m] as int == conv_at(wvals, hp, m));
                lemma_conv_bound(wvals, hp, m);
                assert(hp.len() as int * lim * lim <= (MAX_IR_LEN as int + 2
                    * MAX_BLOCK_SIZE as int) * lim * lim) by (nonlinear_arith)
                    requires
                        0 <= hp.len() as int <= MAX_IR_LEN as int + MAX_BLOCK_SIZE as int,
                        lim > 0,
                ;
            }
        }
        let out = merge_output(&mut self.output_buffer, &sums, two_b, pending, Ghost(prior));
        proof {
            let xc = x.take(c0);
            let xc2 = x.take(c0 + two_b as int);
            assert(xc + wvals =~= xc2);
            assert(h.len() <= hp.len() && (forall|k: int|
                0 <= k < h.len() ==> h[k] == #[trigger] hp[k]) && (forall|k: int|
                h.len() <= k < hp.len() ==> #[trigger] hp[k] == 0)) by {
                assert forall|k: int| 0 <= k < h.len() implies h[k] == #[trigger] hp[k] by {}
                assert forall|k: int| h.len() <= k < hp.len() implies #[trigger] hp[k] == 0 by {}
            }
            assert forall|i: int|
                0 <= i < out@.len() implies (#[trigger] out@[i]) as int == conv_at(
                xc2,
                h,
                c0 + i,
            ) by {
                assert(out@[i] as int == prior[i] + sums@[i]);
                assert(sums@[i] as int == conv_at(wvals, hp, i));
                lemma_conv_padded_ir(wvals, h, hp, i);
                lemma_overlap_add(xc, wvals, h, c0 + i);
            }
            assert forall|j: int|
                0 <= j < pending as int implies #[trigger] self.acc_slot(j) == conv_at(
                xc2,
                h,
                c0 + two_b as int + j,
            ) by {
                assert(slot_at(self.output_buffer, self.output_buffer.read_at(), j) == if j
                    < pending as int - two_b as int {
                    prior[two_b as int + j] + sums@[two_b as int + j]
                } else {
                    sums@[two_b as int + j] as int
                });
                assert(sums@[two_b as int + j] as int == conv_at(wvals, hp, two_b as int + j));
                lemma_conv_padded_ir(wvals, h, hp, two_b as int + j);
                lemma_overlap_add(xc, wvals, h, c0 + two_b as int + j);
                if j >= pending as int - two_b as int {
                    lemma_tail_exhausted(xc, h, c0 + two_b as int + j);
                }
            }
            lemma_small_mod(
                self.conv_buffer.read_at() as nat,
                self.conv_buffer.capacity_spec() as nat,
            );
            lemma_mod_add_multiples_vanish(c0, 2 * b as int);
            assert(self.padded_ir() =~= hp);
            assert(self.emitted() == c0 + two_b as int);
            assert(self.history().take(self.emitted()) == xc2);
            assert(self.freq_inv());
        }
        out
    }

    /// Pushes one sample into the frequency-domain input accumulator.
    fn buffer_sample(&mut self, value: i64)
        requires
            old(self).common_inv(),
            old(self).freq_inv(),
            (old(self).fill as int) < 2 * (old(self).block_size as int),
            -SAMPLE_LIMIT <= value <= SAMPLE_LIMIT,
        ensures
            final(self).common_inv(),
            final(self).freq_inv(),
            final(self).fill == old(self).fill + 1,
            final(self).history() == old(self).history().push(value as int),
            final(self).ir() == old(self).ir(),
            final(self).mode_spec() == old(self).mode_spec(),
            final(self).block_size == old(self).block_size,
            final(self).emitted() == old(self).emitted(),
    {
        let ghost cap = self.conv_buffer.capacity_spec();
        let ghost read0 = self.conv_buffer.read_at();
        let ghost fill0 = self.fill as int;
        self.conv_buffer.push(value);
        self.fill = self.fill + 1;
        proof {
            self.inputs@ = self.inputs@.push(value as int);
        }
        proof {
            lemma_add_mod_noop(read0 + fill0, 1int, cap);
            lemma_small_mod(1nat, cap as nat);
            assert forall|t: int|
                0 <= t < self.fill as int implies #[trigger] self.in_slot(t) == self.history()[
            self.emitted() + t] by {
                lemma_mod_division_less_than_divisor(read0 + t, cap);
                lemma_mod_division_less_than_divisor(read0 + fill0, cap);
                if t < fill0 {
                    lemma_mod_offset_injective(read0, t, fill0, cap);
                    assert(old(self).in_slot(t) == old(self).history()[old(self).emitted() + t]);
                } else {
                    assert(self.in_slot(t) == value as int);
                }
            }
            assert(self.history().take(self.emitted()) =~= old(self).history().take(
                old(self).emitted(),
            ));
            assert(self.padded_ir() =~= old(self).padded_ir());
            assert forall|j: int|
                0 <= j < self.pending() implies #[trigger] self.acc_slot(j) == conv_at(
                self.history().take(self.emitted()),
                self.ir(),
                self.emitted() + j,
            ) by {
                assert(old(self).acc_slot(j) == conv_at(
                    old(self).history().take(old(self).emitted()),
                    old(self).ir(),
                    old(self).emitted() + j,
                ));
            }
            assert(self.freq_inv());
        }
    }

    /// Feeds `input` through the partitioned engine and returns the samples
    /// this call finalizes. Samples are buffered until two full blocks have
    /// accumulated; every full window is consumed by one analysis step, so
    /// the returned vector holds whole windows of output (empty when fewer
    /// than two full blocks are buffered). Across calls the emitted stream's
    /// sample `n` is the convolution at position `n`, whatever block sizes
    /// the input arrived in. Fails with `WrongMode` against a time-domain
    /// engine, changing nothing.
    pub fn process_freq(&mut self, input: &Vec<i64>) -> (r: Result<Vec<i64>, Error>)
        requires
            old(self).wf(),
            bounded(as_ints(input@)),
        ensures
            final(self).ir() == old(self).ir(),
            final(self).mode_spec() == old(self).mode_spec(),
            match r {
                Result::Ok(out) => {
                    &&& old(self).is_frequency_domain()
                    &&& final(self).wf()
                    &&& final(self).history() == old(self).history() + as_ints(input@)
                    &&& final(self).buffered() == (old(self).buffered() + input@.len() as int) % (
                    2 * old(self).block_size_spec())
                    &&& out@.len() == final(self).emitted() - old(self).emitted()
                    &&& forall|i: int|
                        0 <= i < out@.len() ==> (#[trigger] out@[i]) as int == conv_at(
                            final(self).history(),
                            old(self).ir(),
                            old(self).emitted() + i,
                        )
                },
                Result::Err(e) => {
                    &&& *final(self) == *old(self)
                    &&& e == Error::WrongMode
                    &&& !old(self).is_frequency_domain()
                },
            },
    {
        match self.mode {
            ConvolutionMode::TimeDomain => {
                return Result::Err(Error::WrongMode);
            },
            ConvolutionMode::FrequencyDomain { .. } => {},
        }
        let b = self.block_size;
        let two_b = 2 * b;
        let ghost x0 = self.history();
        let ghost h = self.ir();
        let ghost c_start = self.emitted();
        let ghost fill0 = self.fill as int;
        let mut out: Vec<i64> = Vec::new();
        let mut idx: usize = 0;
        proof {
            lemma_small_mod(0nat, (2 * b) as nat);
        }
        while idx < input.len()
            invariant
                idx <= input@.len(),
                bounded(as_ints(input@)),
                self.common_inv(),
                self.freq_inv(),
                self.is_frequency_domain(),
                (self.fill as int) < 2 * (b as int),
                b == self.block_size,
                two_b == 2 * b,
                1 <= b,
                self.ir() == h,
                self.mode_spec() == old(self).mode_spec(),
                self.history() == x0 + as_ints(input@).take(idx as int),
                c_start <= self.emitted(),
                fill0 + idx as int == (self.emitted() - c_start) + self.fill as int,
                (self.emitted() - c_start) % (2 * b as int) == 0,
                out@.len() == self.emitted() - c_start,
                forall|i: int|
                    0 <= i < out@.len() ==> (#[trigger] out@[i]) as int == conv_at(
                        self.history().take(self.emitted()),
                        h,
                        c_start + i,
                    ),
            decreases input@.len() - idx,
        {
            let ghost x_before = self.history();
            let ghost c_before = self.emitted();
            let value = input[idx];
            assert(as_ints(input@)[idx as int] == value as int);
            self.buffer_sample(value);
            proof {
                assert(self.history() =~= x0 + as_ints(input@).take(idx as int + 1));
                assert(self.history().take(self.emitted()) =~= x_before.take(c_before));
            }
            if self.fill == two_b {
                let ghost diff_before = self.emitted() - c_start;
                let mut emitted_now = self.analysis_step();
                proof {
                    lemma_mod_add_multiples_vanish(diff_before, 2 * b as int);
                }
                let ghost out_before = out@;
                let ghost step_base = c_before;
                out.append(&mut emitted_now);
                proof {
                    assert forall|i: int|
                        0 <= i < out@.len() implies (#[trigger] out@[i]) as int == conv_at(
                        self.history().take(self.emitted()),
                        h,
                        c_start + i,
                    ) by {
                        if i < out_before.len() {
                            assert(out@[i] == out_before[i]);
                            assert(out_before[i] as int == conv_at(
                                x_before.take(c_before),
                                h,
                                c_start + i,
                            ));
                            assert(self.history().take(self.emitted()) =~= x_before.take(c_before)
                                + self.history().take(self.emitted()).subrange(
                                c_before,
                                self.emitted(),
                            ));
                            lemma_conv_prefix_append(
                                x_before.take(c_before),
                                self.history().take(self.emitted()).subrange(
                                    c_before,
                                    self.emitted(),
                                ),
                                h,
                                c_start + i,
                                h.len() as int,
                            );
                        } else {
                            assert(out@[i] as int == conv_at(
                                self.history().take(step_base + 2 * b as int),
                                h,
                                step_base + (i - out_before.len()),
                            ));
                            assert(step_base + (i - out_before.len()) == c_start + i);
                            assert(self.emitted() == step_base + 2 * b as int);
                        }
                    }
                }
            }
            idx = idx + 1;
        }
        proof {
            assert(as_ints(input@).take(input@.len() as int) =~= as_ints(input@));
            assert(self.history() == x0 + as_ints(input@));
            assert forall|i: int|
                0 <= i < out@.len() implies (#[trigger] out@[i]) as int == conv_at(
                self.history(),
                h,
                c_start + i,
            ) by {
                assert(self.history() =~= self.history().take(self.emitted())
                    + self.history().subrange(self.emitted(), self.history().len() as int));
                lemma_conv_prefix_append(
                    self.history().take(self.emitted()),
                    self.history().subrange(self.emitted(), self.history().len() as int),
                    h,
                    c_start + i,
                    h.len() as int,
                );
            }
            assert(self.buffered() == (old(self).buffered() + input@.len() as int) % (2 * old(
                self,
            ).block_size_spec())) by {
                let m = 2 * b as int;
                let diff = self.emitted() - c_start;
                lemma_fundamental_div_mod(diff, m);
                assert(diff == m * (diff / m));
                assert(fill0 + idx as int == (diff / m) * m + self.fill as int)
                    by (nonlinear_arith)
                    requires
                        fill0 + idx as int == diff + self.fill as int,
                        diff == m * (diff / m),
                ;
                vstd::arithmetic::div_mod::lemma_fundamental_div_mod_converse_mod(
                    fill0 + idx as int,
                    m,
                    diff / m,
                    self.fill as int,
                );
            }
        }
        Result::Ok(out)
    }

    /// Drains the partitioned engine after the last real input sample. The
    /// partial window is padded with silence and run through one more
    /// analysis step; zero-fed steps follow until the whole tail is out.
    /// Returns two sequences: the remainder — the convolution samples still
    /// owed for real input positions — and the tail: exactly
    /// `get_tail_size()` further samples, the impulse response's influence
    /// still in flight when input ended. Once the tail is exhausted, flushing
    /// again yields only zeros. Fails with `WrongMode` against a time-domain
    /// engine, changing nothing.
    pub fn flush_freq(&mut self) -> (r: Result<(Vec<i64>, Vec<i64>), Error>)
        requires
            old(self).wf(),
        ensures
            final(self).ir() == old(self).ir(),
            final(self).mode_spec() == old(self).mode_spec(),
            match r {
                Result::Ok(pair) => {
                    &&& old(self).is_frequency_domain()
                    &&& final(self).wf()
                    &&& final(self).history().len() >= old(self).history().len()
                    &&& final(self).history().take(old(self).history().len() as int)
                        == old(self).history()
                    &&& forall|j: int|
                        old(self).history().len() <= j < final(self).history().len()
                            ==> final(self).history()[j] == 0
                    &&& final(self).buffered() == 0
                    &&& pair.0@.len() == old(self).history().len() - old(self).emitted()
                    &&& forall|i: int|
                        0 <= i < pair.0@.len() ==> (#[trigger] pair.0@[i]) as int == conv_at(
                            old(self).history(),
                            old(self).ir(),
                            old(self).emitted() + i,
                        )
                    &&& pair.1@.len() == old(self).ir().len() - 1
                    &&& forall|i: int|
                        0 <= i < pair.1@.len() ==> (#[trigger] pair.1@[i]) as int == conv_at(
                            old(self).history(),
                            old(self).ir(),
                            old(self).history().len() + i,
                        )
                    &&& final(self).emitted() >= old(self).history().len() + old(self).ir().len()
                        - 1
                },
                Result::Err(e) => {
                    &&& *final(self) == *old(self)
                    &&& e == Error::WrongMode
                    &&& !old(self).is_frequency_domain()
                },
            },
    {
        match self.mode {
            ConvolutionMode::TimeDomain => {
                return Result::Err(Error::WrongMode);
            },
            ConvolutionMode::FrequencyDomain { .. } => {},
        }
        let b = self.block_size;
        let two_b = 2 * b;
        let ghost x0 = self.history();
        let ghost h = self.ir();
        let ghost c0 = self.emitted();
        let ghost m0 = x0.len() as int;
        let fill0 = self.fill;
        let tail_len = self.impulse_response.len() - 1;
        let mut remain: Vec<i64> = Vec::new();
        let mut tail: Vec<i64> = Vec::new();
        if fill0 > 0 {
            while self.fill < two_b
                invariant
                    self.common_inv(),
                    self.freq_inv(),
                    self.is_frequency_domain(),
                    b == self.block_size,
                    two_b == 2 * b,
                    1 <= b,
                    fill0 as int <= self.fill as int <= two_b as int,
                    self.ir() == h,
                    self.mode_spec() == old(self).mode_spec(),
                    self.emitted() == c0,
                    self.history().len() == m0 + self.fill as int - fill0 as int,
                    self.history().take(m0) == x0,
                    forall|j: int|
                    m0 <= j < self.history().len() ==> #[trigger] self.history()[j] == 0,
                decreases two_b - self.fill,
            {
                self.buffer_sample(0i64);
                proof {
                    assert(self.history().take(m0) =~= x0);
                }
            }
            let em = self.analysis_step();
            proof {
                let hx = self.history();
                assert(hx =~= x0 + zeros((hx.len() - m0) as nat));
                assert(hx.take(c0 + two_b as int) =~= hx);
                assert forall|i: int|
                    0 <= i < em@.len() implies (#[trigger] em@[i]) as int == conv_at(
                    x0,
                    h,
                    c0 + i,
                ) by {
                    lemma_conv_zero_extend(x0, zeros((hx.len() - m0) as nat), h, c0 + i);
                }
            }
            let mut i: usize = 0;
            while i < fill0
                invariant
                    i <= fill0,
                    fill0 as int <= em@.len(),
                    m0 == c0 + fill0 as int,
                    remain@.len() == i as int,
                    forall|u: int|
                        0 <= u < em@.len() ==> (#[trigger] em@[u]) as int == conv_at(x0, h, c0 + u),
                    forall|u: int|
                        0 <= u < i as int ==> (#[trigger] remain@[u]) as int == conv_at(
                            x0,
                            h,
                            c0 + u,
                        ),
                decreases fill0 - i,
            {
                remain.push(em[i]);
                i = i + 1;
            }
            let mut i2: usize = fill0;
            while i2 < two_b && tail.len() < tail_len
                invariant
                    fill0 as int <= i2 as int <= two_b as int,
                    em@.len() == two_b as int,
                    m0 == c0 + fill0 as int,
                    tail_len as int == h.len() - 1,
                    tail@.len() == if (i2 as int) - (fill0 as int) < (tail_len as int) {
                        (i2 as int) - (fill0 as int)
                    } else {
                        tail_len as int
                    },
                    forall|u: int|
                        0 <= u < em@.len() ==> (#[trigger] em@[u]) as int == conv_at(x0, h, c0 + u),
                    forall|u: int|
                        0 <= u < tail@.len() ==> (#[trigger] tail@[u]) as int == conv_at(
                            x0,
                            h,
                            m0 + u,
                        ),
                decreases two_b - i2,
            {
                tail.push(em[i2]);
                i2 = i2 + 1;
            }
            proof {
                assert(tail@.len() == if self.emitted() - m0 < (tail_len as int) {
                    self.emitted() - m0
                } else {
                    tail_len as int
                });
            }
        }
        proof {
            if fill0 == 0 {
                assert(self.history().take(m0) =~= x0);
            }
        }
        while tail.len() < tail_len
            invariant
                self.common_inv(),
                self.freq_inv(),
                self.is_frequency_domain(),
                b == self.block_size,
                two_b == 2 * b,
                1 <= b,
                self.fill == 0,
                self.ir() == h,
                self.mode_spec() == old(self).mode_spec(),
                tail_len as int == h.len() - 1,
                0 <= m0 <= self.emitted(),
                self.emitted() == self.history().len(),
                self.history().take(m0) == x0,
                forall|j: int|
                    m0 <= j < self.history().len() ==> #[trigger] self.history()[j] == 0,
                tail@.len() == if self.emitted() - m0 < (tail_len as int) {
                    self.emitted() - m0
                } else {
                    tail_len as int
                },
                forall|u: int|
                    0 <= u < tail@.len() ==> (#[trigger] tail@[u]) as int == conv_at(x0, h, m0 + u),
            decreases tail_len - tail@.len(),
        {
            let ghost e_before = self.emitted();
            let mut p: usize = 0;
            while p < two_b
                invariant
                    p <= two_b,
                    self.common_inv(),
                    self.freq_inv(),
                    self.is_frequency_domain(),
                    b == self.block_size,
                    two_b == 2 * b,
                    1 <= b,
                    self.fill as int == p as int,
                    self.ir() == h,
                    self.mode_spec() == old(self).mode_spec(),
                    self.emitted() == e_before,
                    0 <= m0 <= e_before,
                    self.history().len() == e_before + p as int,
                    self.history().take(m0) == x0,
                    forall|j: int|
                        m0 <= j < self.history().len() ==> #[trigger] self.history()[j] == 0,
                decreases two_b - p,
            {
                let ghost h_pre = self.history();
                self.buffer_sample(0i64);
                proof {
                    assert(self.history() == h_pre.push(0));
                    assert forall|j: int|
                        m0 <= j < self.history().len() implies #[trigger] self.history()[j] == 0
                        by {
                        if j < h_pre.len() {
                            assert(h_pre[j] == 0);
                        }
                    }
                    assert(self.history().take(m0) =~= x0) by {
                        assert(h_pre.take(m0) == x0);
                        assert forall|j: int|
                            0 <= j < m0 implies self.history().take(m0)[j] == x0[j] by {
                            assert(self.history()[j] == h_pre[j]);
                            assert(x0[j] == h_pre.take(m0)[j]);
                        }
                    }
                }
                p = p + 1;
            }
            let em = self.analysis_step();
            proof {
                let hx = self.history();
                assert(hx.take(e_before + two_b as int) =~= hx);
                assert(hx =~= x0 + zeros((hx.len() - m0) as nat));
                assert forall|u: int|
                    0 <= u < em@.len() implies (#[trigger] em@[u]) as int == conv_at(
                    x0,
                    h,
                    e_before + u,
                ) by {
                    lemma_conv_zero_extend(x0, zeros((hx.len() - m0) as nat), h, e_before + u);
                }
            }
            let ghost tail_base = tail@.len() as int;
            let mut q: usize = 0;
            while q < two_b && tail.len() < tail_len
                invariant
                    q <= two_b,
                    em@.len() == two_b as int,
                    tail_base == e_before - m0,
                    0 <= tail_base,
                    tail_len as int == h.len() - 1,
                    tail@.len() == if tail_base + (q as int) < (tail_len as int) {
                        tail_base + (q as int)
                    } else {
                        tail_len as int
                    },
                    forall|u: int|
                        0 <= u < em@.len() ==> (#[trigger] em@[u]) as int == conv_at(
                            x0,
                            h,
                            e_before + u,
                        ),
                    forall|u: int|
                        0 <= u < tail@.len() ==> (#[trigger] tail@[u]) as int == conv_at(
                            x0,
                            h,
                            m0 + u,
                        ),
                decreases two_b - q,
            {
                tail.push(em[q]);
                q = q + 1;
            }
        }
        proof {
            assert(tail@.len() == tail_len as int);
            assert(self.emitted() - m0 >= tail_len as int);
            assert forall|i: int|
                0 <= i < remain@.len() implies (#[trigger] remain@[i]) as int == conv_at(
                x0,
                h,
                c0 + i,
            ) by {}
            assert(remain@.len() == m0 - c0);
        }
        Result::Ok((remain, tail))
    }
}

} // verus!
