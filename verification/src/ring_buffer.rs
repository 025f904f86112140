//! A fixed-capacity circular store of samples with independent read and write
//! cursors.
//!
//! The buffer supports advancing access (`push`/`pop`), non-advancing access
//! (`put`/`peek`), random offset reads and writes relative to the read cursor
//! (`get`/`set`), direct cursor control, and fractional-offset interpolated
//! reads (`get_frac`). All wraparound arithmetic of the library is centralized
//! here: every address is taken modulo the capacity, which is fixed at
//! construction.

use vstd::prelude::*;

verus! {

use vstd::arithmetic::div_mod::{
    lemma_add_mod_noop_right,
    lemma_fundamental_div_mod,
    lemma_hoist_over_denominator,
    lemma_mod_add_multiples_vanish,
    lemma_mod_division_less_than_divisor,
};
use crate::Error;
use crate::SAMPLE_LIMIT;

/// Largest capacity a ring buffer may be built with; keeps all cursor
/// arithmetic comfortably inside `usize`.
pub const MAX_RING_CAPACITY: usize = 268435456;

/// Scale of fractional read positions: `get_frac` addresses the buffer in
/// units of `1 / FRAC_SCALE` of a slot.
pub const FRAC_SCALE: i64 = 65536;

/// Adding a multiple of the modulus on the left of an addition does not
/// change the remainder.
pub(crate) proof fn lemma_mod_shift_cycle(a: int, c: int, m: int)
    requires
        0 < m,
    ensures
        (a + c * m) % m == a % m,
{
    lemma_hoist_over_denominator(a, c, m as nat);
    lemma_fundamental_div_mod(a, m);
    lemma_fundamental_div_mod(a + c * m, m);
    assert(m * (a / m + c) == m * (a / m) + m * c) by (nonlinear_arith);
    assert(c * m == m * c) by (nonlinear_arith);
}

/// Distinct offsets below the modulus land on distinct slots.
pub(crate) proof fn lemma_mod_offset_injective(base: int, t1: int, t2: int, m: int)
    requires
        0 < m,
        0 <= base,
        0 <= t1 < m,
        0 <= t2 < m,
        t1 != t2,
    ensures
        (base + t1) % m != (base + t2) % m,
{
    lemma_fundamental_div_mod(base + t1, m);
    lemma_fundamental_div_mod(base + t2, m);
    lemma_mod_division_less_than_divisor(base + t1, m);
    lemma_mod_division_less_than_divisor(base + t2, m);
    if (base + t1) % m == (base + t2) % m {
        let q1 = (base + t1) / m;
        let q2 = (base + t2) / m;
        assert(t2 - t1 == m * q2 - m * q1);
        assert(m * q2 - m * q1 == m * (q2 - q1)) by (nonlinear_arith);
        assert(-m < m * (q2 - q1) < m);
        assert(q2 - q1 == 0) by (nonlinear_arith)
            requires
                0 < m,
                -m < m * (q2 - q1) < m,
        ;
    }
}

/// Fixed-capacity circular sample store with a read cursor (`pop`, `peek`,
/// `get`) and a write cursor (`push`, `put`).
pub struct RingBuffer {
    buffer: Vec<i64>,
    head_index: usize,
    tail_index: usize,
}

impl RingBuffer {
    /// All slots by absolute address, as mathematical integers.
    pub closed spec fn slots(self) -> Seq<int> {
        self.buffer@.map(|_i: int, v: i64| v as int)
    }

    /// The read cursor's absolute position.
    pub closed spec fn read_at(self) -> int {
        self.tail_index as int
    }

    /// The write cursor's absolute position.
    pub closed spec fn write_at(self) -> int {
        self.head_index as int
    }

    /// The fixed backing size.
    pub open spec fn capacity_spec(self) -> int {
        self.slots().len() as int
    }

    /// Both cursors address a slot, and the capacity is positive and small
    /// enough that cursor arithmetic cannot overflow.
    pub open spec fn wf(self) -> bool {
        &&& 1 <= self.capacity_spec() <= MAX_RING_CAPACITY as int
        &&& 0 <= self.read_at() < self.capacity_spec()
        &&& 0 <= self.write_at() < self.capacity_spec()
    }

    /// The number of valid samples: how far the write cursor is ahead of the
    /// read cursor, modulo the capacity.
    pub open spec fn spec_len(self) -> int {
        (self.write_at() - self.read_at()) % self.capacity_spec()
    }

    /// Creates a buffer of `length` silent slots. The read cursor starts at
    /// slot zero and the write cursor one slot ahead (modulo the capacity),
    /// modeling a buffer primed with silence.
    pub fn new(length: usize) -> (r: RingBuffer)
        requires
            1 <= length <= MAX_RING_CAPACITY,
        ensures
            r.wf(),
            r.capacity_spec() == length as int,
            r.slots() == crate::convolution::zeros(length as nat),
            r.read_at() == 0,
            r.write_at() == 1int % length as int,
    {
        let mut buffer: Vec<i64> = Vec::new();
        let mut i: usize = 0;
        while i < length
            invariant
                i <= length,
                buffer@.len() == i as int,
                forall|j: int| 0 <= j < i as int ==> buffer@[j] == 0i64,
            decreases length - i,
        {
            buffer.push(0i64);
            i = i + 1;
        }
        let r = RingBuffer { buffer, head_index: 1 % length, tail_index: 0 };
        proof {
            assert(r.slots() =~= crate::convolution::zeros(length as nat));
            lemma_mod_division_less_than_divisor(1int, length as int);
        }
        r
    }

    /// Re-zeroes all slots and restores both cursors to their initial
    /// positions.
    pub fn reset(&mut self)
        requires
            old(self).wf(),
        ensures
            final(self).wf(),
            final(self).capacity_spec() == old(self).capacity_spec(),
            final(self).slots() == crate::convolution::zeros(old(self).slots().len()),
            final(self).read_at() == 0,
            final(self).write_at() == 1int % old(self).capacity_spec(),
    {
        let length = self.buffer.len();
        let mut i: usize = 0;
        while i < length
            invariant
                i <= length,
                self.buffer@.len() == length as int,
                length == old(self).slots().len(),
                1 <= length <= MAX_RING_CAPACITY,
                forall|j: int| 0 <= j < i as int ==> self.buffer@[j] == 0i64,
            decreases length - i,
        {
            self.buffer.set(i, 0i64);
            i = i + 1;
        }
        self.tail_index = 0;
        self.head_index = 1 % length;
        proof {
            assert(self.slots() =~= crate::convolution::zeros(old(self).slots().len()));
            lemma_mod_division_less_than_divisor(1int, length as int);
        }
    }

    /// Writes `value` at the write cursor without advancing it.
    pub fn put(&mut self, value: i64)
        requires
            old(self).wf(),
        ensures
            final(self).wf(),
            final(self).slots() == old(self).slots().update(old(self).write_at(), value as int),
            final(self).read_at() == old(self).read_at(),
            final(self).write_at() == old(self).write_at(),
    {
        let i = self.head_index;
        self.buffer.set(i, value);
        proof {
            assert(self.slots() =~= old(self).slots().update(old(self).write_at(), value as int));
        }
    }

    /// Reads the sample at the read cursor without advancing it.
    pub fn peek(&self) -> (r: i64)
        requires
            self.wf(),
        ensures
            r as int == self.slots()[self.read_at()],
    {
        self.buffer[self.tail_index]
    }

    /// Reads the sample `offset` slots ahead of the read cursor, modulo the
    /// capacity, without mutation.
    pub fn get(&self, offset: usize) -> (r: i64)
        requires
            self.wf(),
        ensures
            r as int == self.slots()[(self.read_at() + offset as int) % self.capacity_spec()],
    {
        let capacity = self.buffer.len();
        let index = (self.tail_index + offset % capacity) % capacity;
        proof {
            lemma_add_mod_noop_right(self.read_at(), offset as int, self.capacity_spec());
        }
        self.buffer[index]
    }

    /// Writes `value` into the slot `offset` slots ahead of the read cursor,
    /// modulo the capacity. Cursors do not move.
    pub fn set(&mut self, offset: usize, value: i64)
        requires
            old(self).wf(),
        ensures
            final(self).wf(),
            final(self).slots() == old(self).slots().update(
                (old(self).read_at() + offset as int) % old(self).capacity_spec(),
                value as int,
            ),
            final(self).read_at() == old(self).read_at(),
            final(self).write_at() == old(self).write_at(),
            final(self).capacity_spec() == old(self).capacity_spec(),
    {
        let capacity = self.buffer.len();
        let index = (self.tail_index + offset % capacity) % capacity;
        self.buffer.set(index, value);
        proof {
            lemma_add_mod_noop_right(old(self).read_at(), offset as int, old(self).capacity_spec());
            assert(self.slots() =~= old(self).slots().update(
                (old(self).read_at() + offset as int) % old(self).capacity_spec(),
                value as int,
            ));
        }
    }

    /// Writes `value` at the write cursor and advances the write cursor by
    /// one slot, modulo the capacity.
    pub fn push(&mut self, value: i64)
        requires
            old(self).wf(),
        ensures
            final(self).wf(),
            final(self).slots() == old(self).slots().update(old(self).write_at(), value as int),
            final(self).read_at() == old(self).read_at(),
            final(self).write_at() == (old(self).write_at() + 1) % old(self).capacity_spec(),
            final(self).capacity_spec() == old(self).capacity_spec(),
    {
        let i = self.head_index;
        self.buffer.set(i, value);
        self.head_index = (self.head_index + 1) % self.buffer.len();
        proof {
            assert(self.slots() =~= old(self).slots().update(old(self).write_at(), value as int));
        }
    }

    /// Reads the sample at the read cursor and advances the read cursor by
    /// one slot, modulo the capacity.
    pub fn pop(&mut self) -> (r: i64)
        requires
            old(self).wf(),
        ensures
            final(self).wf(),
            r as int == old(self).slots()[old(self).read_at()],
            final(self).slots() == old(self).slots(),
            final(self).read_at() == (old(self).read_at() + 1) % old(self).capacity_spec(),
            final(self).write_at() == old(self).write_at(),
            final(self).capacity_spec() == old(self).capacity_spec(),
    {
        let r = self.buffer[self.tail_index];
        self.tail_index = (self.tail_index + 1) % self.buffer.len();
        r
    }

    /// The read cursor's position.
    pub fn get_read_index(&self) -> (r: usize)
        ensures
            r as int == self.read_at(),
    {
        self.tail_index
    }

    /// Relocates the read cursor, allowing a caller to reposition the read
    /// point independent of writes.
    pub fn set_read_index(&mut self, index: usize)
        requires
            old(self).wf(),
            index < old(self).capacity_spec(),
        ensures
            final(self).wf(),
            final(self).slots() == old(self).slots(),
            final(self).read_at() == index as int,
            final(self).write_at() == old(self).write_at(),
    {
        self.tail_index = index;
    }

    /// The write cursor's position.
    pub fn get_write_index(&self) -> (r: usize)
        ensures
            r as int == self.write_at(),
    {
        self.head_index
    }

    /// Relocates the write cursor.
    pub fn set_write_index(&mut self, index: usize)
        requires
            old(self).wf(),
            index < old(self).capacity_spec(),
        ensures
            final(self).wf(),
            final(self).slots() == old(self).slots(),
            final(self).read_at() == old(self).read_at(),
            final(self).write_at() == index as int,
    {
        self.head_index = index;
    }

    /// The number of valid samples currently addressable: how far the write
    /// cursor is ahead of the read cursor, modulo the capacity.
    pub fn len(&self) -> (r: usize)
        requires
            self.wf(),
        ensures
            r as int == self.spec_len(),
            r < self.capacity_spec(),
    {
        let capacity = self.buffer.len();
        let r = (self.head_index + capacity - self.tail_index) % capacity;
        proof {
            lemma_mod_add_multiples_vanish(self.write_at() - self.read_at(), capacity as int);
        }
        r
    }

    /// The fixed backing size.
    pub fn capacity(&self) -> (r: usize)
        ensures
            r as int == self.capacity_spec(),
    {
        self.buffer.len()
    }

    /// Linear interpolation between the slots at `floor(position)` and
    /// `floor(position) + 1` slots ahead of the read cursor (both modulo the
    /// capacity), where `position` counts in units of `1 / FRAC_SCALE` of a
    /// slot. A negative position is outside the addressable history and
    /// fails with `OutOfRange`.
    pub fn get_frac(&self, position: i64) -> (r: Result<i64, Error>)
        requires
            self.wf(),
            crate::convolution::bounded(self.slots()),
        ensures
            match r {
                Result::Ok(v) => {
                    let whole = position as int / FRAC_SCALE as int;
                    let frac = position as int % FRAC_SCALE as int;
                    let s0 = self.slots()[(self.read_at() + whole) % self.capacity_spec()];
                    let s1 = self.slots()[(self.read_at() + whole + 1) % self.capacity_spec()];
                    position >= 0 && v as int == (s0 * (FRAC_SCALE as int - frac) + s1 * frac)
                        / FRAC_SCALE as int
                },
                Result::Err(e) => e == Error::OutOfRange && position < 0,
            },
    {
        if position < 0 {
            return Result::Err(Error::OutOfRange);
        }
        let capacity = self.buffer.len();
        let scaled = position as u64;
        let whole = ((scaled / FRAC_SCALE as u64) % capacity as u64) as usize;
        let frac = (scaled % FRAC_SCALE as u64) as i64;
        let index0 = (self.tail_index + whole) % capacity;
        let index1 = (self.tail_index + whole + 1) % capacity;
        let s0 = self.buffer[index0];
        let s1 = self.buffer[index1];
        proof {
            let w = position as int / FRAC_SCALE as int;
            let cap = self.capacity_spec();
            lemma_mod_division_less_than_divisor(w, cap);
            lemma_add_mod_noop_right(self.read_at(), w, cap);
            lemma_add_mod_noop_right(self.read_at() + 1, w, cap);
            lemma_mod_division_less_than_divisor(self.read_at() + w, cap);
            lemma_mod_division_less_than_divisor(self.read_at() + w + 1, cap);
            let lim = SAMPLE_LIMIT as int;
            let sc = FRAC_SCALE as int;
            let f = frac as int;
            assert(s0 as int == self.slots()[(self.read_at() + w) % cap]);
            assert(s1 as int == self.slots()[(self.read_at() + w + 1) % cap]);
            assert(-(lim * sc) <= s0 as int * (sc - f) <= lim * sc) by (nonlinear_arith)
                requires
                    -lim <= s0 as int <= lim,
                    0 <= sc - f <= sc,
                    0 < lim,
                    0 < sc,
            ;
            assert(-(lim * sc) <= s1 as int * f <= lim * sc) by (nonlinear_arith)
                requires
                    -lim <= s1 as int <= lim,
                    0 <= f < sc,
                    0 < lim,
                    0 < sc,
            ;
        }
        let numerator = s0 * (FRAC_SCALE - frac) + s1 * frac;
        let shifted = (numerator + SAMPLE_LIMIT * 2 * FRAC_SCALE) as u64;
        let quotient = shifted / FRAC_SCALE as u64;
        let result = quotient as i64 - SAMPLE_LIMIT * 2;
        proof {
            let sc = FRAC_SCALE as int;
            lemma_hoist_over_denominator(numerator as int, 2 * SAMPLE_LIMIT as int, sc as nat);
            assert(numerator as int + (2 * SAMPLE_LIMIT as int) * sc == shifted as int);
        }
        Result::Ok(result)
    }
}

} // verus!
