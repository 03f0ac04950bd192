//! A wavetable oscillator: one stored period of a waveform, resampled at an
//! arbitrary target frequency by fractional index stepping and linear
//! interpolation.
//!
//! The fractional read position ("index") is held as an exact fraction: for an
//! oscillator with output sample rate `R`, the phase unit is `1/(100*R)` of one
//! table slot, and the index is the numerator of that fraction.  Setting a
//! frequency of `f` centihertz therefore makes the increment numerator exactly
//! `f * N` for a table of length `N`, which is the resampling relation
//! `(f/100) * N / R` table slots per output sample, with no rounding at all.
use vstd::prelude::*;
use vstd::arithmetic::div_mod::lemma_add_mod_noop;
use vstd::arithmetic::div_mod::lemma_add_mod_noop_right;
use vstd::arithmetic::div_mod::lemma_div_is_ordered;
use vstd::arithmetic::div_mod::lemma_div_multiples_vanish;
use vstd::arithmetic::div_mod::lemma_div_pos_is_pos;
use vstd::arithmetic::div_mod::lemma_mod_division_less_than_divisor;
use vstd::arithmetic::div_mod::lemma_mod_multiples_vanish;
use vstd::arithmetic::div_mod::lemma_multiply_divide_lt;
use vstd::arithmetic::div_mod::lemma_small_mod;
use vstd::arithmetic::mul::lemma_mul_nonnegative;
use vstd::arithmetic::mul::lemma_mul_strictly_positive;
use vstd::arithmetic::mul::lemma_mul_upper_bound;

verus! {

/// Division that rounds toward zero, for a positive divisor.
pub open spec fn trunc_div(a: int, d: int) -> int {
    if a >= 0 {
        a / d
    } else {
        -((-a) / d)
    }
}

/// The table slot that a phase numerator `idx` falls in, for phase unit `1/d`.
pub open spec fn slot_of(idx: int, d: int) -> int {
    idx / d
}

/// The slot interpolated toward: the next one, wrapping to slot 0 at the end
/// of the table, which is what makes the stored period genuinely periodic.
pub open spec fn next_slot(table_len: int, i0: int) -> int {
    if i0 + 1 == table_len {
        0int
    } else {
        i0 + 1
    }
}

/// Linear interpolation of `table` at phase numerator `idx` with phase unit
/// `1/d` of a slot: the two neighbouring slots are weighted by the fractional
/// part, and the weighted sum is divided back down, rounding toward zero.
pub open spec fn lerp_spec(table: Seq<i16>, idx: int, d: int) -> int
    recommends
        1 <= d,
        0 <= idx < table.len() * d,
{
    let i0: int = slot_of(idx, d);
    let i1: int = next_slot(table.len() as int, i0);
    let w1: int = idx % d;
    trunc_div((d - w1) * table[i0] + w1 * table[i1], d)
}

/// One phase step: advance by `inc` and wrap modulo `m`.
pub open spec fn step(idx: int, inc: int, m: int) -> int {
    (idx + inc) % m
}

/// The phase after `n` steps of `inc`, wrapping modulo `m`.
pub open spec fn step_n(idx: int, inc: int, m: int, n: nat) -> int
    decreases n,
{
    if n == 0 {
        idx
    } else {
        step(step_n(idx, inc, m, (n - 1) as nat), inc, m)
    }
}

/// The increment numerator that a frequency of `centi_hz` centihertz gives a
/// table of length `table_len`: in slots per output sample this is exactly
/// `(centi_hz/100) * table_len / sample_rate`, the core resampling relation.
pub open spec fn increment_for(centi_hz: int, table_len: int) -> int {
    centi_hz * table_len
}

pub struct WavetableOscillator {
    sample_rate: u32,
    wave_table: Vec<i16>,
    index: u64,
    index_increment: u64,
}

impl WavetableOscillator {
    /// The output sample rate, in samples per second.
    pub closed spec fn rate(&self) -> int {
        self.sample_rate as int
    }

    /// The stored period of the waveform, one slot per entry.
    pub closed spec fn table(&self) -> Seq<i16> {
        self.wave_table@
    }

    /// The phase denominator: the index numerator counts units of
    /// `1/denom()` of one table slot.
    pub open spec fn denom(&self) -> int {
        100 * self.rate()
    }

    /// The phase wraps modulo this: the whole table in phase units.
    pub open spec fn modulus(&self) -> int {
        self.table().len() * self.denom()
    }

    /// The current fractional read position, as a phase numerator.
    pub closed spec fn idx(&self) -> int {
        self.index as int
    }

    /// The per-sample advance, as a phase numerator.
    pub closed spec fn inc(&self) -> int {
        self.index_increment as int
    }

    /// Well-formedness: a non-empty table of bounded length, a positive
    /// sample rate, the index inside the table, and an increment no larger
    /// than any settable frequency gives.
    pub open spec fn wf(&self) -> bool {
        &&& 1 <= self.table().len() <= 0x100_0000
        &&& 1 <= self.rate()
        &&& 0 <= self.idx() < self.modulus()
        &&& self.inc() <= 0xFFFF_FFFFint * self.table().len()
    }

    /// A fresh oscillator: index 0, increment 0 (silent until a frequency is
    /// set).  The table must be non-empty, since its length is a divisor.
    pub fn new(sample_rate: u32, wave_table: Vec<i16>) -> (r: WavetableOscillator)
        requires
            1 <= wave_table@.len() <= 0x100_0000,
            1 <= sample_rate,
        ensures
            r.wf(),
            r.table() == wave_table@,
            r.rate() == sample_rate as int,
            r.idx() == 0,
            r.inc() == 0,
    {
        let r = WavetableOscillator { sample_rate, wave_table, index: 0, index_increment: 0 };
        proof {
            lemma_mul_strictly_positive(r.table().len() as int, r.denom());
        }
        r
    }

    /// Sets the target frequency, given in centihertz (hundredths of a hertz).
    /// The increment becomes exactly `centi_hz * table_len` phase units, i.e.
    /// `(centi_hz/100) * table_len / sample_rate` slots per sample.  No bound
    /// is put on the frequency: an increment of a whole table or more merely
    /// under-samples the waveform (aliasing), which is accepted.
    pub fn set_frequency(&mut self, centi_hz: u32)
        requires
            old(self).wf(),
        ensures
            final(self).wf(),
            final(self).inc() == increment_for(centi_hz as int, old(self).table().len() as int),
            final(self).table() == old(self).table(),
            final(self).rate() == old(self).rate(),
            final(self).idx() == old(self).idx(),
    {
        proof {
            lemma_mul_upper_bound(
                centi_hz as int,
                0xFFFF_FFFFint,
                self.wave_table@.len() as int,
                0x100_0000int,
            );
            assert(centi_hz as int * self.wave_table@.len() as int <= 0xFFFF_FFFFint
                * self.wave_table@.len() as int) by (nonlinear_arith)
                requires
                    0 <= centi_hz as int <= 0xFFFF_FFFFint,
                    0 <= self.wave_table@.len() as int,
            ;
        }
        self.index_increment = (centi_hz as u64) * (self.wave_table.len() as u64);
    }

    /// Returns the interpolated sample at the current index, then advances the
    /// index by the increment and wraps it modulo the table length — read,
    /// then advance, so a fresh oscillator's first sample is the table at
    /// slot 0.
    pub fn get_sample(&mut self) -> (s: i16)
        requires
            old(self).wf(),
        ensures
            final(self).wf(),
            s as int == lerp_spec(old(self).table(), old(self).idx(), old(self).denom()),
            final(self).idx() == step(old(self).idx(), old(self).inc(), old(self).modulus()),
            final(self).table() == old(self).table(),
            final(self).rate() == old(self).rate(),
            final(self).inc() == old(self).inc(),
    {
        let s: i16 = self.lerp();
        proof {
            lemma_mul_upper_bound(
                self.wave_table@.len() as int,
                0x100_0000int,
                100 * self.sample_rate as int,
                0x64_0000_0000int,
            );
            lemma_mul_strictly_positive(self.wave_table@.len() as int, self.denom());
        }
        let m: u64 = (self.wave_table.len() as u64) * (100 * (self.sample_rate as u64));
        proof {
            lemma_mod_division_less_than_divisor(
                self.index as int + self.index_increment as int,
                m as int,
            );
        }
        self.index = (self.index + self.index_increment) % m;
        s
    }

    /// The interpolated sample at the current index: the two neighbouring
    /// table slots, weighted by how far into the slot the index sits.
    fn lerp(&self) -> (s: i16)
        requires
            self.wf(),
        ensures
            s as int == lerp_spec(self.table(), self.idx(), self.denom()),
    {
        let d: u64 = 100 * (self.sample_rate as u64);
        let len: usize = self.wave_table.len();
        proof {
            assert(len as int * d as int == d as int * len as int) by (nonlinear_arith);
            lemma_multiply_divide_lt(self.index as int, d as int, len as int);
            lemma_mod_division_less_than_divisor(self.index as int, d as int);
        }
        let i0: usize = (self.index / d) as usize;
        let i1: usize = if i0 + 1 == len {
            0
        } else {
            i0 + 1
        };
        let w1: u64 = self.index % d;
        let w0: u64 = d - w1;
        let t0: i64 = self.wave_table[i0] as i64;
        let t1: i64 = self.wave_table[i1] as i64;
        proof {
            assert((w0 as int) * (t0 as int) <= 0x64_0000_0000int * 32767
                && (w0 as int) * (t0 as int) >= -(0x64_0000_0000int * 32768)) by (nonlinear_arith)
                requires
                    0 <= w0 as int <= 0x64_0000_0000int,
                    -32768 <= t0 as int <= 32767,
            ;
            assert((w1 as int) * (t1 as int) <= 0x64_0000_0000int * 32767
                && (w1 as int) * (t1 as int) >= -(0x64_0000_0000int * 32768)) by (nonlinear_arith)
                requires
                    0 <= w1 as int <= 0x64_0000_0000int,
                    -32768 <= t1 as int <= 32767,
            ;
        }
        let num: i64 = (w0 as i64) * t0 + (w1 as i64) * t1;
        proof {
            lemma_weighted_sum_bounds(w0 as int, w1 as int, t0 as int, t1 as int, d as int);
            let lo: int = if t0 <= t1 { t0 as int } else { t1 as int };
            let hi: int = if t0 <= t1 { t1 as int } else { t0 as int };
            lemma_trunc_div_in_range(num as int, d as int, lo, hi);
        }
        let s64: i64 = if num >= 0 {
            ((num as u64) / d) as i64
        } else {
            -((((-num) as u64) / d) as i64)
        };
        s64 as i16
    }

    /// Produces the next `n` samples: entry `i` of the result is the
    /// interpolated value at the phase reached after `i` steps from the
    /// current index.  This is a finite prefix of the oscillator's unbounded
    /// sample sequence; the sequence has no end of its own, and stopping is
    /// the caller's choice of `n`.
    pub fn render(&mut self, n: usize) -> (out: Vec<i16>)
        requires
            old(self).wf(),
        ensures
            final(self).wf(),
            out@.len() == n,
            forall|i: int|
                0 <= i < n ==> out@[i] as int == lerp_spec(
                    old(self).table(),
                    step_n(old(self).idx(), old(self).inc(), old(self).modulus(), i as nat),
                    old(self).denom(),
                ),
            final(self).idx() == step_n(
                old(self).idx(),
                old(self).inc(),
                old(self).modulus(),
                n as nat,
            ),
            final(self).table() == old(self).table(),
            final(self).rate() == old(self).rate(),
            final(self).inc() == old(self).inc(),
    {
        let mut out: Vec<i16> = Vec::new();
        let mut k: usize = 0;
        while k < n
            invariant
                k <= n,
                self.wf(),
                out@.len() == k,
                self.idx() == step_n(old(self).idx(), old(self).inc(), old(self).modulus(), k as nat),
                self.table() == old(self).table(),
                self.rate() == old(self).rate(),
                self.inc() == old(self).inc(),
                forall|i: int|
                    0 <= i < k ==> out@[i] as int == lerp_spec(
                        old(self).table(),
                        step_n(old(self).idx(), old(self).inc(), old(self).modulus(), i as nat),
                        old(self).denom(),
                    ),
            decreases n - k,
        {
            let s: i16 = self.get_sample();
            out.push(s);
            proof {
                assert(step_n(old(self).idx(), old(self).inc(), old(self).modulus(), (k + 1) as nat)
                    == step(
                    step_n(old(self).idx(), old(self).inc(), old(self).modulus(), k as nat),
                    old(self).inc(),
                    old(self).modulus(),
                ));
            }
            k += 1;
        }
        out
    }

    /// Reports a fixed channel count of 1: the produced stream is mono.
    pub fn channels(&self) -> (c: u16)
        ensures
            c == 1,
    {
        1
    }

    /// Reports the configured output sample rate.
    pub fn sample_rate(&self) -> (r: u32)
        ensures
            r as int == self.rate(),
    {
        self.sample_rate
    }

    /// Declines to report a current frame length: the stream is unbounded.
    pub fn current_frame_len(&self) -> (r: Option<usize>)
        ensures
            r is None,
    {
        None
    }

    /// The current index, as a phase numerator (units of `1/denom()` slots).
    pub fn index(&self) -> (r: u64)
        requires
            self.wf(),
        ensures
            r as int == self.idx(),
    {
        self.index
    }

    /// The per-sample advance, as a phase numerator.
    pub fn index_increment(&self) -> (r: u64)
        requires
            self.wf(),
        ensures
            r as int == self.inc(),
    {
        self.index_increment
    }
}

/// A weighted sum of two table values, with weights summing to `d`, lies
/// between `d` times the smaller and `d` times the larger of the two.
proof fn lemma_weighted_sum_bounds(w0: int, w1: int, a: int, b: int, d: int)
    by (nonlinear_arith)
    requires
        0 <= w0,
        0 <= w1,
        w0 + w1 == d,
        -32768 <= a <= 32767,
        -32768 <= b <= 32767,
    ensures
        w0 * a + w1 * b >= d * (if a <= b { a } else { b }),
        w0 * a + w1 * b <= d * (if a <= b { b } else { a }),
{
}

/// Division rounding toward zero keeps a value between integer bounds: if
/// `d*lo <= a <= d*hi` then `lo <= trunc_div(a, d) <= hi`.
proof fn lemma_trunc_div_in_range(a: int, d: int, lo: int, hi: int)
    requires
        1 <= d,
        d * lo <= a,
        a <= d * hi,
    ensures
        lo <= trunc_div(a, d) <= hi,
{
    if a >= 0 {
        lemma_div_pos_is_pos(a, d);
        lemma_div_is_ordered(a, d * hi, d);
        lemma_div_multiples_vanish(hi, d);
        if lo > 0 {
            lemma_div_is_ordered(d * lo, a, d);
            lemma_div_multiples_vanish(lo, d);
        }
    } else {
        assert(d * (-lo) == -(d * lo)) by (nonlinear_arith);
        lemma_div_is_ordered(-a, d * (-lo), d);
        lemma_div_multiples_vanish(-lo, d);
        lemma_div_pos_is_pos(-a, d);
        if hi < 0 {
            assert(d * (-hi) == -(d * hi)) by (nonlinear_arith);
            lemma_div_is_ordered(d * (-hi), -a, d);
            lemma_div_multiples_vanish(-hi, d);
        }
    }
}

/// Interpolation at a whole slot returns that table entry exactly: at phase
/// numerator `k * d` (slot `k`, zero fractional part) the interpolated value
/// is `table[k]`, with no contribution from the neighbouring slot.
pub proof fn lemma_lerp_at_slot(table: Seq<i16>, k: int, d: int)
    requires
        1 <= d,
        0 <= k < table.len(),
    ensures
        lerp_spec(table, k * d, d) == table[k] as int,
{
    lemma_mul_nonnegative(k, d);
    assert((k * d) / d == k && (k * d) % d == 0) by {
        lemma_div_multiples_vanish(k, d);
        vstd::arithmetic::div_mod::lemma_mod_multiples_basic(k, d);
        assert(k * d == d * k) by (nonlinear_arith);
    }
    let t0: int = table[k] as int;
    assert((d - 0) * t0 + 0 * t0 == d * t0) by (nonlinear_arith);
    if t0 >= 0 {
        lemma_div_multiples_vanish(t0, d);
    } else {
        assert(-(d * t0) == d * (-t0)) by (nonlinear_arith);
        lemma_div_multiples_vanish(-t0, d);
    }
}

/// First-sample determinism: a freshly constructed oscillator, whose index is
/// zero, produces the table's slot-0 entry as its very first sample, whatever
/// the increment — the oscillator reads before it advances.
pub proof fn lemma_first_sample(o: WavetableOscillator)
    requires
        o.wf(),
        o.idx() == 0,
    ensures
        lerp_spec(o.table(), o.idx(), o.denom()) == o.table()[0] as int,
{
    assert(0 * o.denom() == 0) by (nonlinear_arith);
    lemma_lerp_at_slot(o.table(), 0, o.denom());
}

/// Interpolation boundary continuity: at any phase, the interpolated value
/// lies between the two table entries it stands between — including at the
/// wrap from the last slot back to slot 0, so crossing the table boundary can
/// never jump by more than those two adjacent entries differ.
pub proof fn lemma_lerp_bounds(table: Seq<i16>, idx: int, d: int)
    requires
        1 <= d,
        1 <= table.len(),
        0 <= idx < table.len() * d,
    ensures
        lerp_spec(table, idx, d) >= (if table[slot_of(idx, d)]
            <= table[next_slot(table.len() as int, slot_of(idx, d))] {
            table[slot_of(idx, d)] as int
        } else {
            table[next_slot(table.len() as int, slot_of(idx, d))] as int
        }),
        lerp_spec(table, idx, d) <= (if table[slot_of(idx, d)]
            <= table[next_slot(table.len() as int, slot_of(idx, d))] {
            table[next_slot(table.len() as int, slot_of(idx, d))] as int
        } else {
            table[slot_of(idx, d)] as int
        }),
{
    assert(table.len() as int * d == d * table.len() as int) by (nonlinear_arith);
    lemma_multiply_divide_lt(idx, d, table.len() as int);
    lemma_div_pos_is_pos(idx, d);
    lemma_mod_division_less_than_divisor(idx, d);
    let i0: int = slot_of(idx, d);
    let i1: int = next_slot(table.len() as int, i0);
    let w1: int = idx % d;
    lemma_weighted_sum_bounds(d - w1, w1, table[i0] as int, table[i1] as int, d);
    let lo: int = if table[i0] <= table[i1] { table[i0] as int } else { table[i1] as int };
    let hi: int = if table[i0] <= table[i1] { table[i1] as int } else { table[i0] as int };
    lemma_trunc_div_in_range((d - w1) * table[i0] + w1 * table[i1], d, lo, hi);
}

/// The phase after `n` steps in closed form: stepping is repeated modular
/// addition, so `n` steps from `idx` land on `(idx + n*inc) % m`.
pub proof fn lemma_step_n_closed(idx: int, inc: int, m: int, n: nat)
    requires
        0 < m,
        0 <= idx < m,
        0 <= inc,
    ensures
        step_n(idx, inc, m, n) == (idx + n * inc) % m,
    decreases n,
{
    if n == 0 {
        assert(0 * inc == 0) by (nonlinear_arith);
        lemma_small_mod(idx as nat, m as nat);
    } else {
        lemma_step_n_closed(idx, inc, m, (n - 1) as nat);
        let prev: int = idx + (n - 1) * inc;
        assert(idx + (n - 1) * inc + inc == idx + n * inc) by (nonlinear_arith);
        lemma_add_mod_noop(prev, inc, m);
        lemma_add_mod_noop_right(prev % m, inc, m);
        lemma_mod_division_less_than_divisor(prev % m + inc % m, m);
        lemma_small_mod((prev % m) as nat, m as nat);
        assert(((prev % m) + inc) % m == (prev + inc) % m);
    }
}

/// Periodicity: with an increment of `c` whole table slots where `c` divides
/// the table length (no frequency-induced skip), stepping `len/c` times — one
/// full traversal of the table — returns the index to exactly where it began,
/// so the sample produced there equals the sample produced at the start.
pub proof fn lemma_periodicity(o: WavetableOscillator, c: int, n: nat)
    requires
        o.wf(),
        1 <= c,
        o.inc() == c * o.denom(),
        o.table().len() as int % c == 0,
        n == o.table().len() as int / c,
    ensures
        step_n(o.idx(), o.inc(), o.modulus(), n) == o.idx(),
        lerp_spec(o.table(), step_n(o.idx(), o.inc(), o.modulus(), n), o.denom()) == lerp_spec(
            o.table(),
            o.idx(),
            o.denom(),
        ),
{
    let len: int = o.table().len() as int;
    let d: int = o.denom();
    let m: int = o.modulus();
    lemma_mul_strictly_positive(len, d);
    vstd::arithmetic::div_mod::lemma_fundamental_div_mod(len, c);
    assert(len == c * n);
    assert(n * (c * d) == (c * n) * d) by (nonlinear_arith);
    lemma_step_n_closed(o.idx(), o.inc(), m, n);
    assert(m * 1 + o.idx() == o.idx() + n * o.inc()) by (nonlinear_arith)
        requires
            m == len * d,
            o.inc() == c * d,
            len == c * n,
    ;
    lemma_mod_multiples_vanish(1, o.idx(), m);
    lemma_small_mod(o.idx() as nat, m as nat);
}

/// Frequency scaling is linear: doubling the frequency doubles the increment,
/// since the increment is exactly `centi_hz * table_len` phase units.
pub proof fn lemma_frequency_linearity(centi_hz: int, table_len: int)
    ensures
        increment_for(2 * centi_hz, table_len) == 2 * increment_for(centi_hz, table_len),
{
    assert((2 * centi_hz) * table_len == 2 * (centi_hz * table_len)) by (nonlinear_arith);
}

} // verus!
