//! Rolling statistics kept by duration and count metrics.
//!
//! Each measurement updates a running mean `m`, a running sum of squared
//! deviations `s` (Welford's method), the number of measurements `count`
//! and their plain `sum`. All arithmetic is done on `i64` exactly as the
//! collection side expects it: the sums wrap, the mean uses truncating
//! integer division.
use vstd::prelude::*;
use vstd::arithmetic::div_mod::{lemma_div_basics_4, lemma_div_basics_5};

verus! {

/// The four accumulators of a duration or count metric.
#[derive(Clone, Copy, Debug, PartialEq, Eq, Structural)]
pub struct WelfordState {
    pub m: i64,
    pub s: i64,
    pub count: usize,
    pub sum: i64,
}

/// The value a `u64` measurement takes once reinterpreted as an `i64`
/// (two's complement, as `as i64` does).
pub open spec fn signed_of(x: u64) -> int {
    if x <= i64::MAX { x as int } else { x - 0x1_0000_0000_0000_0000int }
}

/// Integer division rounding toward zero, as Rust's `/` does.
pub open spec fn trunc_div(a: int, b: int) -> int {
    if a >= 0 { a / b } else { -((-a) / b) }
}

/// Wrapping addition of two `i64` values.
pub open spec fn wrap_add(a: i64, b: i64) -> i64 {
    vstd::wrapping::i64_specs::wrapping_add(a, b)
}

/// The state with every accumulator at zero.
pub open spec fn welford_zero() -> WelfordState {
    WelfordState { m: 0, s: 0, count: 0, sum: 0 }
}

/// Wrapping subtraction of two `i64` values.
pub open spec fn wrap_sub(a: i64, b: i64) -> i64 {
    vstd::wrapping::i64_specs::wrapping_sub(a, b)
}

/// Wrapping multiplication of two `i64` values.
pub open spec fn wrap_mul(a: i64, b: i64) -> i64 {
    vstd::wrapping::i64_specs::wrapping_mul(a, b)
}

/// The new running mean after one more measurement `d`, computed in `i64`
/// with wrapping subtraction and addition.
pub open spec fn next_mean(w: WelfordState, d: i64) -> i64 {
    wrap_add(w.m, trunc_div(wrap_sub(d, w.m) as int, w.count + 1) as i64)
}

/// The term Welford's method adds to `s` for measurement `d`.
pub open spec fn deviation_term(w: WelfordState, d: i64) -> i64 {
    wrap_mul(wrap_sub(d, next_mean(w, d)), wrap_sub(d, w.m))
}

/// Whether one more measurement can be counted: the new count must stay a
/// positive `i64` and a `usize`.
pub open spec fn has_room(w: WelfordState) -> bool {
    &&& w.count < i64::MAX
    &&& w.count < usize::MAX
}

/// Whether the difference between measurement `x` and the running mean of
/// `w` stays in the range of `i64`. Then the new mean lies between the two
/// and is exact (see `lemma_next_mean_exact`); the product added to `s`
/// and the sums may still wrap.
pub open spec fn no_overflow(w: WelfordState, x: u64) -> bool {
    i64::MIN <= signed_of(x) - w.m <= i64::MAX
}

/// The state after recording measurement `x`.
pub open spec fn welford_step(w: WelfordState, x: u64) -> WelfordState {
    let d = signed_of(x) as i64;
    WelfordState {
        m: next_mean(w, d),
        s: wrap_add(w.s, deviation_term(w, d)),
        count: (w.count + 1) as usize,
        sum: wrap_add(w.sum, d),
    }
}

/// Whether every measurement of `xs`, recorded in order from `w`, can be recorded.
pub open spec fn can_record_all(w: WelfordState, xs: Seq<u64>) -> bool
    decreases xs.len(),
{
    if xs.len() == 0 {
        true
    } else {
        has_room(w) && no_overflow(w, xs[0]) && can_record_all(welford_step(w, xs[0]), xs.drop_first())
    }
}

/// The state after recording the measurements of `xs` in order.
pub open spec fn welford_run(w: WelfordState, xs: Seq<u64>) -> WelfordState
    decreases xs.len(),
{
    if xs.len() == 0 {
        w
    } else {
        welford_run(welford_step(w, xs[0]), xs.drop_first())
    }
}

/// The wrapping `i64` sum of the measurements of `xs`, starting from `acc`.
pub open spec fn wrapped_sum(acc: i64, xs: Seq<u64>) -> i64
    decreases xs.len(),
{
    if xs.len() == 0 {
        acc
    } else {
        wrapped_sum(wrap_add(acc, signed_of(xs[0]) as i64), xs.drop_first())
    }
}

proof fn lemma_trunc_div_bounds(a: int, k: int)
    requires
        k >= 1,
    ensures
        a >= 0 ==> 0 <= trunc_div(a, k) <= a,
        a < 0 ==> a <= trunc_div(a, k) <= 0,
{
    broadcast use lemma_div_basics_4, lemma_div_basics_5;
    if a < 0 {
        assert(0 <= (-a) / k <= -a);
    } else {
        assert(0 <= a / k <= a);
    }
}

pub(crate) proof fn lemma_signed_cast(x: u64)
    ensures
        (x as i64) as int == signed_of(x),
{
    assert(x <= 0x7fff_ffff_ffff_ffffu64 ==> (x as i64) as int == x as int) by (bit_vector);
    assert(x > 0x7fff_ffff_ffff_ffffu64 ==> (x as i64) as int == x as int - 0x1_0000_0000_0000_0000int)
        by (bit_vector);
}

/// Without overflow, the new mean is the old one moved toward the
/// measurement by the truncated quotient, and lies between the two.
pub proof fn lemma_next_mean_exact(w: WelfordState, x: u64)
    requires
        no_overflow(w, x),
    ensures
        ({
            let d = signed_of(x);
            let nm = next_mean(w, d as i64) as int;
            &&& wrap_sub(d as i64, w.m) == d - w.m
            &&& nm == w.m + trunc_div(d - w.m, w.count + 1)
            &&& w.m <= d ==> w.m <= nm <= d
            &&& d <= w.m ==> d <= nm <= w.m
            &&& wrap_sub(d as i64, nm as i64) == d - nm
        }),
{
    let d = signed_of(x);
    lemma_trunc_div_bounds(d - w.m, w.count + 1);
}

impl WelfordState {
    /// A state with every accumulator at zero.
    pub fn new() -> (r: Self)
        ensures
            r == welford_zero(),
    {
        WelfordState { m: 0, s: 0, count: 0, sum: 0 }
    }

    /// Whether one more measurement can be counted.
    pub fn has_room(&self) -> (r: bool)
        ensures
            r == has_room(*self),
    {
        self.count < usize::MAX && (self.count as u64) < (i64::MAX as u64)
    }

    /// Records one measurement (Welford's method for the rolling variance).
    pub fn record(&mut self, value: u64)
        requires
            has_room(*old(self)),
        ensures
            *final(self) == welford_step(*old(self), value),
    {
        let d: i64 = value as i64;
        proof {
            lemma_signed_cast(value);
        }
        let k: usize = self.count + 1;
        self.sum = self.sum.wrapping_add(d);
        let old_m: i64 = self.m;
        let diff: i64 = d.wrapping_sub(old_m);
        let new_m: i64 = old_m.wrapping_add(diff / (k as i64));
        self.m = new_m;
        let term: i64 = d.wrapping_sub(new_m).wrapping_mul(diff);
        self.s = self.s.wrapping_add(term);
        self.count = k;
    }
}

/// Law: without overflow, the term Welford's method adds to `s` is the
/// product of two factors of the same sign, so it is never negative.
pub proof fn lemma_deviation_term_nonnegative(w: WelfordState, x: u64)
    requires
        no_overflow(w, x),
    ensures
        (signed_of(x) - next_mean(w, signed_of(x) as i64)) * (signed_of(x) - w.m) >= 0,
{
    lemma_next_mean_exact(w, x);
    let d = signed_of(x);
    let a = d - w.m;
    let b = d - next_mean(w, d as i64);
    assert(a >= 0 ==> b >= 0);
    assert(a <= 0 ==> b <= 0);
    assert(a * b >= 0) by (nonlinear_arith)
        requires
            a >= 0 ==> b >= 0,
            a <= 0 ==> b <= 0,
    ;
}

/// Law: after a first measurement the mean is exactly that measurement.
pub proof fn lemma_first_measurement_is_mean(w: WelfordState, x: u64)
    requires
        w.count == 0,
        no_overflow(w, x),
    ensures
        welford_step(w, x).m == signed_of(x),
        welford_step(w, x).count == 1,
{
    lemma_next_mean_exact(w, x);
    let d = signed_of(x);
    assert(trunc_div(d - w.m, 1) == d - w.m);
}

/// Law: recording a sequence of measurements counts them all, sums them
/// (wrapping), and, once at least one is recorded, keeps the mean between
/// the smallest and the largest of them.
pub proof fn lemma_run_counts_and_sums(w: WelfordState, xs: Seq<u64>, lo: int, hi: int)
    requires
        can_record_all(w, xs),
        w.count == 0 || lo <= w.m <= hi,
        forall|i: int| 0 <= i < xs.len() ==> lo <= #[trigger] signed_of(xs[i]) <= hi,
    ensures
        welford_run(w, xs).count == w.count + xs.len(),
        welford_run(w, xs).sum == wrapped_sum(w.sum, xs),
        w.count + xs.len() > 0 ==> lo <= welford_run(w, xs).m <= hi,
    decreases xs.len(),
{
    if xs.len() > 0 {
        let d = signed_of(xs[0]);
        assert(lo <= d <= hi);
        lemma_next_mean_exact(w, xs[0]);
        if w.count == 0 {
            lemma_first_measurement_is_mean(w, xs[0]);
        }
        let rest = xs.drop_first();
        assert forall|i: int| 0 <= i < rest.len() implies lo <= #[trigger] signed_of(rest[i]) <= hi by {
            assert(rest[i] == xs[i + 1]);
        }
        lemma_run_counts_and_sums(welford_step(w, xs[0]), rest, lo, hi);
    }
}

} // verus!
