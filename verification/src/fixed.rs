//! Fixed-point sample arithmetic.
//!
//! A sample is an `i64` holding a fraction scaled by `UNIT`: the value
//! `UNIT` stands for 1.0 and `-UNIT` for -1.0.  Metric levels live in
//! `[0, UNIT]`, pan values in `[-UNIT, UNIT]`.  The output stage quantizes
//! samples to 16-bit signed integers; nothing before that stage leaves the
//! fixed-point domain.

use vstd::prelude::*;

verus! {

/// Fixed-point scale: this value stands for 1.0.
pub const UNIT: i64 = 1_000_000;

/// One step of exponential smoothing toward `raw` with weight `alpha`
/// (also scaled by `UNIT`): `cur + (raw - cur) * alpha / UNIT`, written so
/// that the quantity divided is never negative.
pub open spec fn smooth_spec(cur: int, raw: int, alpha: int) -> int {
    if raw >= cur {
        cur + (raw - cur) * alpha / (UNIT as int)
    } else {
        cur - (cur - raw) * alpha / (UNIT as int)
    }
}

/// A smoothing step moves the level toward the reading and cannot
/// overshoot it, so levels never leave `[0, UNIT]`.
pub proof fn lemma_smooth_in_range(cur: int, raw: int, alpha: int)
    requires
        0 <= cur <= UNIT,
        0 <= raw <= UNIT,
        0 <= alpha <= UNIT,
    ensures
        0 <= smooth_spec(cur, raw, alpha) <= UNIT,
        raw >= cur ==> cur <= smooth_spec(cur, raw, alpha) <= raw,
        raw < cur ==> raw <= smooth_spec(cur, raw, alpha) <= cur,
{
    if raw >= cur {
        let d = raw - cur;
        assert(0 <= d * alpha <= d * (UNIT as int)) by (nonlinear_arith)
            requires 0 <= d, 0 <= alpha <= UNIT;
        assert(0 <= d * alpha / (UNIT as int) <= d);
    } else {
        let d = cur - raw;
        assert(0 <= d * alpha <= d * (UNIT as int)) by (nonlinear_arith)
            requires 0 <= d, 0 <= alpha <= UNIT;
        assert(0 <= d * alpha / (UNIT as int) <= d);
    }
}

/// With a weight strictly below 1.0, a level strictly below the reading
/// stays strictly below it: the smoothed value approaches its target but
/// never reaches it in one step.
pub proof fn lemma_smooth_stays_below(cur: int, raw: int, alpha: int)
    requires
        0 <= cur < raw <= UNIT,
        0 <= alpha < UNIT,
    ensures
        cur <= smooth_spec(cur, raw, alpha) < raw,
{
    let d = raw - cur;
    assert(0 <= d * alpha <= d * ((UNIT as int) - 1)) by (nonlinear_arith)
        requires 0 <= d, 0 <= alpha <= (UNIT as int) - 1;
    assert(d * ((UNIT as int) - 1) / (UNIT as int) == d - 1) by (nonlinear_arith)
        requires 1 <= d <= UNIT;
    assert(d * alpha / (UNIT as int) <= d - 1);
}

/// One smoothing step, exactly `smooth_spec` on the arguments.
pub fn smooth_level(cur: i64, raw: i64, alpha: i64) -> (r: i64)
    requires
        0 <= cur <= UNIT,
        0 <= raw <= UNIT,
        0 <= alpha <= UNIT,
    ensures
        r == smooth_spec(cur as int, raw as int, alpha as int),
        0 <= r <= UNIT,
{
    proof {
        lemma_smooth_in_range(cur as int, raw as int, alpha as int);
    }
    if raw >= cur {
        let d: i64 = raw - cur;
        assert(0 <= d * alpha <= d * (UNIT as int)) by (nonlinear_arith)
            requires 0 <= d, 0 <= alpha <= UNIT;
        cur + d * alpha / UNIT
    } else {
        let d: i64 = cur - raw;
        assert(0 <= d * alpha <= d * (UNIT as int)) by (nonlinear_arith)
            requires 0 <= d, 0 <= alpha <= UNIT;
        cur - d * alpha / UNIT
    }
}

/// The level after feeding a whole sequence of readings through the
/// smoothing step, starting from `start`.
pub open spec fn run_levels(start: int, readings: Seq<int>, alpha: int) -> int
    decreases readings.len(),
{
    if readings.len() == 0 {
        start
    } else {
        smooth_spec(run_levels(start, readings.drop_last(), alpha), readings.last(), alpha)
    }
}

/// However many readings in `[0, UNIT]` are applied, the smoothed level
/// stays within `[0, UNIT]`.
pub proof fn lemma_run_levels_in_range(start: int, readings: Seq<int>, alpha: int)
    requires
        0 <= start <= UNIT,
        0 <= alpha <= UNIT,
        forall|i: int| 0 <= i < readings.len() ==> 0 <= #[trigger] readings[i] <= UNIT,
    ensures
        0 <= run_levels(start, readings, alpha) <= UNIT,
    decreases readings.len(),
{
    if readings.len() > 0 {
        lemma_run_levels_in_range(start, readings.drop_last(), alpha);
        lemma_smooth_in_range(run_levels(start, readings.drop_last(), alpha), readings.last(), alpha);
    }
}

/// With a weight strictly below 1.0, a level that starts strictly below
/// `UNIT` converges toward its readings but never reaches `UNIT` after any
/// finite number of ticks.
pub proof fn lemma_run_levels_never_reach_unit(start: int, readings: Seq<int>, alpha: int)
    requires
        0 <= start < UNIT,
        0 <= alpha < UNIT,
        forall|i: int| 0 <= i < readings.len() ==> 0 <= #[trigger] readings[i] <= UNIT,
    ensures
        0 <= run_levels(start, readings, alpha) < UNIT,
    decreases readings.len(),
{
    if readings.len() > 0 {
        lemma_run_levels_never_reach_unit(start, readings.drop_last(), alpha);
        let cur = run_levels(start, readings.drop_last(), alpha);
        let raw = readings.last();
        if raw > cur {
            lemma_smooth_stays_below(cur, raw, alpha);
        } else {
            lemma_smooth_in_range(cur, raw, alpha);
        }
    }
}

/// Linear interpolation between `a` and `b`, `i` of `n` steps in.
pub open spec fn lerp_spec(a: int, b: int, i: int, n: int) -> int {
    (a * (n - i) + b * i) / n
}

/// Interpolation between two levels in `[0, UNIT]` stays in `[0, UNIT]`,
/// and its endpoints are exact.
pub proof fn lemma_lerp_in_range(a: int, b: int, i: int, n: int)
    requires
        0 <= a <= UNIT,
        0 <= b <= UNIT,
        0 <= i <= n,
        1 <= n,
    ensures
        0 <= lerp_spec(a, b, i, n) <= UNIT,
        i == 0 ==> lerp_spec(a, b, i, n) == a,
{
    assert(0 <= a * (n - i) + b * i <= (UNIT as int) * n) by (nonlinear_arith)
        requires 0 <= a <= UNIT, 0 <= b <= UNIT, 0 <= i <= n;
    assert((a * (n - i) + b * i) / n <= (UNIT as int)) by (nonlinear_arith)
        requires 1 <= n, a * (n - i) + b * i <= (UNIT as int) * n;
    assert((a * (n - i) + b * i) / n >= 0) by (nonlinear_arith)
        requires 1 <= n, a * (n - i) + b * i >= 0;
    if i == 0 {
        assert(a * n / n == a) by (nonlinear_arith)
            requires 1 <= n;
    }
}

/// The deterministic pan value derived from an event's source identifier:
/// a hash-like map from the identifier into `[-UNIT, UNIT]`.
pub open spec fn pan_spec(id: u64) -> int {
    ((id % 256) * 1337 % 256) * (UNIT as int) / 128 - UNIT
}

/// Pan values always land in `[-UNIT, UNIT]`.
pub proof fn lemma_pan_in_range(id: u64)
    ensures
        -UNIT <= pan_spec(id) <= UNIT,
{
}

/// The pan value of an event source, exactly `pan_spec` of the identifier:
/// the same identifier always yields the same pan.
pub fn pan_of_id(id: u64) -> (r: i64)
    ensures
        r == pan_spec(id),
        -UNIT <= r <= UNIT,
{
    let h: u64 = (id % 256) * 1337 % 256;
    (h as i64) * UNIT / 128 - UNIT
}

/// Quantization of a fixed-point sample to a 16-bit output sample: clamp
/// to `[-UNIT, UNIT]`, then scale by `32767 / UNIT`, rounding the
/// magnitude down.
pub open spec fn quantize_spec(x: int) -> int {
    let c = if x > UNIT { UNIT as int } else if x < -UNIT { -(UNIT as int) } else { x };
    if c >= 0 {
        c * 32767 / (UNIT as int)
    } else {
        -((-c) * 32767 / (UNIT as int))
    }
}

/// Quantized samples fit in a 16-bit signed integer.
pub proof fn lemma_quantize_in_range(x: int)
    ensures
        -32767 <= quantize_spec(x) <= 32767,
{
}

/// Quantize one fixed-point sample to the 16-bit output domain.
pub fn quantize_sample(x: i64) -> (r: i16)
    ensures
        r == quantize_spec(x as int),
{
    let c: i64 = if x > UNIT { UNIT } else if x < -UNIT { -UNIT } else { x };
    if c >= 0 {
        (c * 32767 / UNIT) as i16
    } else {
        (-((-c) * 32767 / UNIT)) as i16
    }
}

/// The fixed-point value of a 16-bit sample: scale by `UNIT / 32768`,
/// rounding the magnitude down.
pub open spec fn from_q15_spec(v: int) -> int {
    if v >= 0 {
        v * (UNIT as int) / 32768
    } else {
        -((-v) * (UNIT as int) / 32768)
    }
}

/// Widening a 16-bit sample never leaves `[-UNIT, UNIT]`.
pub proof fn lemma_from_q15_in_range(v: int)
    requires
        -32768 <= v <= 32767,
    ensures
        -UNIT <= from_q15_spec(v) <= UNIT,
{
}

/// Widen a 16-bit sample back into the fixed-point domain.
pub fn sample_from_q15(v: i16) -> (r: i64)
    ensures
        r == from_q15_spec(v as int),
        -UNIT <= r <= UNIT,
{
    let w: i64 = v as i64;
    if w >= 0 {
        w * UNIT / 32768
    } else {
        -((-w) * UNIT / 32768)
    }
}

} // verus!
