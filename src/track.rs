//! Keyframe tracks and their linear interpolation.
use vstd::arithmetic::div_mod::{lemma_div_is_ordered, lemma_div_by_multiple, lemma_div_multiples_vanish_quotient};
use vstd::arithmetic::mul::lemma_mul_inequality;
use vstd::prelude::*;

verus! {

/// Fixed-point scale of every authored number: 12.5 is stored as 12500.
pub const UNIT: i64 = 1000;

/// One sample of an animated scalar: `value` at `time` (both in thousandths).
#[derive(Clone, Copy, Debug, PartialEq, Eq, Structural)]
pub struct Keyframe {
    pub time: i64,
    pub value: i32,
}

/// A scalar property: a constant, or keyframes in non-decreasing time order.
#[derive(Clone, Debug)]
pub enum Track {
    Static(i32),
    Animated(Vec<Keyframe>),
}

/// Keyframe times never decrease along the sequence.
pub open spec fn sorted(kfs: Seq<Keyframe>) -> bool {
    forall|i: int, j: int| 0 <= i <= j < kfs.len() ==> kfs[i].time <= kfs[j].time
}

/// Step from `a` towards `b` by the fraction `num / den`, rounded towards `a`.
pub open spec fn lerp(a: int, b: int, num: int, den: int) -> int {
    if b >= a {
        a + (b - a) * num / den
    } else {
        a - (a - b) * num / den
    }
}

/// Value of the segment that starts at keyframe `i` or later, at time `at`:
/// the first keyframe after `i` whose time exceeds `at` closes the segment;
/// past the last keyframe its value holds.
pub open spec fn value_from(kfs: Seq<Keyframe>, i: int, at: int) -> int
    decreases kfs.len() - i,
{
    if i + 1 >= kfs.len() {
        kfs[i].value as int
    } else if at < kfs[i + 1].time {
        lerp(kfs[i].value as int, kfs[i + 1].value as int, at - kfs[i].time, kfs[i + 1].time - kfs[i].time)
    } else {
        value_from(kfs, i + 1, at)
    }
}

/// Value of a keyframe sequence at `at`: the first value before the first
/// keyframe, otherwise the value of the segment that holds `at`.
pub open spec fn keyframes_at(kfs: Seq<Keyframe>, at: int) -> int {
    if at < kfs[0].time {
        kfs[0].value as int
    } else {
        value_from(kfs, 0, at)
    }
}

/// Value of a track at `at` (thousandths of a frame).
pub open spec fn track_at(t: Track, at: int) -> int {
    match t {
        Track::Static(v) => v as int,
        Track::Animated(kfs) => keyframes_at(kfs@, at),
    }
}

impl Track {
    /// An animated track has at least one keyframe, in time order.
    pub open spec fn wf(&self) -> bool {
        match self {
            Track::Static(_) => true,
            Track::Animated(kfs) => kfs@.len() > 0 && sorted(kfs@),
        }
    }

    /// Value of the track at `at` (thousandths of a frame).
    pub fn value_at(&self, at: i64) -> (r: i32)
        requires
            self.wf(),
        ensures
            r == track_at(*self, at as int),
            self is Static ==> r == self->Static_0,
    {
        match self {
            Track::Static(v) => *v,
            Track::Animated(kfs) => keyframes_value(kfs, at),
        }
    }
}

/// Whether `kfs` is non-empty with its times in non-decreasing order.
pub fn keyframes_ordered(kfs: &Vec<Keyframe>) -> (r: bool)
    ensures
        r == (kfs@.len() > 0 && sorted(kfs@)),
{
    if kfs.len() == 0 {
        return false;
    }
    let mut i: usize = 1;
    while i < kfs.len()
        invariant
            1 <= i <= kfs@.len(),
            forall|a: int, b: int| 0 <= a <= b < i ==> kfs@[a].time <= kfs@[b].time,
        decreases kfs@.len() - i,
    {
        if kfs[i - 1].time > kfs[i].time {
            return false;
        }
        i = i + 1;
    }
    true
}

impl Track {
    /// Whether the track is well-formed (see [`Track::wf`]).
    pub fn check(&self) -> (r: bool)
        ensures
            r == self.wf(),
    {
        match self {
            Track::Static(_) => true,
            Track::Animated(kfs) => keyframes_ordered(kfs),
        }
    }
}

proof fn lemma_step_bounds(d: int, num: int, den: int)
    requires
        0 <= d,
        0 <= num < den,
    ensures
        0 <= d * num / den <= d,
{
    lemma_mul_inequality(num, den, d);
    assert(num * d == d * num) by (nonlinear_arith);
    assert(den * d == d * den) by (nonlinear_arith);
    assert(0 <= d * num) by (nonlinear_arith) requires 0 <= d, 0 <= num;
    lemma_div_is_ordered(0, d * num, den);
    lemma_div_is_ordered(d * num, d * den, den);
    lemma_div_by_multiple(d, den);
}

/// Integer form of [`lerp`] with `0 <= num < den`.
pub fn lerp_value(a: i32, b: i32, num: u128, den: u128) -> (r: i32)
    requires
        num < den,
        num <= u64::MAX,
    ensures
        r == lerp(a as int, b as int, num as int, den as int),
{
    if b >= a {
        let d: u128 = (b as i64 - a as i64) as u128;
        proof {
            lemma_step_bounds(d as int, num as int, den as int);
            assert(d * num <= u32::MAX * u64::MAX) by (nonlinear_arith)
                requires d <= u32::MAX, num <= u64::MAX;
        }
        let q: u128 = d * num / den;
        (a as i64 + q as i64) as i32
    } else {
        let d: u128 = (a as i64 - b as i64) as u128;
        proof {
            lemma_step_bounds(d as int, num as int, den as int);
            assert(d * num <= u32::MAX * u64::MAX) by (nonlinear_arith)
                requires d <= u32::MAX, num <= u64::MAX;
        }
        let q: u128 = d * num / den;
        (a as i64 - q as i64) as i32
    }
}

/// Value of a non-empty keyframe sequence at `at`.
pub fn keyframes_value(kfs: &Vec<Keyframe>, at: i64) -> (r: i32)
    requires
        kfs@.len() > 0,
    ensures
        r == keyframes_at(kfs@, at as int),
{
    if at < kfs[0].time {
        return kfs[0].value;
    }
    let mut i: usize = 0;
    while i < kfs.len() - 1 && kfs[i + 1].time <= at
        invariant
            0 <= i < kfs@.len(),
            kfs@[i as int].time <= at,
            value_from(kfs@, 0, at as int) == value_from(kfs@, i as int, at as int),
        decreases kfs@.len() - i,
    {
        i = i + 1;
    }
    if i + 1 < kfs.len() {
        let num: u128 = (at as i128 - kfs[i].time as i128) as u128;
        let den: u128 = (kfs[i + 1].time as i128 - kfs[i].time as i128) as u128;
        lerp_value(kfs[i].value, kfs[i + 1].value, num, den)
    } else {
        kfs[i].value
    }
}

proof fn lemma_value_past_end(kfs: Seq<Keyframe>, i: int, at: int)
    requires
        0 <= i < kfs.len(),
        sorted(kfs),
        at >= kfs[kfs.len() - 1].time,
    ensures
        value_from(kfs, i, at) == kfs[kfs.len() - 1].value,
    decreases kfs.len() - i,
{
    if i + 1 < kfs.len() {
        assert(kfs[i + 1].time <= kfs[kfs.len() - 1].time);
        lemma_value_past_end(kfs, i + 1, at);
    }
}

/// Interpolation never extrapolates: before the first keyframe a track holds
/// the first keyframe's value, at or after the last it holds the last one's.
pub proof fn lemma_clamped_ends(kfs: Seq<Keyframe>, at: int)
    requires
        kfs.len() > 0,
        sorted(kfs),
    ensures
        at < kfs[0].time ==> keyframes_at(kfs, at) == kfs[0].value,
        at >= kfs[kfs.len() - 1].time ==> keyframes_at(kfs, at) == kfs[kfs.len() - 1].value,
{
    if at >= kfs[kfs.len() - 1].time {
        assert(kfs[0].time <= kfs[kfs.len() - 1].time);
        lemma_value_past_end(kfs, 0, at);
    }
}

/// A two-keyframe track `(t0, v0), (t1, v1)` gives `v0` at `t0`, `v1` at `t1`,
/// and at the midpoint the mean of the two values, to within one thousandth.
pub proof fn lemma_two_keyframes(k0: Keyframe, k1: Keyframe)
    requires
        k0.time < k1.time,
        (k1.time - k0.time) % 2 == 0,
    ensures
        keyframes_at(seq![k0, k1], k0.time as int) == k0.value,
        keyframes_at(seq![k0, k1], k1.time as int) == k1.value,
        ({
            let m = keyframes_at(seq![k0, k1], (k0.time + k1.time) / 2);
            -1 <= 2 * m - (k0.value + k1.value) <= 1
        }),
{
    let kfs = seq![k0, k1];
    let d = k1.time - k0.time;
    let h = d / 2;
    assert(d == 2 * h);
    let mid = (k0.time + k1.time) / 2;
    assert(mid == k0.time + h);
    assert(value_from(kfs, 1, k1.time as int) == k1.value);
    assert(value_from(kfs, 0, k0.time as int) == lerp(k0.value as int, k1.value as int, 0, d)) ;
    assert(value_from(kfs, 0, mid) == lerp(k0.value as int, k1.value as int, h, d));
    if k1.value >= k0.value {
        let e = k1.value - k0.value;
        assert(e * 0 == 0);
        lemma_div_multiples_vanish_quotient(h, e, 2);
        assert(h * e == e * h) by (nonlinear_arith);
        assert(h * 2 == d);
    } else {
        let e = k0.value - k1.value;
        assert(e * 0 == 0);
        lemma_div_multiples_vanish_quotient(h, e, 2);
        assert(h * e == e * h) by (nonlinear_arith);
        assert(h * 2 == d);
    }
}

} // verus!
