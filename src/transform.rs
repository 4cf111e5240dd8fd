//! Layer transforms and their resolution at a given frame.
use crate::track::{track_at, Track};
use vstd::prelude::*;

verus! {

/// 100 percent in thousandths. A resolved scale or opacity is a fraction of
/// this: the authored percentage divided by 100, with no further rounding.
pub const FULL: i32 = 100_000;

/// A 2-D point or vector, in thousandths.
#[derive(Clone, Copy, Debug, PartialEq, Eq, Structural)]
pub struct Point {
    pub x: i32,
    pub y: i32,
}

/// A 2-D property, one track per axis (interpolation is per axis).
#[derive(Clone, Debug)]
pub struct PointTrack {
    pub x: Track,
    pub y: Track,
}

/// The animatable properties of a layer; `None` is a property left out of the
/// authored data, which resolves to its neutral value.
#[derive(Clone, Debug)]
pub struct Transform {
    /// Position, in thousandths of a pixel.
    pub position: Option<PointTrack>,
    /// Anchor point (pivot), in thousandths of a pixel.
    pub anchor: Option<PointTrack>,
    /// Scale, in thousandths of a percent.
    pub scale: Option<PointTrack>,
    /// Rotation, in thousandths of a degree.
    pub rotation: Option<Track>,
    /// Opacity, in thousandths of a percent.
    pub opacity: Option<Track>,
}

/// A transform evaluated at one frame.
#[derive(Clone, Copy, Debug, PartialEq, Eq, Structural)]
pub struct Resolved {
    pub position: Point,
    pub anchor: Point,
    /// Multiplier per axis, in parts of [`FULL`].
    pub scale: Point,
    pub rotation: i32,
    /// Fraction in parts of [`FULL`], within `0..=FULL`.
    pub opacity: i32,
}

pub open spec fn opt_track_wf(t: Option<Track>) -> bool {
    match t {
        Some(t) => t.wf(),
        None => true,
    }
}

pub open spec fn opt_point_wf(t: Option<PointTrack>) -> bool {
    match t {
        Some(p) => p.x.wf() && p.y.wf(),
        None => true,
    }
}

/// A scalar property at `at`, or `dflt` where it is absent.
pub open spec fn scalar_or(t: Option<Track>, at: int, dflt: int) -> int {
    match t {
        Some(t) => track_at(t, at),
        None => dflt,
    }
}

/// A 2-D property at `at`, or `(dflt, dflt)` where it is absent.
pub open spec fn point_or(t: Option<PointTrack>, at: int, dflt: int) -> Point {
    match t {
        Some(p) => Point { x: track_at(p.x, at) as i32, y: track_at(p.y, at) as i32 },
        None => Point { x: dflt as i32, y: dflt as i32 },
    }
}

/// `v` limited to `0..=FULL`.
pub open spec fn clamp_unit(v: int) -> int {
    if v < 0 {
        0
    } else if v > FULL {
        FULL as int
    } else {
        v
    }
}

/// The transform `t` at `at` (thousandths of a frame).
pub open spec fn resolved_at(t: Transform, at: int) -> Resolved {
    Resolved {
        position: point_or(t.position, at, 0),
        anchor: point_or(t.anchor, at, 0),
        scale: point_or(t.scale, at, FULL as int),
        rotation: scalar_or(t.rotation, at, 0) as i32,
        opacity: clamp_unit(scalar_or(t.opacity, at, FULL as int)) as i32,
    }
}

fn scalar_value(t: &Option<Track>, at: i64, dflt: i32) -> (r: i32)
    requires
        opt_track_wf(*t),
    ensures
        r == scalar_or(*t, at as int, dflt as int),
{
    match t {
        Some(t) => t.value_at(at),
        None => dflt,
    }
}

fn point_value(t: &Option<PointTrack>, at: i64, dflt: i32) -> (r: Point)
    requires
        opt_point_wf(*t),
    ensures
        r == point_or(*t, at as int, dflt as int),
{
    match t {
        Some(p) => Point { x: p.x.value_at(at), y: p.y.value_at(at) },
        None => Point { x: dflt, y: dflt },
    }
}

fn check_scalar(t: &Option<Track>) -> (r: bool)
    ensures
        r == opt_track_wf(*t),
{
    match t {
        Some(t) => t.check(),
        None => true,
    }
}

fn check_point(t: &Option<PointTrack>) -> (r: bool)
    ensures
        r == opt_point_wf(*t),
{
    match t {
        Some(p) => p.x.check() && p.y.check(),
        None => true,
    }
}

impl Transform {
    /// Whether every animated property is well-formed (see [`Transform::wf`]).
    pub fn check(&self) -> (r: bool)
        ensures
            r == self.wf(),
    {
        check_point(&self.position) && check_point(&self.anchor) && check_point(&self.scale)
            && check_scalar(&self.rotation) && check_scalar(&self.opacity)
    }

    /// Every animated property has keyframes in time order.
    pub open spec fn wf(&self) -> bool {
        &&& opt_point_wf(self.position)
        &&& opt_point_wf(self.anchor)
        &&& opt_point_wf(self.scale)
        &&& opt_track_wf(self.rotation)
        &&& opt_track_wf(self.opacity)
    }

    /// Evaluates every property at `at` (thousandths of a frame). The result
    /// depends on the transform and `at` alone; opacity is always within
    /// `0..=FULL`.
    pub fn resolve(&self, at: i64) -> (r: Resolved)
        requires
            self.wf(),
        ensures
            r == resolved_at(*self, at as int),
            0 <= r.opacity <= FULL,
    {
        let o = scalar_value(&self.opacity, at, FULL);
        let opacity = if o < 0 {
            0
        } else if o > FULL {
            FULL
        } else {
            o
        };
        Resolved {
            position: point_value(&self.position, at, 0),
            anchor: point_value(&self.anchor, at, 0),
            scale: point_value(&self.scale, at, FULL),
            rotation: scalar_value(&self.rotation, at, 0),
            opacity,
        }
    }
}

/// Resolved opacity lies within `0..=FULL` for every transform and frame,
/// whatever the magnitude of the authored values.
pub proof fn lemma_opacity_clamped(t: Transform, at: int)
    ensures
        0 <= resolved_at(t, at).opacity <= FULL,
{
    let v = scalar_or(t.opacity, at, FULL as int);
    assert(0 <= clamp_unit(v) <= FULL);
}

} // verus!
