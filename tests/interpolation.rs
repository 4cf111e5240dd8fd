use bodymovin::track::{keyframes_ordered, keyframes_value, lerp_value, Keyframe, Track};
use bodymovin::transform::{PointTrack, Transform, FULL};

fn kf(time: i64, value: i32) -> Keyframe {
    Keyframe { time, value }
}

fn empty_transform() -> Transform {
    Transform { position: None, anchor: None, scale: None, rotation: None, opacity: None }
}

#[test]
fn static_track_ignores_frame() {
    let t = Track::Static(-42_500);
    for at in [-5_000i64, 0, 1, 7_000, 1_000_000] {
        assert_eq!(t.value_at(at), -42_500);
    }
}

#[test]
fn two_keyframes_ends_and_midpoint() {
    let kfs = vec![kf(0, 20_000), kf(10_000, 80_000)];
    assert_eq!(keyframes_value(&kfs, 0), 20_000);
    assert_eq!(keyframes_value(&kfs, 10_000), 80_000);
    assert_eq!(keyframes_value(&kfs, 5_000), 50_000);
    let down = vec![kf(2_000, 7), kf(4_000, 0)];
    let m = keyframes_value(&down, 3_000);
    assert!((2 * m - 7).abs() <= 1);
}

#[test]
fn interpolation_exact_value() {
    let kfs = vec![kf(0, 0), kf(10_000, 1_000)];
    assert_eq!(keyframes_value(&kfs, 2_500), 250);
    assert_eq!(lerp_value(100, 0, 1, 3), 67);
    assert_eq!(lerp_value(0, 100, 1, 3), 33);
}

#[test]
fn no_extrapolation_outside_keyframes() {
    let kfs = vec![kf(5_000, 10), kf(8_000, 40), kf(12_000, 90)];
    assert_eq!(keyframes_value(&kfs, 0), 10);
    assert_eq!(keyframes_value(&kfs, 4_999), 10);
    assert_eq!(keyframes_value(&kfs, 12_000), 90);
    assert_eq!(keyframes_value(&kfs, 50_000), 90);
    assert_eq!(keyframes_value(&kfs, 10_000), 65);
}

#[test]
fn single_keyframe_holds() {
    let kfs = vec![kf(3_000, 9)];
    assert_eq!(keyframes_value(&kfs, 0), 9);
    assert_eq!(keyframes_value(&kfs, 3_000), 9);
    assert_eq!(keyframes_value(&kfs, 9_000), 9);
}

#[test]
fn keyframe_order_check() {
    assert!(keyframes_ordered(&vec![kf(0, 1), kf(0, 2), kf(3, 1)]));
    assert!(!keyframes_ordered(&vec![kf(5, 1), kf(3, 2)]));
    assert!(!keyframes_ordered(&vec![]));
}

#[test]
fn opacity_is_clamped() {
    let mut t = empty_transform();
    t.opacity = Some(Track::Static(250_000));
    assert_eq!(t.resolve(0).opacity, FULL);
    t.opacity = Some(Track::Static(-50_000));
    assert_eq!(t.resolve(0).opacity, 0);
    t.opacity = Some(Track::Animated(vec![kf(0, 300_000), kf(10_000, -300_000)]));
    for f in 0..=10i64 {
        let o = t.resolve(f * 1_000).opacity;
        assert!(0 <= o && o <= FULL);
    }
    t.opacity = Some(Track::Static(40_000));
    assert_eq!(t.resolve(0).opacity, 40_000);
}

#[test]
fn missing_properties_take_neutral_values() {
    let r = empty_transform().resolve(12_000);
    assert_eq!((r.position.x, r.position.y), (0, 0));
    assert_eq!((r.anchor.x, r.anchor.y), (0, 0));
    assert_eq!((r.scale.x, r.scale.y), (FULL, FULL));
    assert_eq!(r.rotation, 0);
    assert_eq!(r.opacity, FULL);
}

#[test]
fn resolve_is_deterministic() {
    let mut t = empty_transform();
    t.position = Some(PointTrack {
        x: Track::Animated(vec![kf(0, 0), kf(7_000, 33_333)]),
        y: Track::Static(12_000),
    });
    t.rotation = Some(Track::Animated(vec![kf(0, 0), kf(3_000, 90_000)]));
    t.scale = Some(PointTrack { x: Track::Static(150_000), y: Track::Static(50_000) });
    let a = t.resolve(2_000);
    let b = t.resolve(2_000);
    assert_eq!(a, b);
    assert_eq!(a.position.x, 9_523);
    assert_eq!(a.rotation, 60_000);
    assert_eq!((a.scale.x, a.scale.y), (150_000, 50_000));
}
