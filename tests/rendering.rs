use bodymovin::error::BodymovinError;
use bodymovin::raster::{overlay, scale_layer, Raster};
use bodymovin::render::{all_plans, compose_frame, frame_plan, scaled_layers, AssetStore, Document, Layer};
use bodymovin::track::{Keyframe, Track};
use bodymovin::transform::{Point, PointTrack, Transform, FULL};

fn solid(width: u32, height: u32, rgba: [u8; 4]) -> Raster {
    let mut px = Vec::new();
    for _ in 0..(width * height) {
        px.extend_from_slice(&rgba);
    }
    Raster::from_raw(width, height, px).unwrap()
}

fn fixed(x: i32, y: i32) -> Option<PointTrack> {
    Some(PointTrack { x: Track::Static(x), y: Track::Static(y) })
}

fn placed(x: i32, y: i32, anchor: i32) -> Transform {
    Transform {
        position: fixed(x, y),
        anchor: fixed(anchor, anchor),
        scale: fixed(100_000, 100_000),
        rotation: Some(Track::Static(0)),
        opacity: Some(Track::Static(100_000)),
    }
}

fn layer(start: i64, end: i64, id: &str, transform: Transform) -> Layer {
    Layer { start, end, asset_id: Some(id.to_string()), transform }
}

fn render(doc: &Document, store: &AssetStore, frame: u32) -> Raster {
    let plan = frame_plan(doc, store, frame);
    let images = scaled_layers(store, &plan);
    compose_frame(doc.width, doc.height, &plan, &images)
}

const RED: [u8; 4] = [255, 0, 0, 255];
const GREEN: [u8; 4] = [0, 255, 0, 255];
const CLEAR: [u8; 4] = [0, 0, 0, 0];

fn red_square_doc(opacity: Track) -> (Document, AssetStore) {
    let mut store = AssetStore::new();
    store.insert("square".to_string(), solid(50, 50, RED));
    let mut t = placed(50_000, 50_000, 25_000);
    t.opacity = Some(opacity);
    let doc = Document::new(100, 100, 11, 30_000, vec![layer(0, 10_000, "square", t)]).unwrap();
    (doc, store)
}

#[test]
fn red_square_is_placed_by_anchor() {
    let (doc, store) = red_square_doc(Track::Static(100_000));
    let img = render(&doc, &store, 5);
    assert_eq!((img.width, img.height), (100, 100));
    for y in 0..100u32 {
        for x in 0..100u32 {
            let inside = (25..75).contains(&x) && (25..75).contains(&y);
            assert_eq!(img.pixel(x, y), if inside { RED } else { CLEAR }, "pixel {} {}", x, y);
        }
    }
    assert_eq!(img.pixel(25, 25), RED);
    assert_eq!(img.pixel(74, 74), RED);
    assert_eq!(img.pixel(75, 75), CLEAR);
}

#[test]
fn animated_opacity_fades_out() {
    let fade = Track::Animated(vec![Keyframe { time: 0, value: 100_000 }, Keyframe { time: 10_000, value: 0 }]);
    let (doc, store) = red_square_doc(fade);
    let first = render(&doc, &store, 0);
    assert_eq!(first.pixel(30, 30), RED);
    assert_eq!(first.pixel(74, 25), RED);
    let last = render(&doc, &store, 10);
    for y in 0..100u32 {
        for x in 0..100u32 {
            assert_eq!(last.pixel(x, y)[3], 0);
        }
    }
    let middle = render(&doc, &store, 5);
    assert_eq!(middle.pixel(30, 30), [255, 0, 0, 127]);
}

#[test]
fn unscaled_opaque_layer_copies_pixels() {
    let mut px = Vec::new();
    for i in 0..(6 * 4u32) {
        px.extend_from_slice(&[(i * 10) as u8, (i * 3) as u8, 200, 255]);
    }
    let src = Raster::from_raw(6, 4, px).unwrap();
    let scaled = scale_layer(&src, Point { x: FULL, y: FULL });
    assert_eq!(scaled.pixels, src.pixels);
    let mut canvas = solid(5, 5, [9, 9, 9, 40]);
    overlay(&mut canvas, &scaled, 0, 0, FULL);
    for y in 0..4u32 {
        for x in 0..5u32 {
            assert_eq!(canvas.pixel(x, y), src.pixel(x, y));
        }
    }
    assert_eq!(canvas.pixel(2, 4), [9, 9, 9, 40]);
}

#[test]
fn earlier_layer_is_in_front() {
    let mut store = AssetStore::new();
    store.insert("red".to_string(), solid(10, 10, RED));
    store.insert("green".to_string(), solid(10, 10, GREEN));
    let front = layer(0, 5_000, "green", placed(0, 0, 0));
    let back = layer(0, 5_000, "red", placed(5_000, 5_000, 0));
    let doc = Document::new(20, 20, 5, 30_000, vec![front, back]).unwrap();
    let plan = frame_plan(&doc, &store, 2);
    assert_eq!(plan.iter().map(|d| d.layer).collect::<Vec<_>>(), vec![1, 0]);
    let img = render(&doc, &store, 2);
    assert_eq!(img.pixel(7, 7), GREEN);
    assert_eq!(img.pixel(12, 12), RED);
    assert_eq!(img.pixel(2, 2), GREEN);
    assert_eq!(img.pixel(17, 3), CLEAR);
}

#[test]
fn one_plan_per_frame_with_active_layers() {
    let mut store = AssetStore::new();
    store.insert("a".to_string(), solid(2, 2, RED));
    let layers = vec![
        layer(0, 3_000, "a", placed(0, 0, 0)),
        layer(2_000, 6_500, "a", placed(0, 0, 0)),
        layer(0, 9_000, "missing", placed(0, 0, 0)),
        Layer { start: 0, end: 9_000, asset_id: None, transform: placed(0, 0, 0) },
    ];
    let doc = Document::new(4, 4, 8, 24_000, layers).unwrap();
    let plans = all_plans(&doc, &store);
    assert_eq!(plans.len(), 8);
    let active: Vec<Vec<usize>> = plans.iter().map(|p| p.iter().map(|d| d.layer).collect()).collect();
    assert_eq!(active[0], vec![0]);
    assert_eq!(active[2], vec![1, 0]);
    assert_eq!(active[3], vec![1, 0]);
    assert_eq!(active[4], vec![1]);
    assert_eq!(active[6], vec![1]);
    assert_eq!(active[7], Vec::<usize>::new());
    let empty = Document::new(4, 4, 0, 24_000, vec![]).unwrap();
    assert!(all_plans(&empty, &store).is_empty());
}

#[test]
fn scaling_resamples_to_rounded_size() {
    let src = solid(50, 50, RED);
    let up = scale_layer(&src, Point { x: 200_000, y: 150_000 });
    assert_eq!((up.width, up.height), (100, 75));
    assert_eq!(up.pixels.len(), 4 * 100 * 75);
    assert_eq!(up.pixel(50, 40), RED);
    let down = scale_layer(&src, Point { x: -50_000, y: 25_000 });
    assert_eq!((down.width, down.height), (25, 13));
    let gone = scale_layer(&src, Point { x: 0, y: 100_000 });
    assert_eq!((gone.width, gone.height), (0, 0));
    assert!(gone.pixels.is_empty());
}

#[test]
fn half_transparent_source_blends() {
    let mut canvas = solid(1, 1, [0, 0, 255, 255]);
    let src = solid(1, 1, [255, 0, 0, 255]);
    overlay(&mut canvas, &src, 0, 0, FULL / 2);
    assert_eq!(canvas.pixel(0, 0), [127, 0, 128, 255]);
    let mut clipped = solid(2, 2, CLEAR);
    overlay(&mut clipped, &src, -1, 0, FULL);
    assert!(clipped.pixels.iter().all(|b| *b == 0));
    overlay(&mut clipped, &solid(2, 2, [40, 50, 60, 0]), 0, 0, FULL);
    assert!(clipped.pixels.iter().all(|b| *b == 0));
    overlay(&mut clipped, &src, 1, 1, FULL);
    assert_eq!(clipped.pixel(1, 1), [255, 0, 0, 255]);
}

#[test]
fn unordered_keyframes_are_refused() {
    let mut t = placed(0, 0, 0);
    t.rotation = Some(Track::Animated(vec![Keyframe { time: 5_000, value: 1 }, Keyframe { time: 1_000, value: 2 }]));
    let r = Document::new(10, 10, 1, 30_000, vec![layer(0, 1_000, "a", t)]);
    assert!(matches!(r, Err(BodymovinError::OtherError(_))));
    let mut e = placed(0, 0, 0);
    e.opacity = Some(Track::Animated(vec![]));
    let r = Document::new(10, 10, 1, 30_000, vec![layer(0, 1_000, "a", e)]);
    assert!(matches!(r, Err(BodymovinError::OtherError(_))));
}

#[test]
fn store_replaces_duplicate_ids() {
    let mut store = AssetStore::new();
    store.insert("x".to_string(), solid(1, 1, RED));
    store.insert("y".to_string(), solid(1, 1, CLEAR));
    store.insert("x".to_string(), solid(2, 1, GREEN));
    assert_eq!(store.ids.len(), 2);
    let i = store.find(&"x".to_string()).unwrap();
    assert_eq!(store.images[i].pixel(1, 0), GREEN);
    assert_eq!(store.find(&"z".to_string()), None);
}

#[test]
fn paint_origin_rounds_down() {
    let mut store = AssetStore::new();
    store.insert("dot".to_string(), solid(1, 1, RED));
    let doc = Document::new(3, 3, 1, 30_000, vec![layer(0, 0, "dot", placed(1_999, 500, 1_000))]).unwrap();
    let img = render(&doc, &store, 0);
    assert_eq!(img.pixel(0, 0), CLEAR);
    assert_eq!(img.pixel(0, 1), CLEAR);
    let doc = Document::new(3, 3, 1, 30_000, vec![layer(0, 0, "dot", placed(2_500, 2_500, 1_000))]).unwrap();
    let img = render(&doc, &store, 0);
    assert_eq!(img.pixel(1, 1), RED);
}

#[test]
fn error_messages_name_their_kind() {
    let e = BodymovinError::OtherError("No layers found".to_string());
    assert_eq!(e.message(), "Error: No layers found");
    let io = BodymovinError::IoError(std::io::Error::new(std::io::ErrorKind::NotFound, "gone"));
    assert_eq!(io.message(), "IO error: gone");
}
