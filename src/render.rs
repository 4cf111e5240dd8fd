//! The animation document, its asset store, and frame rendering.
use crate::error::BodymovinError;
use crate::raster::{byte_index, lemma_opaque_replaces, lemma_overlaid_local, lemma_pixel_of_byte, overlaid, overlay, scale_layer, scaled_image, Raster};
use crate::track::UNIT;
use crate::transform::{resolved_at, Point, Resolved, Transform, FULL};
use vstd::arithmetic::div_mod::lemma_hoist_over_denominator;
use vstd::prelude::*;

verus! {

/// One image layer: active on frames `start..=end` (thousandths of a frame),
/// painted from the asset named `asset_id`, if any, under `transform`.
#[derive(Clone, Debug)]
pub struct Layer {
    pub start: i64,
    pub end: i64,
    pub asset_id: Option<String>,
    pub transform: Transform,
}

/// An animation: canvas size, number of frames, frame rate (thousandths of a
/// frame per second, informational) and layers, the first in front.
#[derive(Clone, Debug)]
pub struct Document {
    pub width: u32,
    pub height: u32,
    pub total_frames: u32,
    pub frame_rate: i64,
    pub layers: Vec<Layer>,
}

/// Decoded layer images by identifier; `images[i]` belongs to `ids[i]`.
#[derive(Clone, Debug)]
pub struct AssetStore {
    pub ids: Vec<String>,
    pub images: Vec<Raster>,
}

/// One layer to paint on a frame: its index in the document, the index of its
/// image in the asset store, and its transform at that frame.
#[derive(Clone, Copy, Debug, PartialEq, Eq, Structural)]
pub struct Draw {
    pub layer: usize,
    pub asset: usize,
    pub transform: Resolved,
}

/// The first index at or after `i` whose identifier is `id`.
pub open spec fn index_from(ids: Seq<String>, id: Seq<char>, i: int) -> Option<int>
    decreases ids.len() - i,
{
    if i < 0 || i >= ids.len() {
        None
    } else if ids[i]@ == id {
        Some(i)
    } else {
        index_from(ids, id, i + 1)
    }
}

/// The index of the image named `id`, if the store holds one.
pub open spec fn asset_index(ids: Seq<String>, id: Seq<char>) -> Option<int> {
    index_from(ids, id, 0)
}

impl Layer {
    /// The layer is active on frame `f`: `start <= f <= end`.
    pub open spec fn active(&self, f: int) -> bool {
        self.start <= f * UNIT <= self.end
    }
}

impl Document {
    /// Every layer's transform has its keyframes in time order.
    pub open spec fn wf(&self) -> bool {
        forall|k: int| 0 <= k < self.layers@.len() ==> (#[trigger] self.layers@[k]).transform.wf()
    }
}

impl AssetStore {
    /// One image per identifier, identifiers pairwise distinct, each image a
    /// well-formed raster.
    pub open spec fn wf(&self) -> bool {
        &&& self.ids@.len() == self.images@.len()
        &&& forall|i: int, j: int| 0 <= i < j < self.ids@.len() ==> #[trigger] self.ids@[i]@ != #[trigger] self.ids@[j]@
        &&& forall|i: int| 0 <= i < self.images@.len() ==> (#[trigger] self.images@[i]).wf()
    }
}

/// Layer `k` contributes to frame `f`: it is active and its asset resolves.
pub open spec fn included(layers: Seq<Layer>, ids: Seq<String>, f: int, k: int) -> bool {
    &&& layers[k].active(f)
    &&& layers[k].asset_id is Some
    &&& asset_index(ids, layers[k].asset_id->Some_0@) is Some
}

/// The draw of layer `k` on frame `f` (meaningful where it is included).
pub open spec fn draw_of(layers: Seq<Layer>, ids: Seq<String>, f: int, k: int) -> Draw {
    Draw {
        layer: k as usize,
        asset: asset_index(ids, layers[k].asset_id->Some_0@)->Some_0 as usize,
        transform: resolved_at(layers[k].transform, f * UNIT),
    }
}

/// Draws of the included layers among `layers[k..]`, last layer first.
pub open spec fn plan_from(layers: Seq<Layer>, ids: Seq<String>, f: int, k: int) -> Seq<Draw>
    decreases layers.len() - k,
{
    if k < 0 || k >= layers.len() {
        Seq::empty()
    } else {
        plan_from(layers, ids, f, k + 1) + if included(layers, ids, f, k) {
            seq![draw_of(layers, ids, f, k)]
        } else {
            Seq::empty()
        }
    }
}

/// What frame `f` paints, back to front.
pub open spec fn plan_at(doc: Document, store: AssetStore, f: int) -> Seq<Draw> {
    plan_from(doc.layers@, store.ids@, f, 0)
}

/// Top-left pixel of a layer image: position minus anchor, rounded down to
/// whole pixels.
pub open spec fn paint_origin(t: Resolved) -> (int, int) {
    ((t.position.x - t.anchor.x) / UNIT as int, (t.position.y - t.anchor.y) / UNIT as int)
}

/// A fully transparent canvas of `n` bytes.
pub open spec fn blank(n: int) -> Seq<u8> {
    Seq::new(n as nat, |k: int| 0u8)
}

/// The bytes of a canvas of width `w` that starts as `base` once the first
/// `n` draws are painted in order, `images[i]` for `draws[i]`.
pub open spec fn composed(w: int, base: Seq<u8>, draws: Seq<Draw>, images: Seq<Raster>, n: int) -> Seq<u8>
    decreases n,
{
    if n <= 0 {
        base
    } else {
        let t = draws[n - 1].transform;
        overlaid(w, composed(w, base, draws, images, n - 1), images[n - 1],
            paint_origin(t).0, paint_origin(t).1, t.opacity as int)
    }
}

fn pixels_down(v: i64) -> (r: i64)
    requires
        -0x1_0000_0000 <= v <= 0x1_0000_0000,
    ensures
        r == (v as int) / (UNIT as int),
{
    let shift: i64 = 4_295_000;
    proof {
        lemma_hoist_over_denominator(v as int, shift as int, UNIT as nat);
    }
    ((v + shift * UNIT) as u64 / UNIT as u64) as i64 - shift
}

fn origin_of(t: &Resolved) -> (r: (i64, i64))
    ensures
        r.0 == paint_origin(*t).0,
        r.1 == paint_origin(*t).1,
{
    (pixels_down(t.position.x as i64 - t.anchor.x as i64), pixels_down(t.position.y as i64 - t.anchor.y as i64))
}

proof fn lemma_index_found(ids: Seq<String>, id: Seq<char>, i: int)
    requires
        0 <= i,
    ensures
        index_from(ids, id, i) matches Some(j) ==> i <= j < ids.len() && ids[j]@ == id,
    decreases ids.len() - i,
{
    if i < ids.len() && ids[i]@ != id {
        lemma_index_found(ids, id, i + 1);
    }
}

proof fn lemma_index_absent(ids: Seq<String>, id: Seq<char>, i: int, j: int)
    requires
        0 <= i <= j < ids.len(),
        index_from(ids, id, i) is None,
    ensures
        ids[j]@ != id,
    decreases j - i,
{
    if i < j {
        lemma_index_absent(ids, id, i + 1, j);
    }
}

proof fn lemma_index_other(ids: Seq<String>, id: Seq<char>, s: String, other: Seq<char>, i: int)
    requires
        0 <= i <= ids.len(),
        other != s@,
    ensures
        index_from(ids.push(s), other, i) == index_from(ids, other, i),
    decreases ids.len() - i,
{
    if i < ids.len() {
        assert(ids.push(s)[i] == ids[i]);
        lemma_index_other(ids, id, s, other, i + 1);
    } else {
        assert(ids.push(s)[i] == s);
        assert(index_from(ids.push(s), other, i + 1) is None);
    }
}

proof fn lemma_index_pushed(ids: Seq<String>, id: Seq<char>, s: String, i: int)
    requires
        0 <= i <= ids.len(),
        index_from(ids, id, i) is None,
        s@ == id,
    ensures
        index_from(ids.push(s), id, i) == Some(ids.len() as int),
    decreases ids.len() - i,
{
    if i < ids.len() {
        assert(ids.push(s)[i] == ids[i]);
        lemma_index_pushed(ids, id, s, i + 1);
    } else {
        assert(ids.push(s)[i] == s);
    }
}

impl Document {
    /// A document over `layers`. It is refused, with
    /// `BodymovinError::OtherError`, exactly where some layer has an animated
    /// property without keyframes or with keyframes out of time order.
    pub fn new(width: u32, height: u32, total_frames: u32, frame_rate: i64, layers: Vec<Layer>) -> (r: Result<
        Document,
        BodymovinError,
    >)
        ensures
            r is Ok <==> forall|k: int| 0 <= k < layers@.len() ==> (#[trigger] layers@[k]).transform.wf(),
            r matches Ok(d) ==> d.wf() && d.width == width && d.height == height && d.total_frames == total_frames
                && d.frame_rate == frame_rate && d.layers@ == layers@,
            r matches Err(e) ==> e is OtherError,
    {
        let mut k: usize = 0;
        while k < layers.len()
            invariant
                k <= layers@.len(),
                forall|j: int| 0 <= j < k ==> (#[trigger] layers@[j]).transform.wf(),
            decreases layers@.len() - k,
        {
            if !layers[k].transform.check() {
                return Err(BodymovinError::OtherError("keyframes missing or out of order".to_owned()));
            }
            k = k + 1;
        }
        Ok(Document { width, height, total_frames, frame_rate, layers })
    }
}

impl AssetStore {
    /// An empty store.
    pub fn new() -> (r: AssetStore)
        ensures
            r.wf(),
            r.ids@.len() == 0,
    {
        AssetStore { ids: Vec::new(), images: Vec::new() }
    }

    /// The index of the image named `id`, if any.
    pub fn find(&self, id: &String) -> (r: Option<usize>)
        ensures
            r matches Some(i) ==> asset_index(self.ids@, id@) == Some(i as int),
            r is None ==> asset_index(self.ids@, id@) is None,
    {
        let mut i: usize = 0;
        while i < self.ids.len()
            invariant
                i <= self.ids@.len(),
                asset_index(self.ids@, id@) == index_from(self.ids@, id@, i as int),
            decreases self.ids@.len() - i,
        {
            if self.ids[i].eq(id) {
                return Some(i);
            }
            i = i + 1;
        }
        None
    }

    /// Stores `image` under `id`, replacing the image already named `id`.
    pub fn insert(&mut self, id: String, image: Raster)
        requires
            old(self).wf(),
            image.wf(),
        ensures
            final(self).wf(),
            asset_index(final(self).ids@, id@) matches Some(i) && final(self).images@[i] == image,
            asset_index(old(self).ids@, id@) matches Some(i) ==> final(self).ids@ == old(self).ids@
                && final(self).images@ == old(self).images@.update(i, image),
            asset_index(old(self).ids@, id@) is None ==> final(self).ids@ == old(self).ids@.push(id)
                && final(self).images@ == old(self).images@.push(image),
            forall|other: Seq<char>| other != id@ ==> #[trigger] asset_index(final(self).ids@, other)
                == asset_index(old(self).ids@, other),
    {
        match self.find(&id) {
            Some(i) => {
                proof {
                    lemma_index_found(self.ids@, id@, 0);
                }
                self.images.set(i, image);
            },
            None => {
                proof {
                    lemma_index_pushed(self.ids@, id@, id, 0);
                    assert forall|other: Seq<char>| other != id@ implies #[trigger] asset_index(self.ids@.push(id), other)
                        == asset_index(self.ids@, other) by {
                        lemma_index_other(self.ids@, id@, id, other, 0);
                    }
                    assert forall|j: int| 0 <= j < self.ids@.len() implies self.ids@[j]@ != id@ by {
                        lemma_index_absent(self.ids@, id@, 0, j);
                    }
                }
                self.ids.push(id);
                self.images.push(image);
            },
        }
    }
}

/// Draws are well-formed: opacity within `0..=FULL`.
pub open spec fn draws_wf(draws: Seq<Draw>) -> bool {
    forall|i: int| 0 <= i < draws.len() ==> 0 <= (#[trigger] draws[i]).transform.opacity <= FULL
}

/// What frame `frame` paints, back to front: the layers active on it whose
/// asset the store holds, from the last stored to the first, each with its
/// transform resolved at that frame.
pub fn frame_plan(doc: &Document, store: &AssetStore, frame: u32) -> (r: Vec<Draw>)
    requires
        doc.wf(),
        store.wf(),
    ensures
        r@ == plan_at(*doc, *store, frame as int),
        draws_wf(r@),
        forall|i: int| 0 <= i < r@.len() ==> (#[trigger] r@[i]).asset < store.images@.len(),
{
    let at: i64 = frame as i64 * UNIT;
    let mut out: Vec<Draw> = Vec::new();
    let mut k: usize = doc.layers.len();
    while k > 0
        invariant
            doc.wf(),
            store.wf(),
            at == frame * UNIT,
            k <= doc.layers@.len(),
            out@ == plan_from(doc.layers@, store.ids@, frame as int, k as int),
            draws_wf(out@),
            forall|i: int| 0 <= i < out@.len() ==> (#[trigger] out@[i]).asset < store.images@.len(),
        decreases k,
    {
        k = k - 1;
        let layer = &doc.layers[k];
        if layer.start <= at && at <= layer.end {
            match &layer.asset_id {
                Some(id) => {
                    match store.find(id) {
                        Some(a) => {
                            proof {
                                lemma_index_found(store.ids@, id@, 0);
                            }
                            let transform = layer.transform.resolve(at);
                            out.push(Draw { layer: k, asset: a, transform });
                        },
                        None => {},
                    }
                },
                None => {},
            }
        }
        proof {
            assert(doc.layers@[k as int].transform.wf());
        }
    }
    out
}

/// The image of each draw in `plan`: its asset scaled by its transform (see
/// [`scale_layer`]).
pub fn scaled_layers(store: &AssetStore, plan: &Vec<Draw>) -> (r: Vec<Raster>)
    requires
        store.wf(),
        forall|i: int| 0 <= i < plan@.len() ==> (#[trigger] plan@[i]).asset < store.images@.len(),
    ensures
        r@.len() == plan@.len(),
        forall|i: int| 0 <= i < r@.len() ==> (#[trigger] r@[i]).wf() && (r@[i].pixels@, r@[i].width as int,
            r@[i].height as int) == scaled_image(store.images@[plan@[i].asset as int], plan@[i].transform.scale),
{
    let mut out: Vec<Raster> = Vec::new();
    let mut i: usize = 0;
    while i < plan.len()
        invariant
            store.wf(),
            forall|j: int| 0 <= j < plan@.len() ==> (#[trigger] plan@[j]).asset < store.images@.len(),
            i <= plan@.len(),
            out@.len() == i,
            forall|j: int| 0 <= j < out@.len() ==> (#[trigger] out@[j]).wf() && (out@[j].pixels@, out@[j].width as int,
                out@[j].height as int) == scaled_image(store.images@[plan@[j].asset as int], plan@[j].transform.scale),
        decreases plan@.len() - i,
    {
        let d = &plan[i];
        proof {
            assert(store.images@[d.asset as int].wf());
        }
        out.push(scale_layer(&store.images[d.asset], d.transform.scale));
        i = i + 1;
    }
    out
}

/// The plans of every frame, `0..total_frames`, in frame order.
pub fn all_plans(doc: &Document, store: &AssetStore) -> (r: Vec<Vec<Draw>>)
    requires
        doc.wf(),
        store.wf(),
    ensures
        r@.len() == doc.total_frames,
        forall|i: int| 0 <= i < r@.len() ==> (#[trigger] r@[i])@ == plan_at(*doc, *store, i),
        forall|i: int| 0 <= i < r@.len() ==> draws_wf((#[trigger] r@[i])@),
        forall|i: int, j: int| 0 <= i < r@.len() && 0 <= j < r@[i]@.len() ==> (#[trigger] r@[i]@[j]).asset
            < store.images@.len(),
{
    let mut out: Vec<Vec<Draw>> = Vec::new();
    let mut f: u32 = 0;
    while f < doc.total_frames
        invariant
            doc.wf(),
            store.wf(),
            f <= doc.total_frames,
            out@.len() == f,
            forall|i: int| 0 <= i < out@.len() ==> (#[trigger] out@[i])@ == plan_at(*doc, *store, i),
            forall|i: int| 0 <= i < out@.len() ==> draws_wf((#[trigger] out@[i])@),
            forall|i: int, j: int| 0 <= i < out@.len() && 0 <= j < out@[i]@.len() ==> (#[trigger] out@[i]@[j]).asset
                < store.images@.len(),
        decreases doc.total_frames - f,
    {
        out.push(frame_plan(doc, store, f));
        f = f + 1;
    }
    out
}

/// Paints `images[i]` for `draws[i]`, in order, on a transparent canvas of
/// `width` x `height`: each at its paint origin, under its opacity.
pub fn compose_frame(width: u32, height: u32, draws: &Vec<Draw>, images: &Vec<Raster>) -> (r: Raster)
    requires
        4 * (width as int) * (height as int) <= usize::MAX,
        draws@.len() == images@.len(),
        draws_wf(draws@),
        forall|i: int| 0 <= i < images@.len() ==> (#[trigger] images@[i]).wf(),
    ensures
        r.wf(),
        r.width == width,
        r.height == height,
        r.pixels@ == composed(width as int, blank(4 * (width as int) * (height as int)), draws@, images@,
            draws@.len() as int),
{
    let mut canvas = Raster::new(width, height);
    let ghost base = canvas.pixels@;
    proof {
        assert(base =~= blank(4 * (width as int) * (height as int)));
    }
    let mut i: usize = 0;
    while i < draws.len()
        invariant
            i <= draws@.len(),
            draws@.len() == images@.len(),
            draws_wf(draws@),
            forall|j: int| 0 <= j < images@.len() ==> (#[trigger] images@[j]).wf(),
            canvas.wf(),
            canvas.width == width,
            canvas.height == height,
            base == blank(4 * (width as int) * (height as int)),
            canvas.pixels@ == composed(width as int, base, draws@, images@, i as int),
        decreases draws@.len() - i,
    {
        let t = &draws[i].transform;
        let origin = origin_of(t);
        proof {
            assert(0 <= draws@[i as int].transform.opacity <= FULL);
            assert(images@[i as int].wf());
        }
        overlay(&mut canvas, &images[i], origin.0, origin.1, t.opacity);
        i = i + 1;
    }
    canvas
}

proof fn lemma_plan_shape(layers: Seq<Layer>, ids: Seq<String>, f: int, k: int)
    requires
        0 <= k <= layers.len(),
        layers.len() <= usize::MAX,
    ensures
        ({
            let plan = plan_from(layers, ids, f, k);
            &&& forall|j: int| 0 <= j < plan.len() ==> k <= #[trigger] plan[j].layer < layers.len()
                && included(layers, ids, f, plan[j].layer as int)
                && plan[j] == draw_of(layers, ids, f, plan[j].layer as int)
            &&& forall|i: int, j: int| 0 <= i < j < plan.len() ==> #[trigger] plan[i].layer > #[trigger] plan[j].layer
            &&& forall|m: int| k <= m < layers.len() && #[trigger] included(layers, ids, f, m)
                ==> exists|j: int| 0 <= j < plan.len() && plan[j].layer == m
        }),
    decreases layers.len() - k,
{
    if k < layers.len() {
        lemma_plan_shape(layers, ids, f, k + 1);
        let rest = plan_from(layers, ids, f, k + 1);
        let plan = plan_from(layers, ids, f, k);
        if included(layers, ids, f, k) {
            assert(plan == rest.push(draw_of(layers, ids, f, k)));
            assert(plan[rest.len() as int].layer == k);
            assert forall|m: int| k <= m < layers.len() && #[trigger] included(layers, ids, f, m)
                implies exists|j: int| 0 <= j < plan.len() && plan[j].layer == m by {
                if m == k {
                    assert(plan[rest.len() as int].layer == m);
                } else {
                    let j = choose|j: int| 0 <= j < rest.len() && rest[j].layer == m;
                    assert(plan[j] == rest[j]);
                }
            }
        } else {
            assert(plan =~= rest);
        }
    }
}

/// Frame `f` paints exactly the layers that are active on it and whose asset
/// the store holds, each once.
pub proof fn lemma_frame_layers(doc: Document, store: AssetStore, f: int, m: int)
    requires
        doc.layers@.len() <= usize::MAX,
    ensures
        (exists|j: int| 0 <= j < plan_at(doc, store, f).len() && #[trigger] plan_at(doc, store, f)[j].layer == m)
            <==> (0 <= m < doc.layers@.len() && doc.layers@[m].active(f) && doc.layers@[m].asset_id is Some
                && asset_index(store.ids@, doc.layers@[m].asset_id->Some_0@) is Some),
{
    let plan = plan_at(doc, store, f);
    lemma_plan_shape(doc.layers@, store.ids@, f, 0);
    if exists|j: int| 0 <= j < plan.len() && #[trigger] plan[j].layer == m {
        let j = choose|j: int| 0 <= j < plan.len() && #[trigger] plan[j].layer == m;
        assert(included(doc.layers@, store.ids@, f, plan[j].layer as int));
    }
    if 0 <= m < doc.layers@.len() && included(doc.layers@, store.ids@, f, m) {
        assert(exists|j: int| 0 <= j < plan.len() && plan[j].layer == m);
    }
}

/// Layers are painted back to front: a layer stored earlier in the document
/// is painted after every layer stored later.
pub proof fn lemma_back_to_front(doc: Document, store: AssetStore, f: int, i: int, j: int)
    requires
        doc.layers@.len() <= usize::MAX,
        0 <= i < j < plan_at(doc, store, f).len(),
    ensures
        plan_at(doc, store, f)[i].layer > plan_at(doc, store, f)[j].layer,
{
    lemma_plan_shape(doc.layers@, store.ids@, f, 0);
}

proof fn lemma_composed_len(w: int, base: Seq<u8>, draws: Seq<Draw>, images: Seq<Raster>, n: int)
    ensures
        composed(w, base, draws, images, n).len() == base.len(),
    decreases n,
{
    if n > 0 {
        lemma_composed_len(w, base, draws, images, n - 1);
    }
}

/// Where the layer painted last covers a pixel with an opaque pixel of its
/// image and has full opacity, that pixel is the image's, whatever lies
/// beneath: the front layer occludes the ones behind it.
pub proof fn lemma_front_occludes(w: int, base: Seq<u8>, draws: Seq<Draw>, images: Seq<Raster>, n: int, x: int, y: int, ch: int)
    requires
        0 < n <= draws.len(),
        n <= images.len(),
        images[n - 1].wf(),
        draws[n - 1].transform.opacity == FULL,
        0 <= x < w,
        0 <= y,
        0 <= ch < 4,
        byte_index(w, x, y, ch) < base.len(),
        0 <= x - paint_origin(draws[n - 1].transform).0 < images[n - 1].width,
        0 <= y - paint_origin(draws[n - 1].transform).1 < images[n - 1].height,
        images[n - 1].byte(x - paint_origin(draws[n - 1].transform).0, y - paint_origin(draws[n - 1].transform).1, 3) == 255,
    ensures
        composed(w, base, draws, images, n)[byte_index(w, x, y, ch)]
            == images[n - 1].byte(x - paint_origin(draws[n - 1].transform).0, y - paint_origin(draws[n - 1].transform).1, ch),
{
    let o = paint_origin(draws[n - 1].transform);
    lemma_composed_len(w, base, draws, images, n - 1);
    lemma_opaque_replaces(w, composed(w, base, draws, images, n - 1), images[n - 1], o.0, o.1, x, y, ch);
}

/// An opaque layer image, unscaled, at full opacity and painted with its
/// origin on the canvas origin, is copied exactly onto the overlap region.
pub proof fn lemma_unscaled_copy(cw: int, c: Seq<u8>, img: Raster, t: Resolved, x: int, y: int, ch: int)
    requires
        img.wf(),
        t.scale == (Point { x: FULL, y: FULL }),
        t.opacity == FULL,
        paint_origin(t) == (0int, 0int),
        forall|i: int, j: int| 0 <= i < img.width && 0 <= j < img.height ==> #[trigger] img.byte(i, j, 3) == 255,
        0 <= x < cw,
        0 <= y,
        x < img.width,
        y < img.height,
        0 <= ch < 4,
        byte_index(cw, x, y, ch) < c.len(),
    ensures
        scaled_image(img, t.scale) == (img.pixels@, img.width as int, img.height as int),
        overlaid(cw, c, img, 0, 0, t.opacity as int)[byte_index(cw, x, y, ch)] == img.byte(x, y, ch),
{
    vstd::arithmetic::div_mod::lemma_div_multiples_vanish_fancy(img.width as int, FULL / 2, FULL as int);
    vstd::arithmetic::div_mod::lemma_div_multiples_vanish_fancy(img.height as int, FULL / 2, FULL as int);
    assert(img.width * FULL == FULL * img.width) by (nonlinear_arith);
    assert(img.height * FULL == FULL * img.height) by (nonlinear_arith);
    assert(img.byte(x, y, 3) == 255);
    lemma_opaque_replaces(cw, c, img, 0, 0, x, y, ch);
}

/// What a draw paints, without the index of its layer: the image and the
/// transform.
pub open spec fn painted(plan: Seq<Draw>) -> Seq<(usize, Resolved)> {
    plan.map_values(|d: Draw| (d.asset, d.transform))
}

/// The layers among `layers[k..]` that are active on frame `f`, order kept.
pub open spec fn active_from(layers: Seq<Layer>, f: int, k: int) -> Seq<Layer>
    decreases layers.len() - k,
{
    if k < 0 || k >= layers.len() {
        Seq::empty()
    } else if layers[k].active(f) {
        seq![layers[k]] + active_from(layers, f, k + 1)
    } else {
        active_from(layers, f, k + 1)
    }
}

proof fn lemma_plan_shift(l1: Seq<Layer>, k1: int, l2: Seq<Layer>, k2: int, ids: Seq<String>, f: int)
    requires
        0 <= k1 <= l1.len(),
        0 <= k2 <= l2.len(),
        l1.len() - k1 == l2.len() - k2,
        forall|i: int| 0 <= i < l1.len() - k1 ==> #[trigger] l1[k1 + i] == l2[k2 + i],
    ensures
        painted(plan_from(l1, ids, f, k1)) == painted(plan_from(l2, ids, f, k2)),
    decreases l1.len() - k1,
{
    if k1 < l1.len() {
        assert(l1[k1 + 0] == l2[k2 + 0]);
        assert forall|i: int| 0 <= i < l1.len() - (k1 + 1) implies #[trigger] l1[(k1 + 1) + i] == l2[(k2 + 1) + i] by {
            assert(l1[k1 + (i + 1)] == l2[k2 + (i + 1)]);
        }
        lemma_plan_shift(l1, k1 + 1, l2, k2 + 1, ids, f);
        let r1 = plan_from(l1, ids, f, k1 + 1);
        let r2 = plan_from(l2, ids, f, k2 + 1);
        if included(l1, ids, f, k1) {
            let d1 = draw_of(l1, ids, f, k1);
            let d2 = draw_of(l2, ids, f, k2);
            assert(painted(r1.push(d1)) =~= painted(r1).push((d1.asset, d1.transform)));
            assert(painted(r2.push(d2)) =~= painted(r2).push((d2.asset, d2.transform)));
            assert(plan_from(l1, ids, f, k1) == r1.push(d1));
            assert(plan_from(l2, ids, f, k2) == r2.push(d2));
        } else {
            assert(plan_from(l1, ids, f, k1) =~= r1);
            assert(plan_from(l2, ids, f, k2) =~= r2);
        }
    }
}

proof fn lemma_active_plan(layers: Seq<Layer>, ids: Seq<String>, f: int, k: int)
    requires
        0 <= k <= layers.len(),
    ensures
        painted(plan_from(layers, ids, f, k)) == painted(plan_from(active_from(layers, f, k), ids, f, 0)),
    decreases layers.len() - k,
{
    if k < layers.len() {
        lemma_active_plan(layers, ids, f, k + 1);
        let rest = active_from(layers, f, k + 1);
        let r = plan_from(layers, ids, f, k + 1);
        if layers[k].active(f) {
            let act = seq![layers[k]] + rest;
            assert(act == active_from(layers, f, k));
            assert forall|i: int| 0 <= i < act.len() - 1 implies #[trigger] act[1 + i] == rest[0 + i] by {}
            lemma_plan_shift(act, 1, rest, 0, ids, f);
            let ra = plan_from(act, ids, f, 1);
            assert(act[0] == layers[k]);
            if included(layers, ids, f, k) {
                let d = draw_of(layers, ids, f, k);
                let da = draw_of(act, ids, f, 0);
                assert(plan_from(layers, ids, f, k) == r.push(d));
                assert(plan_from(act, ids, f, 0) == ra.push(da));
                assert(painted(r.push(d)) =~= painted(r).push((d.asset, d.transform)));
                assert(painted(ra.push(da)) =~= painted(ra).push((da.asset, da.transform)));
            } else {
                assert(plan_from(layers, ids, f, k) =~= r);
                assert(plan_from(act, ids, f, 0) =~= ra);
            }
        } else {
            assert(plan_from(layers, ids, f, k) =~= r);
        }
    }
}

/// Composition reads of each draw only what it paints: draws that paint the
/// same images under the same transforms give the same frame.
pub proof fn lemma_composed_painted(w: int, base: Seq<u8>, d1: Seq<Draw>, d2: Seq<Draw>, images: Seq<Raster>, n: int)
    requires
        0 <= n <= d1.len(),
        painted(d1) == painted(d2),
    ensures
        composed(w, base, d1, images, n) == composed(w, base, d2, images, n),
    decreases n,
{
    if n > 0 {
        assert(painted(d1).len() == d1.len() && painted(d2).len() == d2.len());
        assert(painted(d1)[n - 1] == (d1[n - 1].asset, d1[n - 1].transform));
        assert(painted(d2)[n - 1] == (d2[n - 1].asset, d2[n - 1].transform));
        assert(d1[n - 1].transform == d2[n - 1].transform);
        lemma_composed_painted(w, base, d1, d2, images, n - 1);
    }
}

/// Only the layers active on a frame take part in it: the frame paints the
/// same images under the same transforms, in the same order, as it would if
/// the document held only its layers active on that frame; so (see
/// [`lemma_composed_painted`]) it composes to the same canvas.
pub proof fn lemma_only_active_layers(doc: Document, store: AssetStore, f: int)
    ensures
        painted(plan_at(doc, store, f)) == painted(plan_from(active_from(doc.layers@, f, 0), store.ids@, f, 0)),
{
    lemma_active_plan(doc.layers@, store.ids@, f, 0);
}

/// Whether draw `m` covers pixel `(x, y)` with an opaque pixel of its image at
/// full opacity.
pub open spec fn covers_opaquely(draws: Seq<Draw>, images: Seq<Raster>, m: int, x: int, y: int) -> bool {
    let o = paint_origin(draws[m].transform);
    &&& images[m].wf()
    &&& draws[m].transform.opacity == FULL
    &&& 0 <= x - o.0 < images[m].width
    &&& 0 <= y - o.1 < images[m].height
    &&& images[m].byte(x - o.0, y - o.1, 3) == 255
}

/// Z-order: where a draw covers a pixel opaquely at full opacity, no draw
/// painted before it shows through there. Removing any earlier draw `b`
/// leaves that pixel of the frame as it was, whatever is painted after.
/// Frames paint back to front ([`lemma_back_to_front`]), so a layer stored
/// earlier in the document hides, where it is opaque, every layer stored
/// after it.
pub proof fn lemma_hidden_behind(w: int, base: Seq<u8>, draws: Seq<Draw>, images: Seq<Raster>, b: int, m: int, n: int, x: int, y: int)
    requires
        0 <= b < m < n <= draws.len(),
        n <= images.len(),
        covers_opaquely(draws, images, m, x, y),
        0 <= x < w,
        0 <= y,
        byte_index(w, x, y, 3) < base.len(),
    ensures
        forall|ch: int| 0 <= ch < 4 ==> composed(w, base, draws, images, n)[#[trigger] byte_index(w, x, y, ch)]
            == composed(w, base, draws.remove(b), images.remove(b), n - 1)[byte_index(w, x, y, ch)],
    decreases n,
{
    let d2 = draws.remove(b);
    let i2 = images.remove(b);
    assert(d2[n - 2] == draws[n - 1]);
    assert(i2[n - 2] == images[n - 1]);
    assert(0 <= y * w) by (nonlinear_arith) requires 0 <= y, 0 <= w;
    lemma_composed_len(w, base, draws, images, n - 1);
    lemma_composed_len(w, base, d2, i2, n - 2);
    if n == m + 1 {
        assert forall|ch: int| 0 <= ch < 4 implies composed(w, base, draws, images, n)[#[trigger] byte_index(w, x, y, ch)]
            == composed(w, base, d2, i2, n - 1)[byte_index(w, x, y, ch)] by {
            lemma_front_occludes(w, base, draws, images, n, x, y, ch);
            lemma_front_occludes(w, base, d2, i2, n - 1, x, y, ch);
        }
    } else {
        lemma_hidden_behind(w, base, draws, images, b, m, n - 1, x, y);
        let t = draws[n - 1].transform;
        assert forall|ch: int| 0 <= ch < 4 implies composed(w, base, draws, images, n)[#[trigger] byte_index(w, x, y, ch)]
            == composed(w, base, d2, i2, n - 1)[byte_index(w, x, y, ch)] by {
            let k = byte_index(w, x, y, ch);
            lemma_pixel_of_byte(y * w + x, ch);
            assert(4 * (k / 4) + 3 == byte_index(w, x, y, 3));
            lemma_overlaid_local(w, composed(w, base, draws, images, n - 1), composed(w, base, d2, i2, n - 2),
                images[n - 1], paint_origin(t).0, paint_origin(t).1, t.opacity as int, k);
        }
    }
}

} // verus!
