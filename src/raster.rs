//! RGBA rasters, layer scaling and source-over compositing.
use crate::transform::{Point, Resolved, FULL};
use vstd::arithmetic::div_mod::{lemma_fundamental_div_mod_converse, lemma_hoist_over_denominator};
use vstd::arithmetic::mul::lemma_mul_inequality;
use vstd::prelude::*;

verus! {

/// An image of `width` x `height` pixels, four bytes each (red, green, blue,
/// alpha), stored row by row.
#[derive(Clone, Debug)]
pub struct Raster {
    pub width: u32,
    pub height: u32,
    pub pixels: Vec<u8>,
}

/// Byte index of channel `ch` of pixel `(x, y)` in a raster of width `w`.
pub open spec fn byte_index(w: int, x: int, y: int, ch: int) -> int {
    4 * (y * w + x) + ch
}

impl Raster {
    /// The buffer holds exactly four bytes per pixel.
    pub open spec fn wf(&self) -> bool {
        self.pixels@.len() == 4 * (self.width as int) * (self.height as int)
    }

    /// Channel `ch` of pixel `(x, y)`.
    pub open spec fn byte(&self, x: int, y: int, ch: int) -> u8 {
        self.pixels@[byte_index(self.width as int, x, y, ch)]
    }

    /// A fully transparent raster.
    pub fn new(width: u32, height: u32) -> (r: Raster)
        requires
            4 * (width as int) * (height as int) <= usize::MAX,
        ensures
            r.wf(),
            r.width == width,
            r.height == height,
            forall|k: int| 0 <= k < r.pixels@.len() ==> r.pixels@[k] == 0,
    {
        proof {
            assert((width as int) * (height as int) <= u32::MAX * u32::MAX) by (nonlinear_arith)
                requires width <= u32::MAX, height <= u32::MAX;
            assert(4 * (width as int) * (height as int) == 4 * ((width as int) * (height as int))) by (nonlinear_arith);
        }
        let n: usize = (4 * ((width as u128) * (height as u128))) as usize;
        let mut pixels: Vec<u8> = Vec::with_capacity(n);
        while pixels.len() < n
            invariant
                pixels@.len() <= n,
                forall|k: int| 0 <= k < pixels@.len() ==> pixels@[k] == 0,
            decreases n - pixels@.len(),
        {
            pixels.push(0);
        }
        Raster { width, height, pixels }
    }

    /// A raster over `pixels`, or `None` where the buffer does not hold
    /// exactly four bytes per pixel.
    pub fn from_raw(width: u32, height: u32, pixels: Vec<u8>) -> (r: Option<Raster>)
        ensures
            r is Some <==> pixels@.len() == 4 * (width as int) * (height as int),
            r matches Some(img) ==> img.width == width && img.height == height && img.pixels@ == pixels@,
    {
        proof {
            assert((width as int) * (height as int) <= u32::MAX * u32::MAX) by (nonlinear_arith)
                requires width <= u32::MAX, height <= u32::MAX;
            assert(4 * (width as int) * (height as int) == 4 * ((width as int) * (height as int))) by (nonlinear_arith);
        }
        let n: u128 = 4 * ((width as u128) * (height as u128));
        if pixels.len() as u128 == n {
            Some(Raster { width, height, pixels })
        } else {
            None
        }
    }

    /// The four channels of pixel `(x, y)`.
    pub fn pixel(&self, x: u32, y: u32) -> (r: [u8; 4])
        requires
            self.wf(),
            x < self.width,
            y < self.height,
        ensures
            r@ == seq![self.byte(x as int, y as int, 0), self.byte(x as int, y as int, 1),
                self.byte(x as int, y as int, 2), self.byte(x as int, y as int, 3)],
    {
        proof {
            lemma_index_in_bounds(self.width as int, self.height as int, x as int, y as int);
            assert(4 * (self.width as int) * (self.height as int) == 4 * ((self.width as int) * (self.height as int))) by (nonlinear_arith);
            assert(0 <= (y as int) * (self.width as int)) by (nonlinear_arith) requires 0 <= y, 0 <= self.width;
            assert(4 * ((y as int) * (self.width as int) + x as int) + 3 < self.pixels@.len());
        }
        let len = self.pixels.len();
        let i: usize = 4 * (y as usize * self.width as usize + x as usize);
        [self.pixels[i], self.pixels[i + 1], self.pixels[i + 2], self.pixels[i + 3]]
    }
}

proof fn lemma_index_in_bounds(w: int, h: int, x: int, y: int)
    requires
        0 <= x < w,
        0 <= y < h,
    ensures
        0 <= y * w + x < w * h,
        y * w + x + 1 <= w * h,
{
    lemma_mul_inequality(y + 1, h, w);
    assert((y + 1) * w == y * w + w) by (nonlinear_arith);
    assert(h * w == w * h) by (nonlinear_arith);
    assert(0 <= y * w) by (nonlinear_arith) requires 0 <= y, 0 <= w;
}

/// Pixels of an RGBA image of `width` x `height` resampled to
/// `new_width` x `new_height` with a Lanczos (three-lobe) filter.
pub uninterp spec fn lanczos_resized(pixels: Seq<u8>, width: nat, height: nat, new_width: nat, new_height: nat) -> Seq<u8>;

/// Relies on image::imageops::resize with FilterType::Lanczos3: the result has
/// exactly the requested dimensions and depends on the source pixels and the
/// four sizes alone. Sizes are bounded so that its buffers (the intermediate
/// one holds 16 bytes per pixel) can be allocated without overflow.
#[verifier::external_body]
fn resize_lanczos(pixels: &Vec<u8>, width: u32, height: u32, new_width: u32, new_height: u32) -> (r: Vec<u8>)
    requires
        pixels@.len() == 4 * (width as int) * (height as int),
        0 < width,
        0 < height,
        0 < new_width,
        0 < new_height,
        16 * (width as int) * (new_height as int) <= isize::MAX,
        16 * (new_width as int) * (new_height as int) <= isize::MAX,
    ensures
        r@ == lanczos_resized(pixels@, width as nat, height as nat, new_width as nat, new_height as nat),
        r@.len() == 4 * (new_width as int) * (new_height as int),
{
    let src: image::RgbaImage = image::ImageBuffer::from_raw(width, height, pixels.clone()).unwrap_or_default();
    image::imageops::resize(&src, new_width, new_height, image::imageops::FilterType::Lanczos3).into_raw()
}

/// `v` without its sign.
pub open spec fn abs(v: int) -> int {
    if v < 0 {
        -v
    } else {
        v
    }
}

/// A side of `len` pixels under the scale `s` (parts of `FULL`), rounded to
/// the nearest pixel, halves up.
pub open spec fn scaled_len(len: int, s: int) -> int {
    (len * abs(s) + FULL / 2) / FULL as int
}

/// Whether a `width` x `height` raster can be resampled to
/// `new_width` x `new_height`: no side is empty or beyond `u32`, and the
/// buffers fit.
pub open spec fn resizable(width: int, height: int, new_width: int, new_height: int) -> bool {
    &&& 0 < width && 0 < height && 0 < new_width && 0 < new_height
    &&& new_width <= u32::MAX && new_height <= u32::MAX
    &&& 16 * width * new_height <= isize::MAX
    &&& 16 * new_width * new_height <= isize::MAX
}

/// `img` under the scale `s`: unchanged where the rounded size is the same,
/// resampled where it differs and can be resampled, and otherwise empty
/// (`0 x 0`).
pub open spec fn scaled_image(img: Raster, s: Point) -> (Seq<u8>, int, int) {
    let nw = scaled_len(img.width as int, s.x as int);
    let nh = scaled_len(img.height as int, s.y as int);
    if nw == img.width && nh == img.height {
        (img.pixels@, nw, nh)
    } else if resizable(img.width as int, img.height as int, nw, nh) {
        (lanczos_resized(img.pixels@, img.width as nat, img.height as nat, nw as nat, nh as nat), nw, nh)
    } else {
        (Seq::empty(), 0, 0)
    }
}

fn scaled_side(len: u32, s: i32) -> (r: u64)
    ensures
        r == scaled_len(len as int, s as int),
{
    let m: u64 = if s < 0 {
        (0i64 - s as i64) as u64
    } else {
        s as u64
    };
    proof {
        assert((len as int) * (m as int) <= u32::MAX * (i32::MAX as int + 1)) by (nonlinear_arith)
            requires len <= u32::MAX, m <= i32::MAX as int + 1;
    }
    (len as u64 * m + (FULL / 2) as u64) / FULL as u64
}

fn fits_resize(width: u32, height: u32, new_width: u64, new_height: u64) -> (r: bool)
    ensures
        r == resizable(width as int, height as int, new_width as int, new_height as int),
{
    if width == 0 || height == 0 || new_width == 0 || new_height == 0 {
        return false;
    }
    if new_width > u32::MAX as u64 || new_height > u32::MAX as u64 {
        return false;
    }
    proof {
        assert(16 * (width as int) * (new_height as int) <= 16 * u32::MAX * u32::MAX) by (nonlinear_arith)
            requires width <= u32::MAX, new_height <= u32::MAX;
        assert(16 * (new_width as int) * (new_height as int) <= 16 * u32::MAX * u32::MAX) by (nonlinear_arith)
            requires new_width <= u32::MAX, new_height <= u32::MAX;
    }
    16 * (width as u128) * (new_height as u128) <= isize::MAX as u128
        && 16 * (new_width as u128) * (new_height as u128) <= isize::MAX as u128
}

/// The layer image `img` scaled by `s` (parts of `FULL` per axis; the sign
/// is ignored), as [`scaled_image`] states.
pub fn scale_layer(img: &Raster, s: Point) -> (r: Raster)
    requires
        img.wf(),
    ensures
        r.wf(),
        (r.pixels@, r.width as int, r.height as int) == scaled_image(*img, s),
{
    let nw = scaled_side(img.width, s.x);
    let nh = scaled_side(img.height, s.y);
    if nw == img.width as u64 && nh == img.height as u64 {
        return img.clone_raster();
    }
    if fits_resize(img.width, img.height, nw, nh) {
        let pixels = resize_lanczos(&img.pixels, img.width, img.height, nw as u32, nh as u32);
        Raster { width: nw as u32, height: nh as u32, pixels }
    } else {
        Raster { width: 0, height: 0, pixels: Vec::new() }
    }
}

impl Raster {
    /// A copy of this raster.
    pub fn clone_raster(&self) -> (r: Raster)
        ensures
            r.width == self.width,
            r.height == self.height,
            r.pixels@ == self.pixels@,
    {
        Raster { width: self.width, height: self.height, pixels: self.pixels.clone() }
    }
}

/// Alpha `a` of a source pixel under the opacity `o` (parts of `FULL`).
pub open spec fn faded(a: int, o: int) -> int {
    a * o / FULL as int
}

/// 255 * 255 times the alpha of a source pixel of alpha `a` painted over a
/// destination pixel of alpha `da` (both in 0..=255 standing for 0..=1):
/// `a + da * (1 - a)`.
pub open spec fn blend_weight(da: int, a: int) -> int {
    255 * a + da * (255 - a)
}

/// Source-over for a colour channel, source `s` of alpha `a` over destination
/// `d` of alpha `da`: `(s * a + d * da * (1 - a)) / (a + da * (1 - a))`,
/// rounded to the nearest value; where both alphas are zero the destination
/// stays.
pub open spec fn blend_channel(s: int, d: int, da: int, a: int) -> int {
    let w = blend_weight(da, a);
    if w == 0 {
        d
    } else {
        (2 * (255 * s * a + d * da * (255 - a)) + w) / (2 * w)
    }
}

/// Source-over for the alpha channel: `a + da * (1 - a)`, rounded to the
/// nearest value.
pub open spec fn blend_alpha(da: int, a: int) -> int {
    (2 * blend_weight(da, a) + 255) / 510
}

/// Byte `k` of a canvas of width `cw` and bytes `c` after `l` is painted with
/// its top-left corner at pixel `(ox, oy)` under the opacity `o`: canvas
/// pixels that `l` does not cover keep their bytes; covered ones are blended
/// with `l`'s pixel, whose alpha is first scaled by `o`.
pub open spec fn overlaid_byte(cw: int, c: Seq<u8>, l: Raster, ox: int, oy: int, o: int, k: int) -> int {
    let p = k / 4;
    let ch = k % 4;
    let x = p % cw;
    let y = p / cw;
    let sx = x - ox;
    let sy = y - oy;
    if 0 <= sx < l.width && 0 <= sy < l.height {
        let a = faded(l.byte(sx, sy, 3) as int, o);
        let da = c[4 * p + 3] as int;
        if ch == 3 {
            blend_alpha(da, a)
        } else {
            blend_channel(l.byte(sx, sy, ch) as int, c[k] as int, da, a)
        }
    } else {
        c[k] as int
    }
}

/// The canvas bytes after [`overlaid_byte`] is applied to each of them.
pub open spec fn overlaid(cw: int, c: Seq<u8>, l: Raster, ox: int, oy: int, o: int) -> Seq<u8> {
    Seq::new(c.len(), |k: int| overlaid_byte(cw, c, l, ox, oy, o, k) as u8)
}

proof fn lemma_blend_bounds(s: int, d: int, da: int, a: int)
    requires
        0 <= s <= 255,
        0 <= d <= 255,
        0 <= da <= 255,
        0 <= a <= 255,
    ensures
        0 <= blend_weight(da, a) <= 255 * 255,
        0 <= 255 * s * a + d * da * (255 - a) <= 255 * blend_weight(da, a),
        0 <= blend_channel(s, d, da, a) <= 255,
        0 <= blend_alpha(da, a) <= 255,
{
    let w = blend_weight(da, a);
    let n = 255 * s * a + d * da * (255 - a);
    assert(0 <= w <= 255 * 255) by (nonlinear_arith)
        requires w == 255 * a + da * (255 - a), 0 <= da <= 255, 0 <= a <= 255;
    assert(0 <= n <= 255 * w) by (nonlinear_arith)
        requires n == 255 * s * a + d * da * (255 - a), w == 255 * a + da * (255 - a),
            0 <= s <= 255, 0 <= d <= 255, 0 <= da <= 255, 0 <= a <= 255;
    if w > 0 {
        vstd::arithmetic::div_mod::lemma_div_is_ordered(2 * n + w, 2 * w * 255 + w, 2 * w);
        vstd::arithmetic::div_mod::lemma_div_multiples_vanish_fancy(255, w, 2 * w);
        vstd::arithmetic::div_mod::lemma_div_pos_is_pos(2 * n + w, 2 * w);
    }
    vstd::arithmetic::div_mod::lemma_div_is_ordered(2 * w + 255, 510int * 255 + 255, 510);
    vstd::arithmetic::div_mod::lemma_div_multiples_vanish_fancy(255, 255, 510);
    vstd::arithmetic::div_mod::lemma_div_pos_is_pos(2 * w + 255, 510);
}

fn blend_pixel(canvas: &mut Raster, k: usize, l: &Raster, sb: usize, a: u32)
    requires
        k + 3 < old(canvas).pixels@.len(),
        sb + 3 < l.pixels@.len(),
        a <= 255,
    ensures
        final(canvas).width == old(canvas).width,
        final(canvas).height == old(canvas).height,
        final(canvas).pixels@.len() == old(canvas).pixels@.len(),
        forall|j: int| 0 <= j < old(canvas).pixels@.len() && !(k <= j < k + 4)
            ==> final(canvas).pixels@[j] == old(canvas).pixels@[j],
        forall|c: int| 0 <= c < 3 ==> #[trigger] final(canvas).pixels@[k + c]
            == blend_channel(l.pixels@[sb + c] as int, old(canvas).pixels@[k + c] as int,
                old(canvas).pixels@[k + 3] as int, a as int),
        final(canvas).pixels@[k + 3] == blend_alpha(old(canvas).pixels@[k + 3] as int, a as int),
{
    let cn = canvas.pixels.len();
    let ln = l.pixels.len();
    let da = canvas.pixels[k + 3] as u64;
    let a64 = a as u64;
    proof {
        lemma_blend_bounds(0, 0, da as int, a as int);
    }
    let w: u64 = 255 * a64 + da * (255 - a64);
    let mut c: usize = 0;
    while c < 3
        invariant
            c <= 3,
            cn == old(canvas).pixels@.len(),
            ln == l.pixels@.len(),
            k + 3 < old(canvas).pixels@.len(),
            sb + 3 < l.pixels@.len(),
            a <= 255,
            a64 == a,
            da == old(canvas).pixels@[k + 3],
            w == blend_weight(da as int, a as int),
            canvas.width == old(canvas).width,
            canvas.height == old(canvas).height,
            canvas.pixels@.len() == old(canvas).pixels@.len(),
            forall|j: int| 0 <= j < old(canvas).pixels@.len() && !(k <= j < k + c)
                ==> canvas.pixels@[j] == old(canvas).pixels@[j],
            forall|j: int| 0 <= j < c ==> #[trigger] canvas.pixels@[k + j]
                == blend_channel(l.pixels@[sb + j] as int, old(canvas).pixels@[k + j] as int, da as int, a as int),
        decreases 3 - c,
    {
        let s = l.pixels[sb + c] as u64;
        let d = canvas.pixels[k + c] as u64;
        proof {
            lemma_blend_bounds(s as int, d as int, da as int, a as int);
            assert(255 * s * a64 <= 255 * 255 * 255) by (nonlinear_arith) requires s <= 255, a64 <= 255;
            assert(d * da <= 255 * 255) by (nonlinear_arith) requires d <= 255, da <= 255;
            assert(d * da * (255 - a64) <= 255 * 255 * 255) by (nonlinear_arith)
                requires d * da <= 255 * 255, a64 <= 255;
        }
        let n: u64 = 255 * s * a64 + d * da * (255 - a64);
        let v: u64 = if w == 0 {
            d
        } else {
            (2 * n + w) / (2 * w)
        };
        canvas.pixels[k + c] = v as u8;
        c = c + 1;
    }
    canvas.pixels[k + 3] = ((2 * w + 255) / 510) as u8;
}

pub(crate) proof fn lemma_pixel_of_byte(p: int, c: int)
    requires
        0 <= p,
        0 <= c < 4,
    ensures
        (4 * p + c) / 4 == p,
        (4 * p + c) % 4 == c,
{
    lemma_fundamental_div_mod_converse(4 * p + c, 4, p, c);
}

proof fn lemma_coords(w: int, p: int)
    requires
        0 < w,
        0 <= p,
    ensures
        p == (p / w) * w + p % w,
        0 <= p % w < w,
        0 <= p / w,
{
    vstd::arithmetic::div_mod::lemma_fundamental_div_mod(p, w);
    vstd::arithmetic::div_mod::lemma_mod_bound(p, w);
    vstd::arithmetic::div_mod::lemma_div_pos_is_pos(p, w);
    assert(w * (p / w) == (p / w) * w) by (nonlinear_arith);
}

/// Paints `layer` onto `canvas` with its top-left corner at pixel `(ox, oy)`:
/// the layer's alpha is scaled by `opacity` (parts of `FULL`), then each
/// covered canvas pixel is blended source-over; the rest of the layer is
/// clipped.
pub fn overlay(canvas: &mut Raster, layer: &Raster, ox: i64, oy: i64, opacity: i32)
    requires
        old(canvas).wf(),
        layer.wf(),
        0 <= opacity <= FULL,
    ensures
        final(canvas).wf(),
        final(canvas).width == old(canvas).width,
        final(canvas).height == old(canvas).height,
        final(canvas).pixels@ == overlaid(old(canvas).width as int, old(canvas).pixels@, *layer, ox as int, oy as int, opacity as int),
{
    let ghost c0 = *canvas;
    let n: usize = canvas.pixels.len() / 4;
    let w = canvas.width as usize;
    let lw = layer.width as i128;
    let lh = layer.height as i128;
    let llen = layer.pixels.len();
    proof {
        assert(4 * (c0.width as int) * (c0.height as int) == 4 * ((c0.width as int) * (c0.height as int))) by (nonlinear_arith);
        assert(4 * (layer.width as int) * (layer.height as int) == 4 * ((layer.width as int) * (layer.height as int))) by (nonlinear_arith);
        lemma_pixel_of_byte(c0.width * c0.height, 0);
    }
    let mut p: usize = 0;
    while p < n
        invariant
            c0 == *old(canvas),
            c0.wf(),
            c0.pixels@.len() <= usize::MAX,
            layer.wf(),
            0 <= opacity <= FULL,
            n == c0.pixels@.len() / 4,
            4 * n == c0.pixels@.len(),
            w == c0.width,
            lw == layer.width,
            lh == layer.height,
            llen == layer.pixels@.len(),
            4 * (layer.width as int) * (layer.height as int) == 4 * ((layer.width as int) * (layer.height as int)),
            p <= n,
            canvas.width == c0.width,
            canvas.height == c0.height,
            canvas.pixels@.len() == c0.pixels@.len(),
            forall|k: int| 0 <= k < 4 * p ==> canvas.pixels@[k] == overlaid_byte(c0.width as int, c0.pixels@, *layer, ox as int, oy as int, opacity as int, k),
            forall|k: int| 4 * p <= k < c0.pixels@.len() ==> canvas.pixels@[k] == c0.pixels@[k],
        decreases n - p,
    {
        proof {
            assert(w > 0) by (nonlinear_arith)
                requires 4 * n == 4 * (c0.width as int) * (c0.height as int), p < n, w == c0.width;
            lemma_coords(w as int, p as int);
        }
        let x = p % w;
        let y = p / w;
        let sx: i128 = x as i128 - ox as i128;
        let sy: i128 = y as i128 - oy as i128;
        let k: usize = 4 * p;
        let ghost before = canvas.pixels@;
        if 0 <= sx && sx < lw && 0 <= sy && sy < lh {
            proof {
                lemma_index_in_bounds(lw as int, lh as int, sx as int, sy as int);
                assert(0 <= (sy as int) * (lw as int)) by (nonlinear_arith) requires 0 <= sy, 0 <= lw;
            }
            let sb: usize = 4 * (sy as usize * layer.width as usize + sx as usize);
            let la: u64 = layer.pixels[sb + 3] as u64;
            proof {
                assert(la * (opacity as int) <= 255 * FULL) by (nonlinear_arith)
                    requires 0 <= la <= 255, 0 <= opacity <= FULL;
            }
            let a: u32 = (la * (opacity as u64) / (FULL as u64)) as u32;
            proof {
                assert(layer.pixels@[sb + 3] as int * opacity <= 255 * FULL) by (nonlinear_arith)
                    requires 0 <= layer.pixels@[sb + 3] <= 255, 0 <= opacity <= FULL;
                vstd::arithmetic::div_mod::lemma_div_is_ordered(layer.pixels@[sb + 3] as int * opacity, 255 * FULL, FULL as int);
                vstd::arithmetic::div_mod::lemma_div_by_multiple(255, FULL as int);
            }
            blend_pixel(canvas, k, layer, sb, a);
            proof {
                assert forall|j: int| 4 * p <= j < 4 * p + 4 implies canvas.pixels@[j]
                    == overlaid_byte(c0.width as int, c0.pixels@, *layer, ox as int, oy as int, opacity as int, j) by {
                    lemma_pixel_of_byte(p as int, j - 4 * p);
                    assert(before[j] == c0.pixels@[j]);
                    assert(byte_index(layer.width as int, sx as int, sy as int, j - 4 * p) == sb + (j - 4 * p));
                }
            }
        } else {
            proof {
                assert forall|j: int| 4 * p <= j < 4 * p + 4 implies canvas.pixels@[j]
                    == overlaid_byte(c0.width as int, c0.pixels@, *layer, ox as int, oy as int, opacity as int, j) by {
                    lemma_pixel_of_byte(p as int, j - 4 * p);
                }
            }
        }
        p = p + 1;
    }
    proof {
        assert(canvas.pixels@ =~= overlaid(c0.width as int, c0.pixels@, *layer, ox as int, oy as int, opacity as int));
    }
}

/// Painting at full opacity replaces each canvas pixel that the layer covers
/// with an opaque pixel: the result holds that pixel's bytes exactly.
pub proof fn lemma_opaque_replaces(cw: int, c: Seq<u8>, l: Raster, ox: int, oy: int, x: int, y: int, ch: int)
    requires
        l.wf(),
        0 <= x < cw,
        0 <= y,
        0 <= ch < 4,
        byte_index(cw, x, y, ch) < c.len(),
        0 <= x - ox < l.width,
        0 <= y - oy < l.height,
        l.byte(x - ox, y - oy, 3) == 255,
    ensures
        overlaid(cw, c, l, ox, oy, FULL as int)[byte_index(cw, x, y, ch)] == l.byte(x - ox, y - oy, ch),
{
    let p = y * cw + x;
    let k = byte_index(cw, x, y, ch);
    assert(0 <= y * cw) by (nonlinear_arith) requires 0 <= y, 0 <= cw;
    lemma_pixel_of_byte(p, ch);
    lemma_fundamental_div_mod_converse(p, cw, y, x);
    let sx = x - ox;
    let sy = y - oy;
    lemma_index_in_bounds(l.width as int, l.height as int, sx, sy);
    assert(4 * (l.width as int) * (l.height as int) == 4 * ((l.width as int) * (l.height as int))) by (nonlinear_arith);
    vstd::arithmetic::div_mod::lemma_div_by_multiple(255, FULL as int);
    assert(faded(255, FULL as int) == 255);
    let da = c[4 * p + 3] as int;
    assert(da * (255 - 255) == 0);
    assert(blend_weight(da, 255) == 255 * 255);
    vstd::arithmetic::div_mod::lemma_div_multiples_vanish_fancy(255, 255, 510);
    if ch != 3 {
        let s = l.byte(sx, sy, ch) as int;
        assert(c[k] as int * da * (255 - 255) == 0) by (nonlinear_arith);
        vstd::arithmetic::div_mod::lemma_div_multiples_vanish_fancy(s, 255int * 255, 2int * 255 * 255);
        assert(2 * (255 * s * 255) + 255 * 255 == 2 * 255 * 255 * s + 255 * 255) by (nonlinear_arith);
        assert(blend_channel(s, c[k] as int, da, 255) == s);
    }
}

/// A canvas byte after painting depends on the canvas only through the pixel
/// that holds it.
pub proof fn lemma_overlaid_local(cw: int, c1: Seq<u8>, c2: Seq<u8>, l: Raster, ox: int, oy: int, o: int, k: int)
    requires
        c1.len() == c2.len(),
        0 <= k < c1.len(),
        c1[k] == c2[k],
        c1[4 * (k / 4) + 3] == c2[4 * (k / 4) + 3],
    ensures
        overlaid(cw, c1, l, ox, oy, o)[k] == overlaid(cw, c2, l, ox, oy, o)[k],
{
}

} // verus!
