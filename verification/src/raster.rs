//! RGBA images: the frames every asset resolves to.
//!
//! Row-major, four bytes a pixel, no padding. The pixel work that has a short
//! definition -- reading, writing, cropping, mirroring -- is done here; the
//! operations whose definition is the `image` crate's own (alpha blending,
//! resampling) are handed to it.

use image::imageops;
use image::RgbaImage;
use vstd::prelude::*;

verus! {

/// An RGBA image.
#[derive(Debug, Clone, PartialEq, Eq)]
pub struct Image {
    width: u32,
    height: u32,
    pixels: Vec<u8>,
}

/// An image as values.
pub struct ImageModel {
    pub width: nat,
    pub height: nat,
    pub pixels: Seq<u8>,
}

impl View for Image {
    type V = ImageModel;

    closed spec fn view(&self) -> ImageModel {
        ImageModel { width: self.width as nat, height: self.height as nat, pixels: self.pixels@ }
    }
}

/// Where pixel `(x, y)` starts in the byte buffer.
pub open spec fn offset_of(width: nat, x: int, y: int) -> int {
    (y * width + x) * 4
}

impl ImageModel {
    /// Four bytes a pixel, nothing more or less.
    pub open spec fn wf(self) -> bool {
        &&& self.pixels.len() == self.width * self.height * 4
        &&& self.pixels.len() <= usize::MAX
    }

    /// Channel `c` of pixel `(x, y)`.
    pub open spec fn byte(self, x: int, y: int, c: int) -> u8 {
        self.pixels[offset_of(self.width, x, y) + c]
    }

    /// Pixel `(x, y)` as its four channels.
    pub open spec fn pixel(self, x: int, y: int) -> Seq<u8> {
        seq![self.byte(x, y, 0), self.byte(x, y, 1), self.byte(x, y, 2), self.byte(x, y, 3)]
    }

    pub open spec fn in_bounds(self, x: int, y: int) -> bool {
        0 <= x < self.width && 0 <= y < self.height
    }

    /// Whether the point `(px, py)` lies in the `w` x `h` rectangle at `(x, y)`.
    pub open spec fn in_rect(px: int, py: int, x: int, y: int, w: nat, h: nat) -> bool {
        x <= px < x + w && y <= py < y + h
    }

    /// `self` is the `w` x `h` region of `source` whose corner is `(x, y)`.
    pub open spec fn is_crop_of(self, source: ImageModel, x: int, y: int, w: nat, h: nat) -> bool {
        &&& self.wf()
        &&& self.width == w
        &&& self.height == h
        &&& forall|px: int, py: int, c: int|
            0 <= px < w && 0 <= py < h && 0 <= c < 4 ==> #[trigger] self.byte(px, py, c)
                == source.byte(x + px, y + py, c)
    }
}

/// The `wf` image of the given size with every byte zero.
pub open spec fn blank(width: nat, height: nat) -> ImageModel {
    ImageModel { width, height, pixels: Seq::new(width * height * 4, |i: int| 0u8) }
}

/// What `image::imageops::overlay` leaves in `bottom` after compositing `top`
/// over it with `top`'s corner at `(x, y)`: `Rgba::blend` of each covered
/// pixel, which the crate computes in floating point.
pub uninterp spec fn overlaid(bottom: ImageModel, top: ImageModel, x: int, y: int) -> ImageModel;

/// `image::imageops::overlay` on two RGBA images.
///
/// The contract names the result (`overlaid`) and states what the crate's
/// source shows plainly: the size is unchanged, pixels outside the covered
/// rectangle are unchanged, a covered pixel under a fully transparent `top`
/// pixel is unchanged and one under a fully opaque `top` pixel becomes it.
/// What a partly transparent pixel blends to is left to the name.
#[verifier::external_body]
pub(crate) fn overlay(bottom: &mut Image, top: &Image, x: i64, y: i64)
    requires
        old(bottom).wf(),
        top.wf(),
    ensures
        final(bottom)@ == overlaid(old(bottom)@, top@, x as int, y as int),
        final(bottom).wf(),
        final(bottom)@.width == old(bottom)@.width,
        final(bottom)@.height == old(bottom)@.height,
        forall|px: int, py: int, c: int|
            #![trigger final(bottom)@.byte(px, py, c)]
            old(bottom)@.in_bounds(px, py) && 0 <= c < 4 && !ImageModel::in_rect(
                px,
                py,
                x as int,
                y as int,
                top@.width,
                top@.height,
            ) ==> final(bottom)@.byte(px, py, c) == old(bottom)@.byte(px, py, c),
        forall|px: int, py: int, c: int|
            #![trigger final(bottom)@.byte(px, py, c)]
            old(bottom)@.in_bounds(px, py) && 0 <= c < 4 && ImageModel::in_rect(
                px,
                py,
                x as int,
                y as int,
                top@.width,
                top@.height,
            ) && top@.byte(px - x, py - y, 3) == 0 ==> final(bottom)@.byte(px, py, c) == old(
                bottom,
            )@.byte(px, py, c),
        forall|px: int, py: int, c: int|
            #![trigger final(bottom)@.byte(px, py, c)]
            old(bottom)@.in_bounds(px, py) && 0 <= c < 4 && ImageModel::in_rect(
                px,
                py,
                x as int,
                y as int,
                top@.width,
                top@.height,
            ) && top@.byte(px - x, py - y, 3) == 255 ==> final(bottom)@.byte(px, py, c)
                == top@.byte(px - x, py - y, c),
{
    let width = bottom.width;
    let height = bottom.height;
    let pixels = std::mem::take(&mut bottom.pixels);
    let mut canvas = RgbaImage::from_raw(width, height, pixels).unwrap();
    let layer = RgbaImage::from_raw(top.width, top.height, top.pixels.clone()).unwrap();
    imageops::overlay(&mut canvas, &layer, x, y);
    bottom.pixels = canvas.into_raw();
}

/// Every byte of pixel `(x, y)` lies inside an image of that size.
pub proof fn lemma_offset_in_bounds(width: nat, height: nat, x: int, y: int)
    requires
        0 <= x < width,
        0 <= y < height,
    ensures
        0 <= offset_of(width, x, y),
        offset_of(width, x, y) + 4 <= width * height * 4,
{
    assert(y * width + x < height * width) by (nonlinear_arith)
        requires
            0 <= x < width,
            0 <= y < height,
    ;
    assert(0 <= y * width) by (nonlinear_arith)
        requires
            0 <= y,
    ;
    assert(width * height == height * width) by (nonlinear_arith);
}

/// Two different pixels never share a byte.
pub proof fn lemma_offsets_distinct(width: nat, x1: int, y1: int, x2: int, y2: int)
    requires
        0 <= x1 < width,
        0 <= x2 < width,
        0 <= y1,
        0 <= y2,
        x1 != x2 || y1 != y2,
    ensures
        offset_of(width, x1, y1) + 4 <= offset_of(width, x2, y2) || offset_of(width, x2, y2) + 4
            <= offset_of(width, x1, y1),
{
    if y1 == y2 {
    } else if y1 < y2 {
        assert(y1 * width + x1 < y2 * width + x2) by (nonlinear_arith)
            requires
                0 <= x1 < width,
                0 <= x2,
                y1 < y2,
        ;
    } else {
        assert(y2 * width + x2 < y1 * width + x1) by (nonlinear_arith)
            requires
                0 <= x2 < width,
                0 <= x1,
                y2 < y1,
        ;
    }
}

/// An image's sides fit in `u32`.
pub proof fn lemma_image_sides(image: &Image)
    ensures
        image@.width <= u32::MAX,
        image@.height <= u32::MAX,
{
}

impl Image {
    pub open spec fn wf(&self) -> bool {
        self@.wf()
    }

    /// A fully transparent `width` x `height` image.
    pub fn new(width: u32, height: u32) -> (image: Image)
        requires
            width * height * 4 <= usize::MAX,
        ensures
            image.wf(),
            image@.width == width,
            image@.height == height,
            forall|i: int| 0 <= i < image@.pixels.len() ==> image@.pixels[i] == 0,
    {
        let len = (width as usize) * (height as usize) * 4;
        let pixels = zeroed(len);
        Image { width, height, pixels }
    }

    /// Wraps a buffer that holds exactly one `width` x `height` image.
    pub fn from_raw(width: u32, height: u32, pixels: Vec<u8>) -> (image: Option<Image>)
        ensures
            match image {
                Some(image) => {
                    &&& image.wf()
                    &&& image@.width == width
                    &&& image@.height == height
                    &&& image@.pixels == pixels@
                },
                None => pixels@.len() != width * height * 4,
            },
    {
        proof {
            assert((width as u64) * (height as u64) <= u32::MAX * u32::MAX) by (nonlinear_arith)
                requires
                    width <= u32::MAX,
                    height <= u32::MAX,
            ;
        }
        let pixel_count = (width as u64) * (height as u64);
        let len = pixels.len();
        if pixel_count > (usize::MAX as u64) / 4 {
            return None;
        }
        if len as u64 != pixel_count * 4 {
            return None;
        }
        Some(Image { width, height, pixels })
    }

    pub fn width(&self) -> (width: u32)
        ensures
            width == self@.width,
    {
        self.width
    }

    pub fn height(&self) -> (height: u32)
        ensures
            height == self@.height,
    {
        self.height
    }

    pub fn as_raw(&self) -> (pixels: &Vec<u8>)
        ensures
            pixels@ == self@.pixels,
    {
        &self.pixels
    }

    pub fn into_raw(self) -> (pixels: Vec<u8>)
        ensures
            pixels@ == self@.pixels,
    {
        self.pixels
    }

    /// The four channels of pixel `(x, y)`.
    pub fn get_pixel(&self, x: u32, y: u32) -> (pixel: [u8; 4])
        requires
            self.wf(),
            x < self@.width,
            y < self@.height,
        ensures
            pixel@ == self@.pixel(x as int, y as int),
    {
        proof {
            lemma_offset_in_bounds(self@.width, self@.height, x as int, y as int);
        }
        let i = ((y as usize) * (self.width as usize) + (x as usize)) * 4;
        [self.pixels[i], self.pixels[i + 1], self.pixels[i + 2], self.pixels[i + 3]]
    }

    /// A copy of the `w` x `h` region whose corner is `(x, y)`, as
    /// `imageops::crop_imm(..).to_image()` gives it for a region inside the
    /// image.
    pub fn crop(&self, x: u32, y: u32, w: u32, h: u32) -> (out: Image)
        requires
            self.wf(),
            x + w <= self@.width,
            y + h <= self@.height,
        ensures
            out@.is_crop_of(self@, x as int, y as int, w as nat, h as nat),
    {
        let ghost src = self@;
        let mut pixels: Vec<u8> = Vec::new();
        let mut py: u32 = 0;
        while py < h
            invariant
                src == self@,
                src.wf(),
                x + w <= src.width,
                y + h <= src.height,
                py <= h,
                pixels@.len() == offset_of(w as nat, 0, py as int),
                forall|qx: int, qy: int, c: int|
                    0 <= qx < w && 0 <= qy < py && 0 <= c < 4 ==> #[trigger] pixels@[offset_of(
                        w as nat,
                        qx,
                        qy,
                    ) + c] == src.byte(x + qx, y + qy, c),
            decreases h - py,
        {
            let mut px: u32 = 0;
            while px < w
                invariant
                    src == self@,
                    src.wf(),
                    x + w <= src.width,
                    y + h <= src.height,
                    py < h,
                    px <= w,
                    pixels@.len() == offset_of(w as nat, px as int, py as int),
                    forall|qx: int, qy: int, c: int|
                        0 <= qx < w && 0 <= qy < py && 0 <= c < 4 ==> #[trigger] pixels@[offset_of(
                            w as nat,
                            qx,
                            qy,
                        ) + c] == src.byte(x + qx, y + qy, c),
                    forall|qx: int, c: int|
                        0 <= qx < px && 0 <= c < 4 ==> #[trigger] pixels@[offset_of(
                            w as nat,
                            qx,
                            py as int,
                        ) + c] == src.byte(x + qx, y + py, c),
                decreases w - px,
            {
                let ghost before = pixels@;
                let p = self.get_pixel(x + px, y + py);
                pixels.push(p[0]);
                pixels.push(p[1]);
                pixels.push(p[2]);
                pixels.push(p[3]);
                proof {
                    assert(pixels@.len() == offset_of(w as nat, px + 1, py as int));
                    assert forall|qx: int, qy: int, c: int|
                        0 <= qx < w && 0 <= qy < py && 0 <= c < 4 implies #[trigger] pixels@[offset_of(
                            w as nat,
                            qx,
                            qy,
                        ) + c] == src.byte(x + qx, y + qy, c) by {
                        lemma_row_before(w as nat, qx, qy, px as int, py as int);
                        assert(pixels@[offset_of(w as nat, qx, qy) + c] == before[offset_of(
                            w as nat,
                            qx,
                            qy,
                        ) + c]);
                    }
                    assert forall|qx: int, c: int|
                        0 <= qx < px + 1 && 0 <= c < 4 implies #[trigger] pixels@[offset_of(
                            w as nat,
                            qx,
                            py as int,
                        ) + c] == src.byte(x + qx, y + py, c) by {
                        if qx < px {
                            assert(pixels@[offset_of(w as nat, qx, py as int) + c] == before[offset_of(
                                w as nat,
                                qx,
                                py as int,
                            ) + c]);
                        }
                    }
                }
                px = px + 1;
            }
            proof {
                assert(offset_of(w as nat, w as int, py as int) == offset_of(w as nat, 0, py + 1))
                    by (nonlinear_arith);
            }
            py = py + 1;
        }
        proof {
            assert(offset_of(w as nat, 0, h as int) == (w as nat) * (h as nat) * 4)
                by (nonlinear_arith);
            lemma_crop_fits(src.width, src.height, w as nat, h as nat);
        }
        Image { width: w, height: h, pixels }
    }

    /// A copy of this image.
    pub fn duplicate(&self) -> (out: Image)
        ensures
            out@ == self@,
    {
        let mut pixels: Vec<u8> = Vec::new();
        let mut i: usize = 0;
        while i < self.pixels.len()
            invariant
                i <= self.pixels@.len(),
                pixels@ == self.pixels@.take(i as int),
            decreases self.pixels@.len() - i,
        {
            pixels.push(self.pixels[i]);
            i = i + 1;
            assert(pixels@ =~= self.pixels@.take(i as int));
        }
        assert(self.pixels@.take(i as int) =~= self.pixels@);
        Image { width: self.width, height: self.height, pixels }
    }

    /// Writes pixel `(x, y)` and nothing else.
    pub fn put_pixel(&mut self, x: u32, y: u32, pixel: [u8; 4])
        requires
            old(self).wf(),
            x < old(self)@.width,
            y < old(self)@.height,
        ensures
            final(self).wf(),
            final(self)@.width == old(self)@.width,
            final(self)@.height == old(self)@.height,
            final(self)@.pixels == old(self)@.pixels.update(
                offset_of(old(self)@.width, x as int, y as int),
                pixel[0],
            ).update(offset_of(old(self)@.width, x as int, y as int) + 1, pixel[1]).update(
                offset_of(old(self)@.width, x as int, y as int) + 2,
                pixel[2],
            ).update(offset_of(old(self)@.width, x as int, y as int) + 3, pixel[3]),
    {
        proof {
            lemma_offset_in_bounds(self@.width, self@.height, x as int, y as int);
        }
        let i = ((y as usize) * (self.width as usize) + (x as usize)) * 4;
        self.pixels.set(i, pixel[0]);
        self.pixels.set(i + 1, pixel[1]);
        self.pixels.set(i + 2, pixel[2]);
        self.pixels.set(i + 3, pixel[3]);
    }
}

/// `after` is `bottom` with `top` copied over it, `top`'s corner at `(x, y)`:
/// covered pixels take `top`'s bytes, the rest keep their own.
pub open spec fn is_replaced(after: ImageModel, bottom: ImageModel, top: ImageModel, x: int, y: int) -> bool {
    &&& after.wf()
    &&& after.width == bottom.width
    &&& after.height == bottom.height
    &&& forall|px: int, py: int, c: int|
        0 <= px < bottom.width && 0 <= py < bottom.height && 0 <= c < 4 ==> #[trigger] after.byte(
            px,
            py,
            c,
        ) == if ImageModel::in_rect(px, py, x, y, top.width, top.height) {
            top.byte(px - x, py - y, c)
        } else {
            bottom.byte(px, py, c)
        }
}

/// The effect of writing one pixel on every byte of the image.
proof fn lemma_put_pixel_bytes(before: ImageModel, after: ImageModel, x: int, y: int, pixel: Seq<u8>)
    requires
        before.wf(),
        0 <= x < before.width,
        0 <= y < before.height,
        pixel.len() == 4,
        after.width == before.width,
        after.height == before.height,
        after.pixels == before.pixels.update(offset_of(before.width, x, y), pixel[0]).update(
            offset_of(before.width, x, y) + 1,
            pixel[1],
        ).update(offset_of(before.width, x, y) + 2, pixel[2]).update(
            offset_of(before.width, x, y) + 3,
            pixel[3],
        ),
    ensures
        forall|px: int, py: int, c: int|
            0 <= px < before.width && 0 <= py < before.height && 0 <= c < 4 ==> #[trigger] after.byte(
                px,
                py,
                c,
            ) == if px == x && py == y {
                pixel[c]
            } else {
                before.byte(px, py, c)
            },
{
    assert forall|px: int, py: int, c: int|
        0 <= px < before.width && 0 <= py < before.height && 0 <= c < 4 implies #[trigger] after.byte(
            px,
            py,
            c,
        ) == if px == x && py == y {
            pixel[c]
        } else {
            before.byte(px, py, c)
        } by {
        lemma_offset_in_bounds(before.width, before.height, px, py);
        lemma_offset_in_bounds(before.width, before.height, x, y);
        if px != x || py != y {
            lemma_offsets_distinct(before.width, px, py, x, y);
        }
    }
}

/// Copies `top` over `bottom` with `top`'s corner at `(x, y)`, as
/// `image::imageops::replace` does; here `top` lies wholly inside `bottom`.
pub fn replace(bottom: &mut Image, top: &Image, x: u32, y: u32)
    requires
        old(bottom).wf(),
        top.wf(),
        x + top@.width <= old(bottom)@.width,
        y + top@.height <= old(bottom)@.height,
    ensures
        is_replaced(final(bottom)@, old(bottom)@, top@, x as int, y as int),
{
    let ghost start = bottom@;
    let tw = top.width();
    let th = top.height();
    let mut ty: u32 = 0;
    while ty < th
        invariant
            start == old(bottom)@,
            top.wf(),
            tw == top@.width,
            th == top@.height,
            x + tw <= start.width,
            y + th <= start.height,
            ty <= th,
            bottom.wf(),
            bottom@.width == start.width,
            bottom@.height == start.height,
            forall|px: int, py: int, c: int|
                0 <= px < start.width && 0 <= py < start.height && 0 <= c < 4 ==> #[trigger] bottom@.byte(
                    px,
                    py,
                    c,
                ) == if ImageModel::in_rect(px, py, x as int, y as int, tw as nat, ty as nat) {
                    top@.byte(px - x, py - y, c)
                } else {
                    start.byte(px, py, c)
                },
        decreases th - ty,
    {
        let mut tx: u32 = 0;
        while tx < tw
            invariant
                start == old(bottom)@,
                top.wf(),
                tw == top@.width,
                th == top@.height,
                x + tw <= start.width,
                y + th <= start.height,
                ty < th,
                tx <= tw,
                bottom.wf(),
                bottom@.width == start.width,
                bottom@.height == start.height,
                forall|px: int, py: int, c: int|
                    0 <= px < start.width && 0 <= py < start.height && 0 <= c < 4 ==> #[trigger] bottom@.byte(
                        px,
                        py,
                        c,
                    ) == if ImageModel::in_rect(px, py, x as int, y as int, tw as nat, ty as nat)
                        || (py == y + ty && x <= px < x + tx) {
                        top@.byte(px - x, py - y, c)
                    } else {
                        start.byte(px, py, c)
                    },
            decreases tw - tx,
        {
            let pixel = top.get_pixel(tx, ty);
            let ghost before = bottom@;
            bottom.put_pixel(x + tx, y + ty, pixel);
            proof {
                lemma_put_pixel_bytes(before, bottom@, (x + tx) as int, (y + ty) as int, pixel@);
            }
            tx = tx + 1;
        }
        ty = ty + 1;
    }
}

/// A pixel on an earlier row starts before every byte of a later row.
proof fn lemma_row_before(w: nat, qx: int, qy: int, px: int, py: int)
    requires
        0 <= qx < w,
        0 <= qy < py,
        0 <= px,
    ensures
        offset_of(w, qx, qy) + 4 <= offset_of(w, px, py),
{
    assert(qy * w + qx + 1 <= py * w + px) by (nonlinear_arith)
        requires
            0 <= qx < w,
            0 <= qy < py,
            0 <= px,
    ;
}

/// A region no larger than an image needs no more bytes than the image.
proof fn lemma_crop_fits(width: nat, height: nat, w: nat, h: nat)
    requires
        w <= width,
        h <= height,
    ensures
        w * h * 4 <= width * height * 4,
{
    assert(w * h <= width * height) by (nonlinear_arith)
        requires
            w <= width,
            h <= height,
    ;
}

/// `n` zero bytes.
pub fn zeroed(n: usize) -> (bytes: Vec<u8>)
    ensures
        bytes@.len() == n,
        forall|i: int| 0 <= i < n ==> bytes@[i] == 0,
{
    let mut bytes: Vec<u8> = Vec::new();
    let mut i: usize = 0;
    while i < n
        invariant
            i <= n,
            bytes@.len() == i,
            forall|j: int| 0 <= j < i ==> bytes@[j] == 0,
        decreases n - i,
    {
        bytes.push(0);
        i = i + 1;
    }
    bytes
}

} // verus!
