//! The grid the procedural sprites are painted on: RGB cells or transparent
//! ones, addressed from 1 like the editor-side painter, with writes outside
//! the grid dropped.

use vstd::prelude::*;
use crate::raster::{lemma_offset_in_bounds, Image, ImageModel};

verus! {

/// A `w` x `h` grid of RGB cells, `None` where transparent.
#[derive(Debug, Clone)]
pub struct Canvas {
    pub w: u32,
    pub h: u32,
    /// The cells, row-major.
    pub px: Vec<Option<[u8; 3]>>,
}

/// The index of 1-based cell `(x, y)` in a grid `w` wide.
pub open spec fn cell_index(w: nat, x: int, y: int) -> int {
    (y - 1) * w + (x - 1)
}

pub open spec fn in_grid(w: nat, h: nat, x: int, y: int) -> bool {
    1 <= x <= w && 1 <= y <= h
}

impl Canvas {
    /// The cells, row-major.
    pub open spec fn cells(&self) -> Seq<Option<[u8; 3]>> {
        self.px@
    }

    pub open spec fn wf(&self) -> bool {
        &&& self.cells().len() == self.w * self.h
        &&& self.w * self.h <= u32::MAX
    }

    /// Cell `(x, y)`, 1-based.
    pub open spec fn cell(&self, x: int, y: int) -> Option<[u8; 3]> {
        self.cells()[cell_index(self.w as nat, x, y)]
    }

    /// A fully transparent `w` x `h` canvas.
    pub fn new(w: u32, h: u32) -> (canvas: Canvas)
        requires
            w * h <= u32::MAX,
        ensures
            canvas.wf(),
            canvas.w == w,
            canvas.h == h,
            forall|i: int| 0 <= i < canvas.cells().len() ==> canvas.cells()[i] is None,
    {
        let n = (w * h) as usize;
        let mut px: Vec<Option<[u8; 3]>> = Vec::new();
        let mut i: usize = 0;
        while i < n
            invariant
                i <= n,
                px@.len() == i,
                forall|j: int| 0 <= j < i ==> px@[j] is None,
            decreases n - i,
        {
            px.push(None);
            i = i + 1;
        }
        Canvas { w, h, px }
    }

    /// Paints cell `(x, y)`, 1-based; a cell outside the grid is ignored.
    pub fn set_cell(&mut self, x: i64, y: i64, color: [u8; 3])
        requires
            old(self).wf(),
        ensures
            final(self).wf(),
            final(self).w == old(self).w,
            final(self).h == old(self).h,
            final(self).cells() == (if in_grid(old(self).w as nat, old(self).h as nat, x as int, y as int) {
                old(self).cells().update(cell_index(old(self).w as nat, x as int, y as int), Some(color))
            } else {
                old(self).cells()
            }),
    {
        if x >= 1 && y >= 1 && x <= self.w as i64 && y <= self.h as i64 {
            proof {
                lemma_cell_in_bounds(self.w as nat, self.h as nat, x as int, y as int);
            }
            let idx = ((y as u32 - 1) * self.w + (x as u32 - 1)) as usize;
            self.px.set(idx, Some(color));
        }
    }

    /// Cell `(x, y)`, 1-based, or `None` when it is transparent or outside the
    /// grid.
    pub fn get_cell(&self, x: i64, y: i64) -> (color: Option<[u8; 3]>)
        requires
            self.wf(),
        ensures
            color == (if in_grid(self.w as nat, self.h as nat, x as int, y as int) {
                self.cell(x as int, y as int)
            } else {
                None
            }),
    {
        if x < 1 || y < 1 || x > self.w as i64 || y > self.h as i64 {
            return None;
        }
        proof {
            lemma_cell_in_bounds(self.w as nat, self.h as nat, x as int, y as int);
        }
        self.px[((y as u32 - 1) * self.w + (x as u32 - 1)) as usize]
    }

    /// The canvas as an RGBA image: a painted cell opaque, a transparent one
    /// transparent black, so every frame keeps the canvas's size.
    pub fn to_image(&self) -> (image: Image)
        requires
            self.wf(),
            self.w * self.h * 4 <= usize::MAX,
        ensures
            image.wf(),
            image@.width == self.w,
            image@.height == self.h,
            forall|x: int, y: int|
                0 <= x < self.w && 0 <= y < self.h ==> #[trigger] image@.pixel(x, y) == match self.cell(
                    x + 1,
                    y + 1,
                ) {
                    Some(c) => seq![c[0], c[1], c[2], 255u8],
                    None => seq![0u8, 0u8, 0u8, 0u8],
                },
    {
        let mut image = Image::new(self.w, self.h);
        let ghost blank = image@;
        let mut y: u32 = 0;
        while y < self.h
            invariant
                self.wf(),
                image.wf(),
                image@.width == self.w,
                image@.height == self.h,
                y <= self.h,
                blank.width == self.w,
                forall|i: int| 0 <= i < blank.pixels.len() ==> blank.pixels[i] == 0,
                forall|px: int, py: int|
                    0 <= px < self.w && 0 <= py < self.h ==> #[trigger] image@.pixel(px, py) == if py
                        < y {
                        painted(self.cell(px + 1, py + 1))
                    } else {
                        blank.pixel(px, py)
                    },
                blank.wf(),
                blank.height == self.h,
            decreases self.h - y,
        {
            let mut x: u32 = 0;
            while x < self.w
                invariant
                    self.wf(),
                    image.wf(),
                    image@.width == self.w,
                    image@.height == self.h,
                    y < self.h,
                    x <= self.w,
                    blank.width == self.w,
                    blank.height == self.h,
                    blank.wf(),
                    forall|i: int| 0 <= i < blank.pixels.len() ==> blank.pixels[i] == 0,
                    forall|px: int, py: int|
                        0 <= px < self.w && 0 <= py < self.h ==> #[trigger] image@.pixel(px, py)
                            == if py < y || (py == y && px < x) {
                            painted(self.cell(px + 1, py + 1))
                        } else {
                            blank.pixel(px, py)
                        },
                decreases self.w - x,
            {
                proof {
                    lemma_cell_in_bounds(self.w as nat, self.h as nat, x + 1, y + 1);
                }
                let rgba = match self.px[(y * self.w + x) as usize] {
                    Some(c) => [c[0], c[1], c[2], 255u8],
                    None => [0u8, 0u8, 0u8, 0u8],
                };
                let ghost before = image@;
                image.put_pixel(x, y, rgba);
                proof {
                    assert forall|px: int, py: int|
                        0 <= px < self.w && 0 <= py < self.h implies #[trigger] image@.pixel(px, py)
                            == if py < y || (py == y && px < x + 1) {
                            painted(self.cell(px + 1, py + 1))
                        } else {
                            blank.pixel(px, py)
                        } by {
                        lemma_offset_in_bounds(self.w as nat, self.h as nat, px, py);
                        lemma_offset_in_bounds(self.w as nat, self.h as nat, x as int, y as int);
                        if px == x && py == y {
                            assert(image@.pixel(px, py) =~= rgba@);
                        } else {
                            crate::raster::lemma_offsets_distinct(self.w as nat, px, py, x as int, y as int);
                            assert(image@.pixel(px, py) =~= before.pixel(px, py));
                        }
                    }
                }
                x = x + 1;
            }
            y = y + 1;
        }
        proof {
            assert forall|x: int, y: int|
                0 <= x < self.w && 0 <= y < self.h implies #[trigger] image@.pixel(x, y) == match self.cell(
                    x + 1,
                    y + 1,
                ) {
                    Some(c) => seq![c[0], c[1], c[2], 255u8],
                    None => seq![0u8, 0u8, 0u8, 0u8],
                } by {
                assert(image@.pixel(x, y) == painted(self.cell(x + 1, y + 1)));
            }
        }
        image
    }
}

/// The RGBA bytes a cell becomes.
pub open spec fn painted(cell: Option<[u8; 3]>) -> Seq<u8> {
    match cell {
        Some(c) => seq![c[0], c[1], c[2], 255u8],
        None => seq![0u8, 0u8, 0u8, 0u8],
    }
}

proof fn lemma_cell_in_bounds(w: nat, h: nat, x: int, y: int)
    requires
        1 <= x <= w,
        1 <= y <= h,
    ensures
        0 <= cell_index(w, x, y) < w * h,
        cell_index(w, x, y) + 1 <= w * h,
{
    assert((y - 1) * w + (x - 1) < w * h) by (nonlinear_arith)
        requires
            1 <= x <= w,
            1 <= y <= h,
    ;
    assert(0 <= (y - 1) * w) by (nonlinear_arith)
        requires
            1 <= y,
    ;
}


/// A canvas with nothing painted renders as a fully transparent image of its
/// size: whatever image `to_image` gives for it is zero in every byte.
pub proof fn law_blank_canvas_renders_clear(canvas: Canvas, image: ImageModel)
    requires
        canvas.wf(),
        forall|i: int| 0 <= i < canvas.cells().len() ==> canvas.cells()[i] is None,
        image.width == canvas.w,
        image.height == canvas.h,
        forall|x: int, y: int|
            0 <= x < canvas.w && 0 <= y < canvas.h ==> #[trigger] image.pixel(x, y) == painted(
                canvas.cell(x + 1, y + 1),
            ),
    ensures
        forall|x: int, y: int|
            0 <= x < canvas.w && 0 <= y < canvas.h ==> #[trigger] image.pixel(x, y) == seq![
                0u8,
                0u8,
                0u8,
                0u8,
            ],
{
    assert forall|x: int, y: int| 0 <= x < canvas.w && 0 <= y < canvas.h implies #[trigger] image.pixel(
        x,
        y,
    ) == seq![0u8, 0u8, 0u8, 0u8] by {
        lemma_cell_in_bounds(canvas.w as nat, canvas.h as nat, x + 1, y + 1);
        assert(image.pixel(x, y) == painted(canvas.cell(x + 1, y + 1)));
    }
}

} // verus!
