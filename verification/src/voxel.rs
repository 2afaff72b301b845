//! Voxel meshing: one RGBA sprite frame to one 3D model.
//!
//! Extruding a frame's opaque pixels into a slab gives a real model of that
//! frame with no new art. One voxel is one unit, x right, y down, the model
//! centred on x and z with `y = 0` at its top. Positions are kept in half
//! voxels, so every corner is an exact integer: a model coordinate is the
//! stored value divided by two.
//!
//! A pixel becomes one box of the full slab depth, and a face is emitted only
//! where the neighbour that would hide it is transparent.

use vstd::prelude::*;

use crate::raster::{lemma_offset_in_bounds, offset_of, Image, ImageModel};

verus! {

/// Alpha at or above which a pixel becomes solid.
pub const OPAQUE_ALPHA_THRESHOLD: u8 = 128;

/// Widest voxel grid a frame is extruded at.
pub const DEFAULT_MAX_WIDTH: u32 = 48;

/// Slab thickness, in voxels.
pub const DEFAULT_DEPTH: u32 = 4;

pub const NORMAL_UNIT: i8 = 127;

#[derive(Debug, Clone, Copy, PartialEq, Eq, Structural)]
pub struct VoxelOptions {
    pub max_width: u32,
    pub depth: u32,
}

impl Default for VoxelOptions {
    fn default() -> (options: Self)
        ensures
            options.max_width == DEFAULT_MAX_WIDTH,
            options.depth == DEFAULT_DEPTH,
    {
        VoxelOptions { max_width: DEFAULT_MAX_WIDTH, depth: DEFAULT_DEPTH }
    }
}

/// One mesh corner. `position` is in half voxels; `normal` is one unit on one
/// axis; `colour` is the source pixel's own bytes.
#[derive(Debug, Clone, Copy, PartialEq, Eq)]
pub struct VoxelVertex {
    pub position: [i64; 3],
    pub normal: [i8; 4],
    pub colour: [u8; 4],
}

/// The six faces of a voxel box, named for the direction they face. `y` is
/// down, so `Top` faces negative y.
#[derive(Debug, Clone, Copy, PartialEq, Eq, Structural)]
pub enum Face {
    Front,
    Back,
    Left,
    Right,
    Top,
    Bottom,
}

pub open spec fn spec_normal(face: Face) -> Seq<i8> {
    match face {
        Face::Front => seq![0i8, 0, NORMAL_UNIT, 0],
        Face::Back => seq![0i8, 0, -127i8, 0],
        Face::Left => seq![-127i8, 0i8, 0, 0],
        Face::Right => seq![NORMAL_UNIT, 0i8, 0, 0],
        Face::Top => seq![0i8, -127i8, 0, 0],
        Face::Bottom => seq![0i8, NORMAL_UNIT, 0, 0],
    }
}

/// Corner `j` of `face` on the box spanning `lo..hi` on each axis, wound the
/// same way for every face.
pub open spec fn spec_corner(face: Face, lo: Seq<i64>, hi: Seq<i64>, j: int) -> Seq<i64> {
    let (left, right, top, bottom, back, front) = (lo[0], hi[0], lo[1], hi[1], lo[2], hi[2]);
    match face {
        Face::Front => if j == 0 {
            seq![left, top, front]
        } else if j == 1 {
            seq![left, bottom, front]
        } else if j == 2 {
            seq![right, bottom, front]
        } else {
            seq![right, top, front]
        },
        Face::Back => if j == 0 {
            seq![right, top, back]
        } else if j == 1 {
            seq![right, bottom, back]
        } else if j == 2 {
            seq![left, bottom, back]
        } else {
            seq![left, top, back]
        },
        Face::Left => if j == 0 {
            seq![left, top, back]
        } else if j == 1 {
            seq![left, bottom, back]
        } else if j == 2 {
            seq![left, bottom, front]
        } else {
            seq![left, top, front]
        },
        Face::Right => if j == 0 {
            seq![right, top, front]
        } else if j == 1 {
            seq![right, bottom, front]
        } else if j == 2 {
            seq![right, bottom, back]
        } else {
            seq![right, top, back]
        },
        Face::Top => if j == 0 {
            seq![left, top, back]
        } else if j == 1 {
            seq![left, top, front]
        } else if j == 2 {
            seq![right, top, front]
        } else {
            seq![right, top, back]
        },
        Face::Bottom => if j == 0 {
            seq![left, bottom, front]
        } else if j == 1 {
            seq![left, bottom, back]
        } else if j == 2 {
            seq![right, bottom, back]
        } else {
            seq![right, bottom, front]
        },
    }
}

impl Face {
    pub fn normal(self) -> (normal: [i8; 4])
        ensures
            normal@ == spec_normal(self),
    {
        let n = match self {
            Face::Front => [0, 0, NORMAL_UNIT, 0],
            Face::Back => [0, 0, -NORMAL_UNIT, 0],
            Face::Left => [-NORMAL_UNIT, 0, 0, 0],
            Face::Right => [NORMAL_UNIT, 0, 0, 0],
            Face::Top => [0, -NORMAL_UNIT, 0, 0],
            Face::Bottom => [0, NORMAL_UNIT, 0, 0],
        };
        assert(n@ =~= spec_normal(self));
        n
    }

    /// The four corners, in order, of this face of the box spanning
    /// `[min, max]` on each axis.
    pub fn corners(self, min: [i64; 3], max: [i64; 3]) -> (corners: [[i64; 3]; 4])
        ensures
            forall|j: int| 0 <= j < 4 ==> #[trigger] corners[j]@ == spec_corner(self, min@, max@, j),
    {
        let (left, right) = (min[0], max[0]);
        let (top, bottom) = (min[1], max[1]);
        let (back, front) = (min[2], max[2]);
        let c = match self {
            Face::Front => [
                [left, top, front],
                [left, bottom, front],
                [right, bottom, front],
                [right, top, front],
            ],
            Face::Back => [
                [right, top, back],
                [right, bottom, back],
                [left, bottom, back],
                [left, top, back],
            ],
            Face::Left => [
                [left, top, back],
                [left, bottom, back],
                [left, bottom, front],
                [left, top, front],
            ],
            Face::Right => [
                [right, top, front],
                [right, bottom, front],
                [right, bottom, back],
                [right, top, back],
            ],
            Face::Top => [
                [left, top, back],
                [left, top, front],
                [right, top, front],
                [right, top, back],
            ],
            Face::Bottom => [
                [left, bottom, front],
                [left, bottom, back],
                [right, bottom, back],
                [right, bottom, front],
            ],
        };
        assert(c[0]@ =~= spec_corner(self, min@, max@, 0));
        assert(c[1]@ =~= spec_corner(self, min@, max@, 1));
        assert(c[2]@ =~= spec_corner(self, min@, max@, 2));
        assert(c[3]@ =~= spec_corner(self, min@, max@, 3));
        c
    }
}

/// A frame's opaque pixels, resampled to the voxel grid. Row-major RGBA,
/// `cols * rows * 4` bytes; a pixel below the alpha threshold is four zeros.
#[derive(Debug, Clone, PartialEq, Eq)]
pub struct VoxelGrid {
    pub cols: u32,
    pub rows: u32,
    pub pixels: Vec<u8>,
}

/// A grid as values.
pub struct GridModel {
    pub cols: nat,
    pub rows: nat,
    pub pixels: Seq<u8>,
}

impl View for VoxelGrid {
    type V = GridModel;

    open spec fn view(&self) -> GridModel {
        GridModel { cols: self.cols as nat, rows: self.rows as nat, pixels: self.pixels@ }
    }
}

pub open spec fn max1(n: nat) -> nat {
    if n == 0 {
        1
    } else {
        n
    }
}

pub open spec fn min_nat(a: nat, b: nat) -> nat {
    if a < b {
        a
    } else {
        b
    }
}

/// Columns a frame `source_cols` wide is fitted to.
pub open spec fn fit_cols(source_cols: nat, max_width: nat) -> nat {
    max1(min_nat(source_cols, max1(max_width)))
}

/// Rows that keep the frame's aspect at `cols` columns.
pub open spec fn fit_rows(source_cols: nat, source_rows: nat, cols: nat) -> nat {
    if cols == source_cols {
        max1(source_rows)
    } else {
        max1(source_rows * cols / max1(source_cols))
    }
}

/// The nearest source index for grid index `i` of `n`.
pub open spec fn source_index(i: nat, n_source: nat, n: nat) -> nat {
    min_nat(i * n_source / n, (n_source - 1) as nat)
}

/// Channel `c` of grid cell `(col, row)`: the nearest source pixel when it
/// is opaque enough, fully opaque; four zeros otherwise.
pub open spec fn fitted_byte(
    frame: ImageModel,
    cols: nat,
    rows: nat,
    col: nat,
    row: nat,
    c: nat,
) -> u8 {
    let sx = source_index(col, frame.width, cols);
    let sy = source_index(row, frame.height, rows);
    if frame.byte(sx as int, sy as int, 3) < OPAQUE_ALPHA_THRESHOLD {
        0
    } else if c == 3 {
        255
    } else {
        frame.byte(sx as int, sy as int, c as int)
    }
}

/// The grid a frame is fitted to.
pub open spec fn spec_fit(frame: ImageModel, max_width: nat) -> GridModel {
    let cols = fit_cols(frame.width, max_width);
    let rows = fit_rows(frame.width, frame.height, cols);
    GridModel {
        cols,
        rows,
        pixels: Seq::new(
            cols * rows * 4,
            |k: int| fitted_byte(frame, cols, rows, ((k / 4) % cols as int) as nat, ((k / 4) / cols as int) as nat, (k % 4) as nat),
        ),
    }
}

impl GridModel {
    pub open spec fn wf(self) -> bool {
        &&& self.pixels.len() == self.cols * self.rows * 4
        &&& self.pixels.len() <= usize::MAX
    }

    pub open spec fn byte(self, col: int, row: int, c: int) -> u8 {
        self.pixels[offset_of(self.cols, col, row) + c]
    }

    /// Whether a cell is inside the grid and solid.
    pub open spec fn opaque(self, col: int, row: int) -> bool {
        &&& 0 <= col < self.cols
        &&& 0 <= row < self.rows
        &&& self.byte(col, row, 3) >= OPAQUE_ALPHA_THRESHOLD
    }

    pub open spec fn colour(self, col: int, row: int) -> Seq<u8> {
        seq![self.byte(col, row, 0), self.byte(col, row, 1), self.byte(col, row, 2), self.byte(col, row, 3)]
    }

    /// The faces of a cell that nothing else hides: front and back always,
    /// each side whose neighbour is not solid.
    pub open spec fn exposed(self, col: int, row: int) -> Seq<Face> {
        seq![Face::Front, Face::Back] + (if !self.opaque(col - 1, row) {
            seq![Face::Left]
        } else {
            Seq::empty()
        }) + (if !self.opaque(col + 1, row) {
            seq![Face::Right]
        } else {
            Seq::empty()
        }) + (if !self.opaque(col, row - 1) {
            seq![Face::Top]
        } else {
            Seq::empty()
        }) + (if !self.opaque(col, row + 1) {
            seq![Face::Bottom]
        } else {
            Seq::empty()
        })
    }

    /// The quads one cell contributes: its exposed faces if it is solid.
    pub open spec fn cell_quads(self, col: int, row: int) -> Seq<(int, int, Face)> {
        if self.opaque(col, row) {
            self.exposed(col, row).map_values(|f: Face| (col, row, f))
        } else {
            Seq::empty()
        }
    }

    /// Every quad of the cells before `(col, row)`, row-major.
    pub open spec fn quads_before(self, row: nat, col: nat) -> Seq<(int, int, Face)>
        decreases row, col,
    {
        if col > 0 {
            self.quads_before(row, (col - 1) as nat) + self.cell_quads(col - 1, row as int)
        } else if row > 0 {
            self.quads_before((row - 1) as nat, self.cols)
        } else {
            Seq::empty()
        }
    }

    /// Every quad of the model, cell by cell in row-major order.
    pub open spec fn quads(self) -> Seq<(int, int, Face)> {
        self.quads_before(self.rows, 0)
    }
}

impl VoxelGrid {
    pub fn fit(frame: &Image, max_width: u32) -> (grid: Self)
        requires
            frame.wf(),
            frame@.width > 0,
            frame@.height > 0,
        ensures
            grid@ == spec_fit(frame@, max_width as nat),
            grid@.wf(),
            grid@.cols * grid@.rows <= frame@.width * frame@.height,
    {
        let source_cols = frame.width();
        let source_rows = frame.height();
        let mw = if max_width < 1 {
            1
        } else {
            max_width
        };
        let narrowed = if source_cols < mw {
            source_cols
        } else {
            mw
        };
        let cols: u32 = if narrowed < 1 {
            1
        } else {
            narrowed
        };
        proof {
            assert(source_rows as nat * cols as nat / source_cols as nat <= source_rows) by (
            nonlinear_arith)
                requires
                    cols <= source_cols,
                    source_cols > 0,
            {
                vstd::arithmetic::div_mod::lemma_div_is_ordered(
                    source_rows as int * cols as int,
                    source_rows as int * source_cols as int,
                    source_cols as int,
                );
                vstd::arithmetic::div_mod::lemma_div_by_multiple(
                    source_rows as int,
                    source_cols as int,
                );
            }
            assert((source_rows as u64) * (cols as u64) <= u32::MAX * u32::MAX) by (nonlinear_arith)
                requires
                    source_rows <= u32::MAX,
                    cols <= u32::MAX,
            ;
        }
        let rows: u32 = if cols == source_cols {
            if source_rows < 1 {
                1
            } else {
                source_rows
            }
        } else {
            let scaled = (source_rows as u64) * (cols as u64) / (source_cols as u64);
            if scaled < 1 {
                1
            } else {
                scaled as u32
            }
        };
        proof {
            assert(cols as nat * rows as nat <= source_cols as nat * source_rows as nat) by (
            nonlinear_arith)
                requires
                    cols <= source_cols,
                    rows <= source_rows,
            ;
        }
        let ghost g = spec_fit(frame@, max_width as nat);
        assert(g.cols == cols && g.rows == rows);
        let mut pixels: Vec<u8> = Vec::new();
        let mut row: u32 = 0;
        while row < rows
            invariant
                frame.wf(),
                frame@.width == source_cols,
                frame@.height == source_rows,
                source_cols > 0,
                source_rows > 0,
                1 <= cols <= source_cols,
                1 <= rows <= source_rows,
                g.cols == cols,
                g.rows == rows,
                g == spec_fit(frame@, max_width as nat),
                row <= rows,
                pixels@.len() == row * cols * 4,
                forall|k: int| 0 <= k < pixels@.len() ==> pixels@[k] == #[trigger] g.pixels[k],
            decreases rows - row,
        {
            proof {
                lemma_index_scale(row as nat, source_rows as nat, rows as nat);
            }
            let source_row_wide = (row as u64) * (source_rows as u64) / (rows as u64);
            let source_row: u32 = if source_row_wide < (source_rows as u64) - 1 {
                source_row_wide as u32
            } else {
                source_rows - 1
            };
            let mut col: u32 = 0;
            while col < cols
                invariant
                    frame.wf(),
                    frame@.width == source_cols,
                    frame@.height == source_rows,
                    source_cols > 0,
                    source_rows > 0,
                    1 <= cols <= source_cols,
                    1 <= rows <= source_rows,
                    g.cols == cols,
                    g.rows == rows,
                    g == spec_fit(frame@, max_width as nat),
                    row < rows,
                    col <= cols,
                    source_row == source_index(row as nat, source_rows as nat, rows as nat),
                    source_row < source_rows,
                    pixels@.len() == (row * cols + col) * 4,
                    forall|k: int| 0 <= k < pixels@.len() ==> pixels@[k] == #[trigger] g.pixels[k],
                decreases cols - col,
            {
                proof {
                    lemma_index_scale(col as nat, source_cols as nat, cols as nat);
                }
                let source_col_wide = (col as u64) * (source_cols as u64) / (cols as u64);
                let source_col: u32 = if source_col_wide < (source_cols as u64) - 1 {
                    source_col_wide as u32
                } else {
                    source_cols - 1
                };
                let source = frame.get_pixel(source_col, source_row);
                let ghost base = pixels@.len() as int;
                proof {
                    assert((row * cols + col + 1) * 4 <= cols * rows * 4) by (nonlinear_arith)
                        requires
                            row < rows,
                            col < cols,
                    ;
                }
                if source[3] < OPAQUE_ALPHA_THRESHOLD {
                    pixels.push(0);
                    pixels.push(0);
                    pixels.push(0);
                    pixels.push(0);
                } else {
                    pixels.push(source[0]);
                    pixels.push(source[1]);
                    pixels.push(source[2]);
                    pixels.push(u8::MAX);
                }
                proof {
                    assert forall|k: int| 0 <= k < pixels@.len() implies pixels@[k]
                        == #[trigger] g.pixels[k] by {
                        if k >= base {
                            lemma_cell_of_offset(cols as nat, col as nat, row as nat, k - base);
                        }
                    }
                }
                col = col + 1;
            }
            proof {
                assert((row * cols + cols) * 4 == (row + 1) * cols * 4) by (nonlinear_arith);
            }
            row = row + 1;
        }
        proof {
            assert(rows * cols * 4 == cols * rows * 4) by (nonlinear_arith);
            assert(pixels@ =~= g.pixels);
        }
        VoxelGrid { cols, rows, pixels }
    }

    pub fn is_opaque(&self, col: i64, row: i64) -> (solid: bool)
        requires
            self@.wf(),
        ensures
            solid == self@.opaque(col as int, row as int),
    {
        if col < 0 || row < 0 || col >= self.cols as i64 || row >= self.rows as i64 {
            return false;
        }
        proof {
            lemma_offset_in_bounds(self@.cols, self@.rows, col as int, row as int);
        }
        let offset = ((row as usize) * (self.cols as usize) + col as usize) * 4;
        self.pixels[offset + 3] >= OPAQUE_ALPHA_THRESHOLD
    }

    pub fn colour(&self, col: u32, row: u32) -> (colour: [u8; 4])
        requires
            self@.wf(),
            col < self@.cols,
            row < self@.rows,
        ensures
            colour@ == self@.colour(col as int, row as int),
    {
        proof {
            lemma_offset_in_bounds(self@.cols, self@.rows, col as int, row as int);
        }
        let offset = ((row as usize) * (self.cols as usize) + col as usize) * 4;
        let c = [
            self.pixels[offset],
            self.pixels[offset + 1],
            self.pixels[offset + 2],
            self.pixels[offset + 3],
        ];
        assert(c@ =~= self@.colour(col as int, row as int));
        c
    }
}

/// The nearest-neighbour source index stays inside the source.
proof fn lemma_index_scale(i: nat, n_source: nat, n: nat)
    requires
        i < n,
        1 <= n <= n_source,
        n_source <= u32::MAX,
    ensures
        i * n_source <= u64::MAX,
        i * n_source / n < n_source,
{
    assert(i * n_source <= u32::MAX * u32::MAX) by (nonlinear_arith)
        requires
            i < n <= n_source <= u32::MAX,
    ;
    assert(i * n_source < n * n_source) by (nonlinear_arith)
        requires
            i < n,
            n_source >= 1,
    ;
    vstd::arithmetic::div_mod::lemma_div_by_multiple_is_strongly_ordered(
        i as int * n_source as int,
        n as int * n_source as int,
        n_source as int,
        n as int,
    );
    assert(n * n_source == n_source * n) by (nonlinear_arith);
    vstd::arithmetic::div_mod::lemma_div_by_multiple(n_source as int, n as int);
}

/// The bytes of cell `(col, row)` are at the offsets whose quarter names it.
proof fn lemma_cell_of_offset(cols: nat, col: nat, row: nat, c: int)
    requires
        col < cols,
        0 <= c < 4,
    ensures
        ((offset_of(cols, col as int, row as int) + c) / 4) % (cols as int) == col,
        ((offset_of(cols, col as int, row as int) + c) / 4) / (cols as int) == row,
        (offset_of(cols, col as int, row as int) + c) % 4 == c,
{
    let cell = row * cols + col;
    vstd::arithmetic::div_mod::lemma_fundamental_div_mod_converse(cell * 4 + c, 4, cell as int, c);
    vstd::arithmetic::div_mod::lemma_fundamental_div_mod_converse(
        cell as int,
        cols as int,
        row as int,
        col as int,
    );
    assert(row * cols == cols * row) by (nonlinear_arith);
}

/// One frame's model.
#[derive(Debug, Clone, PartialEq, Eq)]
pub struct VoxelMesh {
    pub vertices: Vec<VoxelVertex>,
    pub indices: Vec<u32>,
    /// Grid the mesh was built on, in voxels: `[cols, rows, depth]`.
    pub extent: [u32; 3],
}

impl VoxelMesh {
    pub fn is_empty(&self) -> (empty: bool)
        ensures
            empty == (self.indices@.len() == 0),
    {
        self.indices.len() == 0
    }

    pub fn quad_count(&self) -> (count: usize)
        ensures
            count == self.indices@.len() / 6,
    {
        self.indices.len() / 6
    }
}

/// The near corner of cell `(col, row)`'s box, in half voxels.
pub open spec fn box_lo(cols: nat, depth: nat, col: int, row: int) -> Seq<i64> {
    seq![(2 * col - cols) as i64, (2 * row) as i64, (-(depth as int)) as i64]
}

/// The far corner of cell `(col, row)`'s box, in half voxels.
pub open spec fn box_hi(cols: nat, depth: nat, col: int, row: int) -> Seq<i64> {
    seq![(2 * col - cols + 2) as i64, (2 * row + 2) as i64, depth as i64]
}

/// Which vertex of its quad each of the six indices of a quad names: two
/// triangles sharing the first and third corners.
pub open spec fn quad_index(t: int) -> int {
    if t == 0 {
        0
    } else if t == 1 {
        1
    } else if t == 2 {
        2
    } else if t == 3 {
        0
    } else if t == 4 {
        2
    } else {
        3
    }
}

/// Whether `vertices` and `indices` are exactly the geometry of `quads` on
/// grid `g` at slab depth `depth`.
pub open spec fn mesh_of(
    g: GridModel,
    depth: nat,
    quads: Seq<(int, int, Face)>,
    vertices: Seq<VoxelVertex>,
    indices: Seq<u32>,
) -> bool {
    &&& vertices.len() == 4 * quads.len()
    &&& indices.len() == 6 * quads.len()
    &&& forall|q: int, j: int|
        0 <= q < quads.len() && 0 <= j < 4 ==> {
            let (col, row, face) = quads[q];
            let v = #[trigger] vertices[4 * q + j];
            &&& v.position@ == spec_corner(
                face,
                box_lo(g.cols, depth, col, row),
                box_hi(g.cols, depth, col, row),
                j,
            )
            &&& v.normal@ == spec_normal(face)
            &&& v.colour@ == g.colour(col, row)
        }
    &&& forall|q: int, t: int|
        0 <= q < quads.len() && 0 <= t < 6 ==> #[trigger] indices[6 * q + t] == 4 * q + quad_index(
            t,
        )
}

/// The model of a frame at the given options: the fitted grid, the slab depth
/// (never zero), and the mesh of every exposed face.
pub open spec fn depth_of(options: VoxelOptions) -> nat {
    max1(options.depth as nat)
}

/// Which of a voxel's faces something else is not already hiding.
///
/// Front and back always show: the slab is one box deep, so nothing is behind
/// either of them.
pub fn exposed_faces(grid: &VoxelGrid, col: u32, row: u32) -> (faces: Vec<Face>)
    requires
        grid@.wf(),
    ensures
        faces@ == grid@.exposed(col as int, row as int),
{
    let (c, r) = (col as i64, row as i64);
    let mut faces = vec![Face::Front, Face::Back];
    let ghost expected = grid@.exposed(col as int, row as int);
    if !grid.is_opaque(c - 1, r) {
        faces.push(Face::Left);
    }
    if !grid.is_opaque(c + 1, r) {
        faces.push(Face::Right);
    }
    if !grid.is_opaque(c, r - 1) {
        faces.push(Face::Top);
    }
    if !grid.is_opaque(c, r + 1) {
        faces.push(Face::Bottom);
    }
    assert(faces@ =~= expected);
    faces
}

fn push_quad(
    mesh: &mut VoxelMesh,
    face: Face,
    min: [i64; 3],
    max: [i64; 3],
    colour: [u8; 4],
)
    requires
        old(mesh).vertices@.len() + 4 <= u32::MAX,
    ensures
        final(mesh).extent == old(mesh).extent,
        final(mesh).vertices@.len() == old(mesh).vertices@.len() + 4,
        final(mesh).indices@.len() == old(mesh).indices@.len() + 6,
        forall|k: int|
            0 <= k < old(mesh).vertices@.len() ==> #[trigger] final(mesh).vertices@[k] == old(
                mesh,
            ).vertices@[k],
        forall|k: int|
            0 <= k < old(mesh).indices@.len() ==> #[trigger] final(mesh).indices@[k] == old(
                mesh,
            ).indices@[k],
        forall|j: int|
            0 <= j < 4 ==> {
                let v = #[trigger] final(mesh).vertices@[old(mesh).vertices@.len() + j];
                &&& v.position@ == spec_corner(face, min@, max@, j)
                &&& v.normal@ == spec_normal(face)
                &&& v.colour == colour
            },
        forall|t: int|
            0 <= t < 6 ==> #[trigger] final(mesh).indices@[old(mesh).indices@.len() + t]
                == old(mesh).vertices@.len() + quad_index(t),
{
    let base = mesh.vertices.len() as u32;
    let normal = face.normal();
    let corners = face.corners(min, max);
    let mut j: usize = 0;
    while j < 4
        invariant
            j <= 4,
            base == old(mesh).vertices@.len(),
            mesh.extent == old(mesh).extent,
            mesh.indices == old(mesh).indices,
            mesh.vertices@.len() == old(mesh).vertices@.len() + j,
            normal@ == spec_normal(face),
            forall|j: int| 0 <= j < 4 ==> #[trigger] corners[j]@ == spec_corner(face, min@, max@, j),
            forall|k: int|
                0 <= k < old(mesh).vertices@.len() ==> #[trigger] mesh.vertices@[k] == old(
                    mesh,
                ).vertices@[k],
            forall|i: int|
                0 <= i < j ==> {
                    let v = #[trigger] mesh.vertices@[old(mesh).vertices@.len() + i];
                    &&& v.position@ == spec_corner(face, min@, max@, i)
                    &&& v.normal@ == spec_normal(face)
                    &&& v.colour == colour
                },
        decreases 4 - j,
    {
        mesh.vertices.push(VoxelVertex { position: corners[j], normal, colour });
        j = j + 1;
    }
    mesh.indices.push(base);
    mesh.indices.push(base + 1);
    mesh.indices.push(base + 2);
    mesh.indices.push(base);
    mesh.indices.push(base + 2);
    mesh.indices.push(base + 3);
}

proof fn lemma_cell_quads_len(g: GridModel, col: int, row: int)
    ensures
        g.cell_quads(col, row).len() <= 6,
{
}

/// The quads of the cells before `(row, col)` number at most six a cell.
proof fn lemma_quads_before_len(g: GridModel, row: nat, col: nat)
    requires
        col <= g.cols,
    ensures
        g.quads_before(row, col).len() <= 6 * (row * g.cols + col),
    decreases row, col,
{
    if col > 0 {
        lemma_quads_before_len(g, row, (col - 1) as nat);
        lemma_cell_quads_len(g, col - 1, row as int);
    } else if row > 0 {
        lemma_quads_before_len(g, (row - 1) as nat, g.cols);
        assert((row - 1) * g.cols + g.cols == row * g.cols) by (nonlinear_arith);
    }
}

/// Extrudes one frame into a mesh.
///
/// A face is emitted only where the neighbour that would hide it is
/// transparent, so a solid pet costs two quads a pixel plus its silhouette.
pub fn build(frame: &Image, options: VoxelOptions) -> (mesh: VoxelMesh)
    requires
        frame.wf(),
        frame@.width > 0,
        frame@.height > 0,
        spec_fit(frame@, options.max_width as nat).cols * spec_fit(
            frame@,
            options.max_width as nat,
        ).rows * 24 + 4 <= u32::MAX,
    ensures
        ({
            let g = spec_fit(frame@, options.max_width as nat);
            &&& mesh.extent@ == seq![g.cols as u32, g.rows as u32, depth_of(options) as u32]
            &&& mesh_of(g, depth_of(options), g.quads(), mesh.vertices@, mesh.indices@)
        }),
{
    let grid = VoxelGrid::fit(frame, options.max_width);
    let ghost g = grid@;
    let depth: u32 = if options.depth < 1 {
        1
    } else {
        options.depth
    };
    let mut mesh = VoxelMesh {
        vertices: Vec::new(),
        indices: Vec::new(),
        extent: [grid.cols, grid.rows, depth],
    };
    let cols = grid.cols;
    let rows = grid.rows;
    let mut row: u32 = 0;
    while row < rows
        invariant
            g == grid@,
            g.wf(),
            g == spec_fit(frame@, options.max_width as nat),
            cols == g.cols,
            rows == g.rows,
            cols * rows * 24 + 4 <= u32::MAX,
            depth as nat == depth_of(options),
            mesh.extent@ == seq![cols, rows, depth],
            row <= rows,
            mesh_of(g, depth as nat, g.quads_before(row as nat, 0), mesh.vertices@, mesh.indices@),
        decreases rows - row,
    {
        let mut col: u32 = 0;
        while col < cols
            invariant
                g == grid@,
                g.wf(),
                cols == g.cols,
                rows == g.rows,
                cols * rows * 24 + 4 <= u32::MAX,
                depth as nat == depth_of(options),
                mesh.extent@ == seq![cols, rows, depth],
                row < rows,
                col <= cols,
                mesh_of(
                    g,
                    depth as nat,
                    g.quads_before(row as nat, col as nat),
                    mesh.vertices@,
                    mesh.indices@,
                ),
            decreases cols - col,
        {
            let ghost before = g.quads_before(row as nat, col as nat);
            proof {
                lemma_quads_before_len(g, row as nat, col as nat);
                assert((row * cols + col + 1) * 24 <= cols * rows * 24) by (nonlinear_arith)
                    requires
                        row < rows,
                        col < cols,
                ;
                assert(g.quads_before(row as nat, (col + 1) as nat) == before + g.cell_quads(
                    col as int,
                    row as int,
                ));
            }
            if grid.is_opaque(col as i64, row as i64) {
                let lo: [i64; 3] = [
                    2 * (col as i64) - (cols as i64),
                    2 * (row as i64),
                    -(depth as i64),
                ];
                let hi: [i64; 3] = [
                    2 * (col as i64) - (cols as i64) + 2,
                    2 * (row as i64) + 2,
                    depth as i64,
                ];
                assert(lo@ =~= box_lo(g.cols, depth as nat, col as int, row as int));
                assert(hi@ =~= box_hi(g.cols, depth as nat, col as int, row as int));
                let colour = grid.colour(col, row);
                let faces = exposed_faces(&grid, col, row);
                let ghost tagged = g.cell_quads(col as int, row as int);
                assert(tagged =~= faces@.map_values(|f: Face| (col as int, row as int, f)));
                let mut f: usize = 0;
                assert(tagged.take(0) =~= Seq::<(int, int, Face)>::empty());
                assert(before + tagged.take(0) =~= before);
                while f < faces.len()
                    invariant
                        g == grid@,
                        g.wf(),
                        cols == g.cols,
                        depth as nat == depth_of(options),
                        mesh.extent@ == seq![cols, rows, depth],
                        f <= faces@.len(),
                        faces@.len() <= 6,
                        tagged == faces@.map_values(|f: Face| (col as int, row as int, f)),
                        before.len() * 4 + 28 <= u32::MAX,
                        lo@ == box_lo(g.cols, depth as nat, col as int, row as int),
                        hi@ == box_hi(g.cols, depth as nat, col as int, row as int),
                        colour@ == g.colour(col as int, row as int),
                        mesh_of(
                            g,
                            depth as nat,
                            before + tagged.take(f as int),
                            mesh.vertices@,
                            mesh.indices@,
                        ),
                    decreases faces@.len() - f,
                {
                    let ghost done = before + tagged.take(f as int);
                    let ghost old_vertices = mesh.vertices@;
                    let ghost old_indices = mesh.indices@;
                    push_quad(&mut mesh, faces[f], lo, hi, colour);
                    proof {
                        let next = before + tagged.take(f + 1);
                        assert(next =~= done.push((col as int, row as int, faces@[f as int])));
                        let q0 = done.len() as int;
                        assert forall|q: int, j: int| 0 <= q < next.len() && 0 <= j < 4 implies {
                            let (c2, r2, face2) = next[q];
                            let v = #[trigger] mesh.vertices@[4 * q + j];
                            &&& v.position@ == spec_corner(
                                face2,
                                box_lo(g.cols, depth as nat, c2, r2),
                                box_hi(g.cols, depth as nat, c2, r2),
                                j,
                            )
                            &&& v.normal@ == spec_normal(face2)
                            &&& v.colour@ == g.colour(c2, r2)
                        } by {
                            if q < q0 {
                                assert(mesh.vertices@[4 * q + j] == old_vertices[4 * q + j]);
                            } else {
                                assert(4 * q + j == old_vertices.len() + j);
                            }
                        }
                        assert forall|q: int, t: int| 0 <= q < next.len() && 0 <= t < 6 implies #[trigger] mesh.indices@[6
                            * q + t] == 4 * q + quad_index(t) by {
                            if q < q0 {
                                assert(mesh.indices@[6 * q + t] == old_indices[6 * q + t]);
                            } else {
                                assert(6 * q + t == old_indices.len() + t);
                            }
                        }
                    }
                    f = f + 1;
                }
                assert(tagged.take(faces@.len() as int) =~= tagged);
            } else {
                assert(g.cell_quads(col as int, row as int) =~= Seq::<(int, int, Face)>::empty());
                assert(before + g.cell_quads(col as int, row as int) =~= before);
            }
            col = col + 1;
        }
        assert(g.quads_before((row + 1) as nat, 0) == g.quads_before(row as nat, cols as nat));
        row = row + 1;
    }
    mesh
}

/// Whether `face` of cell `(col, row)` shows: front and back always, a side
/// only where the neighbour on that side is not solid.
pub open spec fn face_shows(g: GridModel, col: int, row: int, face: Face) -> bool {
    match face {
        Face::Front => true,
        Face::Back => true,
        Face::Left => !g.opaque(col - 1, row),
        Face::Right => !g.opaque(col + 1, row),
        Face::Top => !g.opaque(col, row - 1),
        Face::Bottom => !g.opaque(col, row + 1),
    }
}

proof fn lemma_cell_quads_show(g: GridModel, col: int, row: int)
    ensures
        forall|k: int|
            0 <= k < g.cell_quads(col, row).len() ==> {
                let (c, r, f) = #[trigger] g.cell_quads(col, row)[k];
                &&& c == col
                &&& r == row
                &&& g.opaque(c, r)
                &&& face_shows(g, c, r, f)
            },
{
    if g.opaque(col, row) {
        let faces = g.exposed(col, row);
        assert forall|k: int| 0 <= k < faces.len() implies face_shows(g, col, row, #[trigger] faces[k]) by {
            let a = seq![Face::Front, Face::Back];
            let l: Seq<Face> = if !g.opaque(col - 1, row) { seq![Face::Left] } else { Seq::empty() };
            let rr: Seq<Face> = if !g.opaque(col + 1, row) { seq![Face::Right] } else { Seq::empty() };
            let t: Seq<Face> = if !g.opaque(col, row - 1) { seq![Face::Top] } else { Seq::empty() };
            let b: Seq<Face> = if !g.opaque(col, row + 1) { seq![Face::Bottom] } else { Seq::empty() };
            assert(faces == a + l + rr + t + b);
        }
    }
}

proof fn lemma_quads_before_show(g: GridModel, row: nat, col: nat)
    ensures
        forall|k: int|
            0 <= k < g.quads_before(row, col).len() ==> {
                let (c, r, f) = #[trigger] g.quads_before(row, col)[k];
                &&& g.opaque(c, r)
                &&& face_shows(g, c, r, f)
            },
    decreases row, col,
{
    if col > 0 {
        lemma_quads_before_show(g, row, (col - 1) as nat);
        lemma_cell_quads_show(g, col - 1, row as int);
        let a = g.quads_before(row, (col - 1) as nat);
        let b = g.cell_quads(col - 1, row as int);
        assert forall|k: int| 0 <= k < (a + b).len() implies {
            let (c, r, f) = #[trigger] (a + b)[k];
            &&& g.opaque(c, r)
            &&& face_shows(g, c, r, f)
        } by {
            if k >= a.len() {
                assert((a + b)[k] == b[k - a.len()]);
            } else {
                assert((a + b)[k] == a[k]);
            }
        }
    } else if row > 0 {
        lemma_quads_before_show(g, (row - 1) as nat, g.cols);
    }
}

/// A mesh has a face only on a solid voxel, and only where nothing hides it:
/// front and back always, a side only against a transparent neighbour.
pub proof fn law_faces_only_where_they_show(g: GridModel)
    ensures
        forall|k: int|
            0 <= k < g.quads().len() ==> {
                let (c, r, f) = #[trigger] g.quads()[k];
                &&& g.opaque(c, r)
                &&& face_shows(g, c, r, f)
            },
{
    lemma_quads_before_show(g, g.rows, 0);
}

/// Every solid voxel shows its front and back: two quads a pixel, plus one
/// for each side against a transparent neighbour.
pub proof fn law_two_quads_a_pixel_plus_the_silhouette(g: GridModel, col: int, row: int)
    ensures
        g.cell_quads(col, row).len() == if g.opaque(col, row) {
            2 + (if !g.opaque(col - 1, row) { 1int } else { 0 }) + (if !g.opaque(col + 1, row) {
                1int
            } else {
                0
            }) + (if !g.opaque(col, row - 1) { 1int } else { 0 }) + (if !g.opaque(col, row + 1) {
                1int
            } else {
                0
            })
        } else {
            0
        },
{
}

/// Every index of a mesh names one of its vertices, and the four vertices of
/// each quad share that quad's face normal.
pub proof fn law_indices_address_the_vertices(
    g: GridModel,
    depth: nat,
    quads: Seq<(int, int, Face)>,
    vertices: Seq<VoxelVertex>,
    indices: Seq<u32>,
)
    requires
        mesh_of(g, depth, quads, vertices, indices),
    ensures
        forall|k: int| 0 <= k < indices.len() ==> #[trigger] indices[k] < vertices.len(),
        forall|q: int, j: int|
            0 <= q < quads.len() && 0 <= j < 4 ==> (#[trigger] vertices[4 * q + j]).normal@
                == spec_normal(quads[q].2),
{
    assert forall|k: int| 0 <= k < indices.len() implies #[trigger] indices[k] < vertices.len() by {
        let q = k / 6;
        let t = k % 6;
        assert(k == 6 * q + t && 0 <= t < 6 && 0 <= q < quads.len()) by (nonlinear_arith)
            requires
                0 <= k < indices.len(),
                indices.len() == 6 * quads.len(),
                q == k / 6,
                t == k % 6,
        ;
        assert(indices[6 * q + t] == 4 * q + quad_index(t));
        assert(4 * q + quad_index(t) < 4 * quads.len()) by (nonlinear_arith)
            requires
                0 <= q < quads.len(),
                0 <= quad_index(t) <= 3,
        ;
    }
}


/// Byte `c` of cell `(col, row)` of a fitted grid is the fitted byte for
/// that cell and channel.
proof fn lemma_fitted_cell_byte(frame: ImageModel, max_width: nat, col: int, row: int, c: int)
    requires
        0 <= col < spec_fit(frame, max_width).cols,
        0 <= row < spec_fit(frame, max_width).rows,
        0 <= c < 4,
    ensures
        ({
            let g = spec_fit(frame, max_width);
            g.byte(col, row, c) == fitted_byte(frame, g.cols, g.rows, col as nat, row as nat, c as nat)
        }),
{
    let g = spec_fit(frame, max_width);
    let cols = g.cols as int;
    let cell = row * cols + col;
    let k = cell * 4 + c;
    assert(offset_of(g.cols, col, row) + c == k);
    assert(0 <= k < g.cols * g.rows * 4) by (nonlinear_arith)
        requires
            cols == g.cols,
            0 <= col < cols,
            0 <= row < g.rows,
            0 <= c < 4,
            k == (row * cols + col) * 4 + c,
    ;
    vstd::arithmetic::div_mod::lemma_fundamental_div_mod_converse(k, 4, cell, c);
    vstd::arithmetic::div_mod::lemma_fundamental_div_mod_converse(cell, cols, row, col);
}

/// A fitted grid's cells are solid or clear: alpha is 255 exactly on a
/// solid cell and 0 otherwise, and a clear cell is zero in every channel.
pub proof fn law_fitted_cells_are_solid_or_clear(frame: ImageModel, max_width: nat, col: int, row: int)
    requires
        0 <= col < spec_fit(frame, max_width).cols,
        0 <= row < spec_fit(frame, max_width).rows,
    ensures
        ({
            let g = spec_fit(frame, max_width);
            &&& g.byte(col, row, 3) == 0 || g.byte(col, row, 3) == 255
            &&& (g.byte(col, row, 3) == 255 <==> g.opaque(col, row))
            &&& g.byte(col, row, 3) == 0 ==> g.colour(col, row) == seq![0u8, 0u8, 0u8, 0u8]
        }),
{
    lemma_fitted_cell_byte(frame, max_width, col, row, 0);
    lemma_fitted_cell_byte(frame, max_width, col, row, 1);
    lemma_fitted_cell_byte(frame, max_width, col, row, 2);
    lemma_fitted_cell_byte(frame, max_width, col, row, 3);
}


/// A fitted grid has no more cells than its frame has pixels.
pub proof fn lemma_fit_within_frame(frame: ImageModel, max_width: nat)
    requires
        frame.width > 0,
        frame.height > 0,
    ensures
        spec_fit(frame, max_width).cols * spec_fit(frame, max_width).rows <= frame.width
            * frame.height,
{
    let w = frame.width;
    let h = frame.height;
    let cols = fit_cols(w, max_width);
    let rows = fit_rows(w, h, cols);
    assert(cols <= w);
    if cols != w {
        assert(h * cols / w <= h) by (nonlinear_arith)
            requires
                cols <= w,
                w > 0,
        {
            vstd::arithmetic::div_mod::lemma_div_is_ordered((h * cols) as int, (h * w) as int, w as int);
            vstd::arithmetic::div_mod::lemma_div_by_multiple(h as int, w as int);
        }
    }
    assert(rows <= h);
    assert(cols * rows <= w * h) by (nonlinear_arith)
        requires
            cols <= w,
            rows <= h,
    ;
}


/// `n . (2c - lo - hi)` over the three axes: positive when `n` points from
/// the box's centre towards `c`.
pub open spec fn outward(n: Seq<i8>, c: Seq<i64>, lo: Seq<i64>, hi: Seq<i64>) -> int {
    n[0] * (2 * c[0] - lo[0] - hi[0]) + n[1] * (2 * c[1] - lo[1] - hi[1]) + n[2] * (2 * c[2] - lo[2]
        - hi[2])
}

/// `n . (a - b)` over the three axes.
pub open spec fn along(n: Seq<i8>, a: Seq<i64>, b: Seq<i64>) -> int {
    n[0] * (a[0] - b[0]) + n[1] * (a[1] - b[1]) + n[2] * (a[2] - b[2])
}

/// Each face's normal points out of the box on that face's own side: it is
/// one full unit along one axis, perpendicular to the face (its corners
/// differ only across it), and points from the box's centre towards every
/// corner of the face; opposite faces have opposite normals.
#[verifier::spinoff_prover]
#[verifier::rlimit(30)]
pub proof fn law_normals_point_out_of_their_face(face: Face, lo: Seq<i64>, hi: Seq<i64>, j: int)
    requires
        lo.len() == 3,
        hi.len() == 3,
        lo[0] < hi[0],
        lo[1] < hi[1],
        lo[2] < hi[2],
        0 <= j < 4,
    ensures
        spec_normal(face).len() == 4,
        spec_normal(face)[3] == 0,
        forall|k: int|
            0 <= k < 3 ==> #[trigger] spec_normal(face)[k] == 0 || spec_normal(face)[k] == NORMAL_UNIT
                || spec_normal(face)[k] == -NORMAL_UNIT,
        (if spec_normal(face)[0] != 0 { 1int } else { 0 }) + (if spec_normal(face)[1] != 0 {
            1int
        } else {
            0
        }) + (if spec_normal(face)[2] != 0 { 1int } else { 0 }) == 1,
        outward(spec_normal(face), spec_corner(face, lo, hi, j), lo, hi) > 0,
        along(spec_normal(face), spec_corner(face, lo, hi, j), spec_corner(face, lo, hi, 0)) == 0,
        forall|k: int|
            0 <= k < 4 ==> {
                &&& #[trigger] spec_normal(Face::Bottom)[k] == -spec_normal(Face::Top)[k]
                &&& spec_normal(Face::Right)[k] == -spec_normal(Face::Left)[k]
                &&& spec_normal(Face::Front)[k] == -spec_normal(Face::Back)[k]
            },
{
    let n = spec_normal(face);
    let c = spec_corner(face, lo, hi, j);
    let c0 = spec_corner(face, lo, hi, 0);
    assert(n.len() == 4 && c.len() == 3 && c0.len() == 3);
    if j == 0 {
        assert(c == c0);
    } else if j == 1 {
        assert(c.len() == 3);
    } else if j == 2 {
        assert(c.len() == 3);
    } else {
        assert(c.len() == 3);
    }
    match face {
        Face::Front => {
            assert(n[0] == 0 && n[1] == 0 && n[2] == 127);
            assert(c[2] == hi[2] && c0[2] == hi[2]);
            assert(along(n, c, c0) == 0) by (nonlinear_arith)
                requires
                    n[0] == 0,
                    n[1] == 0,
                    c[2] == c0[2],
            ;
            assert(outward(n, c, lo, hi) > 0) by (nonlinear_arith)
                requires
                    n[0] == 0,
                    n[1] == 0,
                    n[2] == 127,
                    c[2] == hi[2],
                    lo[2] < hi[2],
            ;
        },
        Face::Back => {
            assert(n[0] == 0 && n[1] == 0 && n[2] == -127);
            assert(c[2] == lo[2] && c0[2] == lo[2]);
            assert(along(n, c, c0) == 0) by (nonlinear_arith)
                requires
                    n[0] == 0,
                    n[1] == 0,
                    c[2] == c0[2],
            ;
            assert(outward(n, c, lo, hi) > 0) by (nonlinear_arith)
                requires
                    n[0] == 0,
                    n[1] == 0,
                    n[2] == -127,
                    c[2] == lo[2],
                    lo[2] < hi[2],
            ;
        },
        Face::Left => {
            assert(n[0] == -127 && n[1] == 0 && n[2] == 0);
            assert(c[0] == lo[0] && c0[0] == lo[0]);
            assert(along(n, c, c0) == 0) by (nonlinear_arith)
                requires
                    n[1] == 0,
                    n[2] == 0,
                    c[0] == c0[0],
            ;
            assert(outward(n, c, lo, hi) > 0) by (nonlinear_arith)
                requires
                    n[1] == 0,
                    n[2] == 0,
                    n[0] == -127,
                    c[0] == lo[0],
                    lo[0] < hi[0],
            ;
        },
        Face::Right => {
            assert(n[0] == 127 && n[1] == 0 && n[2] == 0);
            assert(c[0] == hi[0] && c0[0] == hi[0]);
            assert(along(n, c, c0) == 0) by (nonlinear_arith)
                requires
                    n[1] == 0,
                    n[2] == 0,
                    c[0] == c0[0],
            ;
            assert(outward(n, c, lo, hi) > 0) by (nonlinear_arith)
                requires
                    n[1] == 0,
                    n[2] == 0,
                    n[0] == 127,
                    c[0] == hi[0],
                    lo[0] < hi[0],
            ;
        },
        Face::Top => {
            assert(n[0] == 0 && n[1] == -127 && n[2] == 0);
            assert(c[1] == lo[1] && c0[1] == lo[1]);
            assert(along(n, c, c0) == 0) by (nonlinear_arith)
                requires
                    n[0] == 0,
                    n[2] == 0,
                    c[1] == c0[1],
            ;
            assert(outward(n, c, lo, hi) > 0) by (nonlinear_arith)
                requires
                    n[0] == 0,
                    n[2] == 0,
                    n[1] == -127,
                    c[1] == lo[1],
                    lo[1] < hi[1],
            ;
        },
        Face::Bottom => {
            assert(n[0] == 0 && n[1] == 127 && n[2] == 0);
            assert(c[1] == hi[1] && c0[1] == hi[1]);
            assert(along(n, c, c0) == 0) by (nonlinear_arith)
                requires
                    n[0] == 0,
                    n[2] == 0,
                    c[1] == c0[1],
            ;
            assert(outward(n, c, lo, hi) > 0) by (nonlinear_arith)
                requires
                    n[0] == 0,
                    n[2] == 0,
                    n[1] == 127,
                    c[1] == hi[1],
                    lo[1] < hi[1],
            ;
        },
    }
}


/// `n . ((b - a) x (c - a))`: negative when `a`, `b`, `c` turn clockwise
/// seen from where `n` points.
pub open spec fn turn(n: Seq<i8>, a: Seq<i64>, b: Seq<i64>, c: Seq<i64>) -> int {
    let (ux, uy, uz) = (b[0] - a[0], b[1] - a[1], b[2] - a[2]);
    let (vx, vy, vz) = (c[0] - a[0], c[1] - a[1], c[2] - a[2]);
    n[0] * (uy * vz - uz * vy) + n[1] * (uz * vx - ux * vz) + n[2] * (ux * vy - uy * vx)
}

/// Every face is wound the same way: seen from outside the box, each three
/// consecutive corners of a face turn the same way, so the four corners go
/// round the face once and every face's triangles face outward alike.
#[verifier::spinoff_prover]
#[verifier::rlimit(30)]
pub proof fn law_faces_are_wound_alike(face: Face, lo: Seq<i64>, hi: Seq<i64>, i: int)
    requires
        lo.len() == 3,
        hi.len() == 3,
        lo[0] < hi[0],
        lo[1] < hi[1],
        lo[2] < hi[2],
        0 <= i < 4,
    ensures
        turn(
            spec_normal(face),
            spec_corner(face, lo, hi, i),
            spec_corner(face, lo, hi, (i + 1) % 4),
            spec_corner(face, lo, hi, (i + 2) % 4),
        ) < 0,
{
    assert((i + 1) % 4 == (if i == 3 { 0 } else { i + 1 }));
    assert((i + 2) % 4 == (if i >= 2 { i - 2 } else { i + 2 }));
    match face {
        Face::Front => {
            if i == 0 {
                let a = spec_corner(face, lo, hi, 0);
                let b = spec_corner(face, lo, hi, 1);
                let c = spec_corner(face, lo, hi, 2);
                assert(turn(spec_normal(face), a, b, c) < 0) by (nonlinear_arith)
                    requires
                        spec_normal(face)[0] == 0,
                        spec_normal(face)[1] == 0,
                        spec_normal(face)[2] == 127,
                        lo[0] < hi[0],
                        lo[1] < hi[1],
                        lo[2] < hi[2],
                        a[0] == lo[0],
                        a[1] == lo[1],
                        a[2] == hi[2],
                        b[0] == lo[0],
                        b[1] == hi[1],
                        b[2] == hi[2],
                        c[0] == hi[0],
                        c[1] == hi[1],
                        c[2] == hi[2],
                ;
            }
            if i == 1 {
                let a = spec_corner(face, lo, hi, 1);
                let b = spec_corner(face, lo, hi, 2);
                let c = spec_corner(face, lo, hi, 3);
                assert(turn(spec_normal(face), a, b, c) < 0) by (nonlinear_arith)
                    requires
                        spec_normal(face)[0] == 0,
                        spec_normal(face)[1] == 0,
                        spec_normal(face)[2] == 127,
                        lo[0] < hi[0],
                        lo[1] < hi[1],
                        lo[2] < hi[2],
                        a[0] == lo[0],
                        a[1] == hi[1],
                        a[2] == hi[2],
                        b[0] == hi[0],
                        b[1] == hi[1],
                        b[2] == hi[2],
                        c[0] == hi[0],
                        c[1] == lo[1],
                        c[2] == hi[2],
                ;
            }
            if i == 2 {
                let a = spec_corner(face, lo, hi, 2);
                let b = spec_corner(face, lo, hi, 3);
                let c = spec_corner(face, lo, hi, 0);
                assert(turn(spec_normal(face), a, b, c) < 0) by (nonlinear_arith)
                    requires
                        spec_normal(face)[0] == 0,
                        spec_normal(face)[1] == 0,
                        spec_normal(face)[2] == 127,
                        lo[0] < hi[0],
                        lo[1] < hi[1],
                        lo[2] < hi[2],
                        a[0] == hi[0],
                        a[1] == hi[1],
                        a[2] == hi[2],
                        b[0] == hi[0],
                        b[1] == lo[1],
                        b[2] == hi[2],
                        c[0] == lo[0],
                        c[1] == lo[1],
                        c[2] == hi[2],
                ;
            }
            if i == 3 {
                let a = spec_corner(face, lo, hi, 3);
                let b = spec_corner(face, lo, hi, 0);
                let c = spec_corner(face, lo, hi, 1);
                assert(turn(spec_normal(face), a, b, c) < 0) by (nonlinear_arith)
                    requires
                        spec_normal(face)[0] == 0,
                        spec_normal(face)[1] == 0,
                        spec_normal(face)[2] == 127,
                        lo[0] < hi[0],
                        lo[1] < hi[1],
                        lo[2] < hi[2],
                        a[0] == hi[0],
                        a[1] == lo[1],
                        a[2] == hi[2],
                        b[0] == lo[0],
                        b[1] == lo[1],
                        b[2] == hi[2],
                        c[0] == lo[0],
                        c[1] == hi[1],
                        c[2] == hi[2],
                ;
            }
        },
        Face::Back => {
            if i == 0 {
                let a = spec_corner(face, lo, hi, 0);
                let b = spec_corner(face, lo, hi, 1);
                let c = spec_corner(face, lo, hi, 2);
                assert(turn(spec_normal(face), a, b, c) < 0) by (nonlinear_arith)
                    requires
                        spec_normal(face)[0] == 0,
                        spec_normal(face)[1] == 0,
                        spec_normal(face)[2] == -127,
                        lo[0] < hi[0],
                        lo[1] < hi[1],
                        lo[2] < hi[2],
                        a[0] == hi[0],
                        a[1] == lo[1],
                        a[2] == lo[2],
                        b[0] == hi[0],
                        b[1] == hi[1],
                        b[2] == lo[2],
                        c[0] == lo[0],
                        c[1] == hi[1],
                        c[2] == lo[2],
                ;
            }
            if i == 1 {
                let a = spec_corner(face, lo, hi, 1);
                let b = spec_corner(face, lo, hi, 2);
                let c = spec_corner(face, lo, hi, 3);
                assert(turn(spec_normal(face), a, b, c) < 0) by (nonlinear_arith)
                    requires
                        spec_normal(face)[0] == 0,
                        spec_normal(face)[1] == 0,
                        spec_normal(face)[2] == -127,
                        lo[0] < hi[0],
                        lo[1] < hi[1],
                        lo[2] < hi[2],
                        a[0] == hi[0],
                        a[1] == hi[1],
                        a[2] == lo[2],
                        b[0] == lo[0],
                        b[1] == hi[1],
                        b[2] == lo[2],
                        c[0] == lo[0],
                        c[1] == lo[1],
                        c[2] == lo[2],
                ;
            }
            if i == 2 {
                let a = spec_corner(face, lo, hi, 2);
                let b = spec_corner(face, lo, hi, 3);
                let c = spec_corner(face, lo, hi, 0);
                assert(turn(spec_normal(face), a, b, c) < 0) by (nonlinear_arith)
                    requires
                        spec_normal(face)[0] == 0,
                        spec_normal(face)[1] == 0,
                        spec_normal(face)[2] == -127,
                        lo[0] < hi[0],
                        lo[1] < hi[1],
                        lo[2] < hi[2],
                        a[0] == lo[0],
                        a[1] == hi[1],
                        a[2] == lo[2],
                        b[0] == lo[0],
                        b[1] == lo[1],
                        b[2] == lo[2],
                        c[0] == hi[0],
                        c[1] == lo[1],
                        c[2] == lo[2],
                ;
            }
            if i == 3 {
                let a = spec_corner(face, lo, hi, 3);
                let b = spec_corner(face, lo, hi, 0);
                let c = spec_corner(face, lo, hi, 1);
                assert(turn(spec_normal(face), a, b, c) < 0) by (nonlinear_arith)
                    requires
                        spec_normal(face)[0] == 0,
                        spec_normal(face)[1] == 0,
                        spec_normal(face)[2] == -127,
                        lo[0] < hi[0],
                        lo[1] < hi[1],
                        lo[2] < hi[2],
                        a[0] == lo[0],
                        a[1] == lo[1],
                        a[2] == lo[2],
                        b[0] == hi[0],
                        b[1] == lo[1],
                        b[2] == lo[2],
                        c[0] == hi[0],
                        c[1] == hi[1],
                        c[2] == lo[2],
                ;
            }
        },
        Face::Left => {
            if i == 0 {
                let a = spec_corner(face, lo, hi, 0);
                let b = spec_corner(face, lo, hi, 1);
                let c = spec_corner(face, lo, hi, 2);
                assert(turn(spec_normal(face), a, b, c) < 0) by (nonlinear_arith)
                    requires
                        spec_normal(face)[0] == -127,
                        spec_normal(face)[1] == 0,
                        spec_normal(face)[2] == 0,
                        lo[0] < hi[0],
                        lo[1] < hi[1],
                        lo[2] < hi[2],
                        a[0] == lo[0],
                        a[1] == lo[1],
                        a[2] == lo[2],
                        b[0] == lo[0],
                        b[1] == hi[1],
                        b[2] == lo[2],
                        c[0] == lo[0],
                        c[1] == hi[1],
                        c[2] == hi[2],
                ;
            }
            if i == 1 {
                let a = spec_corner(face, lo, hi, 1);
                let b = spec_corner(face, lo, hi, 2);
                let c = spec_corner(face, lo, hi, 3);
                assert(turn(spec_normal(face), a, b, c) < 0) by (nonlinear_arith)
                    requires
                        spec_normal(face)[0] == -127,
                        spec_normal(face)[1] == 0,
                        spec_normal(face)[2] == 0,
                        lo[0] < hi[0],
                        lo[1] < hi[1],
                        lo[2] < hi[2],
                        a[0] == lo[0],
                        a[1] == hi[1],
                        a[2] == lo[2],
                        b[0] == lo[0],
                        b[1] == hi[1],
                        b[2] == hi[2],
                        c[0] == lo[0],
                        c[1] == lo[1],
                        c[2] == hi[2],
                ;
            }
            if i == 2 {
                let a = spec_corner(face, lo, hi, 2);
                let b = spec_corner(face, lo, hi, 3);
                let c = spec_corner(face, lo, hi, 0);
                assert(turn(spec_normal(face), a, b, c) < 0) by (nonlinear_arith)
                    requires
                        spec_normal(face)[0] == -127,
                        spec_normal(face)[1] == 0,
                        spec_normal(face)[2] == 0,
                        lo[0] < hi[0],
                        lo[1] < hi[1],
                        lo[2] < hi[2],
                        a[0] == lo[0],
                        a[1] == hi[1],
                        a[2] == hi[2],
                        b[0] == lo[0],
                        b[1] == lo[1],
                        b[2] == hi[2],
                        c[0] == lo[0],
                        c[1] == lo[1],
                        c[2] == lo[2],
                ;
            }
            if i == 3 {
                let a = spec_corner(face, lo, hi, 3);
                let b = spec_corner(face, lo, hi, 0);
                let c = spec_corner(face, lo, hi, 1);
                assert(turn(spec_normal(face), a, b, c) < 0) by (nonlinear_arith)
                    requires
                        spec_normal(face)[0] == -127,
                        spec_normal(face)[1] == 0,
                        spec_normal(face)[2] == 0,
                        lo[0] < hi[0],
                        lo[1] < hi[1],
                        lo[2] < hi[2],
                        a[0] == lo[0],
                        a[1] == lo[1],
                        a[2] == hi[2],
                        b[0] == lo[0],
                        b[1] == lo[1],
                        b[2] == lo[2],
                        c[0] == lo[0],
                        c[1] == hi[1],
                        c[2] == lo[2],
                ;
            }
        },
        Face::Right => {
            if i == 0 {
                let a = spec_corner(face, lo, hi, 0);
                let b = spec_corner(face, lo, hi, 1);
                let c = spec_corner(face, lo, hi, 2);
                assert(turn(spec_normal(face), a, b, c) < 0) by (nonlinear_arith)
                    requires
                        spec_normal(face)[0] == 127,
                        spec_normal(face)[1] == 0,
                        spec_normal(face)[2] == 0,
                        lo[0] < hi[0],
                        lo[1] < hi[1],
                        lo[2] < hi[2],
                        a[0] == hi[0],
                        a[1] == lo[1],
                        a[2] == hi[2],
                        b[0] == hi[0],
                        b[1] == hi[1],
                        b[2] == hi[2],
                        c[0] == hi[0],
                        c[1] == hi[1],
                        c[2] == lo[2],
                ;
            }
            if i == 1 {
                let a = spec_corner(face, lo, hi, 1);
                let b = spec_corner(face, lo, hi, 2);
                let c = spec_corner(face, lo, hi, 3);
                assert(turn(spec_normal(face), a, b, c) < 0) by (nonlinear_arith)
                    requires
                        spec_normal(face)[0] == 127,
                        spec_normal(face)[1] == 0,
                        spec_normal(face)[2] == 0,
                        lo[0] < hi[0],
                        lo[1] < hi[1],
                        lo[2] < hi[2],
                        a[0] == hi[0],
                        a[1] == hi[1],
                        a[2] == hi[2],
                        b[0] == hi[0],
                        b[1] == hi[1],
                        b[2] == lo[2],
                        c[0] == hi[0],
                        c[1] == lo[1],
                        c[2] == lo[2],
                ;
            }
            if i == 2 {
                let a = spec_corner(face, lo, hi, 2);
                let b = spec_corner(face, lo, hi, 3);
                let c = spec_corner(face, lo, hi, 0);
                assert(turn(spec_normal(face), a, b, c) < 0) by (nonlinear_arith)
                    requires
                        spec_normal(face)[0] == 127,
                        spec_normal(face)[1] == 0,
                        spec_normal(face)[2] == 0,
                        lo[0] < hi[0],
                        lo[1] < hi[1],
                        lo[2] < hi[2],
                        a[0] == hi[0],
                        a[1] == hi[1],
                        a[2] == lo[2],
                        b[0] == hi[0],
                        b[1] == lo[1],
                        b[2] == lo[2],
                        c[0] == hi[0],
                        c[1] == lo[1],
                        c[2] == hi[2],
                ;
            }
            if i == 3 {
                let a = spec_corner(face, lo, hi, 3);
                let b = spec_corner(face, lo, hi, 0);
                let c = spec_corner(face, lo, hi, 1);
                assert(turn(spec_normal(face), a, b, c) < 0) by (nonlinear_arith)
                    requires
                        spec_normal(face)[0] == 127,
                        spec_normal(face)[1] == 0,
                        spec_normal(face)[2] == 0,
                        lo[0] < hi[0],
                        lo[1] < hi[1],
                        lo[2] < hi[2],
                        a[0] == hi[0],
                        a[1] == lo[1],
                        a[2] == lo[2],
                        b[0] == hi[0],
                        b[1] == lo[1],
                        b[2] == hi[2],
                        c[0] == hi[0],
                        c[1] == hi[1],
                        c[2] == hi[2],
                ;
            }
        },
        Face::Top => {
            if i == 0 {
                let a = spec_corner(face, lo, hi, 0);
                let b = spec_corner(face, lo, hi, 1);
                let c = spec_corner(face, lo, hi, 2);
                assert(turn(spec_normal(face), a, b, c) < 0) by (nonlinear_arith)
                    requires
                        spec_normal(face)[0] == 0,
                        spec_normal(face)[1] == -127,
                        spec_normal(face)[2] == 0,
                        lo[0] < hi[0],
                        lo[1] < hi[1],
                        lo[2] < hi[2],
                        a[0] == lo[0],
                        a[1] == lo[1],
                        a[2] == lo[2],
                        b[0] == lo[0],
                        b[1] == lo[1],
                        b[2] == hi[2],
                        c[0] == hi[0],
                        c[1] == lo[1],
                        c[2] == hi[2],
                ;
            }
            if i == 1 {
                let a = spec_corner(face, lo, hi, 1);
                let b = spec_corner(face, lo, hi, 2);
                let c = spec_corner(face, lo, hi, 3);
                assert(turn(spec_normal(face), a, b, c) < 0) by (nonlinear_arith)
                    requires
                        spec_normal(face)[0] == 0,
                        spec_normal(face)[1] == -127,
                        spec_normal(face)[2] == 0,
                        lo[0] < hi[0],
                        lo[1] < hi[1],
                        lo[2] < hi[2],
                        a[0] == lo[0],
                        a[1] == lo[1],
                        a[2] == hi[2],
                        b[0] == hi[0],
                        b[1] == lo[1],
                        b[2] == hi[2],
                        c[0] == hi[0],
                        c[1] == lo[1],
                        c[2] == lo[2],
                ;
            }
            if i == 2 {
                let a = spec_corner(face, lo, hi, 2);
                let b = spec_corner(face, lo, hi, 3);
                let c = spec_corner(face, lo, hi, 0);
                assert(turn(spec_normal(face), a, b, c) < 0) by (nonlinear_arith)
                    requires
                        spec_normal(face)[0] == 0,
                        spec_normal(face)[1] == -127,
                        spec_normal(face)[2] == 0,
                        lo[0] < hi[0],
                        lo[1] < hi[1],
                        lo[2] < hi[2],
                        a[0] == hi[0],
                        a[1] == lo[1],
                        a[2] == hi[2],
                        b[0] == hi[0],
                        b[1] == lo[1],
                        b[2] == lo[2],
                        c[0] == lo[0],
                        c[1] == lo[1],
                        c[2] == lo[2],
                ;
            }
            if i == 3 {
                let a = spec_corner(face, lo, hi, 3);
                let b = spec_corner(face, lo, hi, 0);
                let c = spec_corner(face, lo, hi, 1);
                assert(turn(spec_normal(face), a, b, c) < 0) by (nonlinear_arith)
                    requires
                        spec_normal(face)[0] == 0,
                        spec_normal(face)[1] == -127,
                        spec_normal(face)[2] == 0,
                        lo[0] < hi[0],
                        lo[1] < hi[1],
                        lo[2] < hi[2],
                        a[0] == hi[0],
                        a[1] == lo[1],
                        a[2] == lo[2],
                        b[0] == lo[0],
                        b[1] == lo[1],
                        b[2] == lo[2],
                        c[0] == lo[0],
                        c[1] == lo[1],
                        c[2] == hi[2],
                ;
            }
        },
        Face::Bottom => {
            if i == 0 {
                let a = spec_corner(face, lo, hi, 0);
                let b = spec_corner(face, lo, hi, 1);
                let c = spec_corner(face, lo, hi, 2);
                assert(turn(spec_normal(face), a, b, c) < 0) by (nonlinear_arith)
                    requires
                        spec_normal(face)[0] == 0,
                        spec_normal(face)[1] == 127,
                        spec_normal(face)[2] == 0,
                        lo[0] < hi[0],
                        lo[1] < hi[1],
                        lo[2] < hi[2],
                        a[0] == lo[0],
                        a[1] == hi[1],
                        a[2] == hi[2],
                        b[0] == lo[0],
                        b[1] == hi[1],
                        b[2] == lo[2],
                        c[0] == hi[0],
                        c[1] == hi[1],
                        c[2] == lo[2],
                ;
            }
            if i == 1 {
                let a = spec_corner(face, lo, hi, 1);
                let b = spec_corner(face, lo, hi, 2);
                let c = spec_corner(face, lo, hi, 3);
                assert(turn(spec_normal(face), a, b, c) < 0) by (nonlinear_arith)
                    requires
                        spec_normal(face)[0] == 0,
                        spec_normal(face)[1] == 127,
                        spec_normal(face)[2] == 0,
                        lo[0] < hi[0],
                        lo[1] < hi[1],
                        lo[2] < hi[2],
                        a[0] == lo[0],
                        a[1] == hi[1],
                        a[2] == lo[2],
                        b[0] == hi[0],
                        b[1] == hi[1],
                        b[2] == lo[2],
                        c[0] == hi[0],
                        c[1] == hi[1],
                        c[2] == hi[2],
                ;
            }
            if i == 2 {
                let a = spec_corner(face, lo, hi, 2);
                let b = spec_corner(face, lo, hi, 3);
                let c = spec_corner(face, lo, hi, 0);
                assert(turn(spec_normal(face), a, b, c) < 0) by (nonlinear_arith)
                    requires
                        spec_normal(face)[0] == 0,
                        spec_normal(face)[1] == 127,
                        spec_normal(face)[2] == 0,
                        lo[0] < hi[0],
                        lo[1] < hi[1],
                        lo[2] < hi[2],
                        a[0] == hi[0],
                        a[1] == hi[1],
                        a[2] == lo[2],
                        b[0] == hi[0],
                        b[1] == hi[1],
                        b[2] == hi[2],
                        c[0] == lo[0],
                        c[1] == hi[1],
                        c[2] == hi[2],
                ;
            }
            if i == 3 {
                let a = spec_corner(face, lo, hi, 3);
                let b = spec_corner(face, lo, hi, 0);
                let c = spec_corner(face, lo, hi, 1);
                assert(turn(spec_normal(face), a, b, c) < 0) by (nonlinear_arith)
                    requires
                        spec_normal(face)[0] == 0,
                        spec_normal(face)[1] == 127,
                        spec_normal(face)[2] == 0,
                        lo[0] < hi[0],
                        lo[1] < hi[1],
                        lo[2] < hi[2],
                        a[0] == hi[0],
                        a[1] == hi[1],
                        a[2] == hi[2],
                        b[0] == lo[0],
                        b[1] == hi[1],
                        b[2] == hi[2],
                        c[0] == lo[0],
                        c[1] == hi[1],
                        c[2] == lo[2],
                ;
            }
        },
    }
}

} // verus!
