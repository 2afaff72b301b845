//! Cutting a spritesheet into frames and laying frames out as a spritesheet:
//! the grid checks, the common canvas every frame is padded to, and the
//! row-major layout of the sheet the importer writes.

use vstd::prelude::*;
use crate::raster::{blank, overlay, overlaid, Image, ImageModel};
use crate::text::{decimal, push_decimal};
use crate::asset_decode::{decode_still, decoded_still, headed, starts_with};

verus! {

/// The most frames a sheet row holds.
pub const MAX_COLUMNS: u32 = 8;

/// The largest padded frame, in pixels, on either side.
pub const MAX_FRAME_DIMENSION: u32 = 4096;

/// Columns and rows for `frame_count` frames: at most `MAX_COLUMNS` a row,
/// at least one column, and as many rows as the frames fill (`div_ceil`).
/// The count is taken as a `u32`.
pub open spec fn spec_grid_dimensions(frame_count: usize) -> (u32, u32) {
    let n = frame_count as u32;
    let columns: u32 = if n < 1 {
        1
    } else if n > MAX_COLUMNS {
        MAX_COLUMNS
    } else {
        n
    };
    let rows = n / columns + (if n % columns == 0 {
        0u32
    } else {
        1u32
    });
    (columns, rows as u32)
}

pub fn grid_dimensions(frame_count: usize) -> (out: (u32, u32))
    ensures
        out == spec_grid_dimensions(frame_count),
{
    let n = frame_count as u32;
    let columns: u32 = if n < 1 {
        1
    } else if n > MAX_COLUMNS {
        MAX_COLUMNS
    } else {
        n
    };
    proof {
        if columns == 1 {
            assert(n <= 1);
        } else {
            assert(n / columns <= n / 2) by (nonlinear_arith)
                requires
                    columns >= 2,
            ;
        }
    }
    let rows = n / columns + if n % columns == 0 {
        0
    } else {
        1
    };
    (columns, rows)
}

pub open spec fn spec_validate_frame_size(frame_width: u32, frame_height: u32) -> Result<
    (),
    Seq<char>,
> {
    if frame_width == 0 || frame_height == 0 {
        Err("decoded frames have a zero dimension"@)
    } else if frame_width > MAX_FRAME_DIMENSION || frame_height > MAX_FRAME_DIMENSION {
        Err("padded frame "@ + decimal(frame_width as nat) + "x"@ + decimal(frame_height as nat)
            + " exceeds the "@ + decimal(MAX_FRAME_DIMENSION as nat) + "px budget"@)
    } else {
        Ok(())
    }
}

/// Refuses a padded frame size that is empty or over the budget.
pub fn validate_frame_size(frame_width: u32, frame_height: u32) -> (out: Result<(), String>)
    ensures
        match out {
            Ok(()) => spec_validate_frame_size(frame_width, frame_height) == Ok::<(), Seq<char>>(
                (),
            ),
            Err(e) => spec_validate_frame_size(frame_width, frame_height) == Err::<
                (),
                Seq<char>,
            >(e@),
        },
{
    if frame_width == 0 || frame_height == 0 {
        return Err(String::from_str("decoded frames have a zero dimension"));
    }
    if frame_width > MAX_FRAME_DIMENSION || frame_height > MAX_FRAME_DIMENSION {
        let mut message = String::from_str("padded frame ");
        push_decimal(&mut message, frame_width as u64);
        message.append("x");
        push_decimal(&mut message, frame_height as u64);
        message.append(" exceeds the ");
        push_decimal(&mut message, MAX_FRAME_DIMENSION as u64);
        message.append("px budget");
        return Err(message);
    }
    Ok(())
}

/// A spritesheet's grid: the cell size, and how many frames each row holds.
pub struct GridSpec<'a> {
    pub cell_width: u32,
    pub cell_height: u32,
    pub row_counts: &'a [usize],
}

/// The first row, from `r` on, that claims more frames than there are
/// columns.
pub open spec fn wide_row_from(counts: Seq<usize>, columns: nat, r: nat) -> Option<nat>
    decreases counts.len() - r,
{
    if r >= counts.len() {
        None
    } else if counts[r as int] as u32 > columns {
        Some(r)
    } else {
        wide_row_from(counts, columns, r + 1)
    }
}

/// Whether an image of `width` x `height` pixels can be read with this grid,
/// and if so its columns and rows.
pub open spec fn spec_validate_grid(
    width: nat,
    height: nat,
    cell_width: u32,
    cell_height: u32,
    counts: Seq<usize>,
    path: Seq<char>,
) -> Result<(u32, u32), Seq<char>> {
    if cell_width == 0 || cell_height == 0 {
        Err("--cell needs a non-zero width and height"@)
    } else if width % (cell_width as nat) != 0 || height % (cell_height as nat) != 0 {
        Err(path + ": "@ + decimal(width) + "x"@ + decimal(height) + " is not a whole number of "@
            + decimal(cell_width as nat) + "x"@ + decimal(cell_height as nat) + " cells"@)
    } else {
        let columns = width / (cell_width as nat);
        let rows = height / (cell_height as nat);
        if counts.len() as u32 != rows {
            Err(path + ": --row-counts has "@ + decimal(counts.len()) + " entries but the image has "@
                + decimal(rows) + " rows"@)
        } else {
            match wide_row_from(counts, columns, 0) {
                Some(r) => Err(path + ": row "@ + decimal(r) + " claims "@ + decimal(
                    counts[r as int] as nat,
                ) + " frames but there are only "@ + decimal(columns) + " columns"@),
                None => Ok((columns as u32, rows as u32)),
            }
        }
    }
}

/// Checks that `image` is a whole number of cells and that `row_counts`
/// describes its rows; `path` names the file in the messages.
pub fn validate_grid(image: &Image, grid: &GridSpec, path: &str) -> (out: Result<(u32, u32), String>)
    ensures
        match out {
            Ok(dims) => spec_validate_grid(
                image@.width,
                image@.height,
                grid.cell_width,
                grid.cell_height,
                grid.row_counts@,
                path@,
            ) == Ok::<(u32, u32), Seq<char>>(dims),
            Err(e) => spec_validate_grid(
                image@.width,
                image@.height,
                grid.cell_width,
                grid.cell_height,
                grid.row_counts@,
                path@,
            ) == Err::<(u32, u32), Seq<char>>(e@),
        },
{
    if grid.cell_width == 0 || grid.cell_height == 0 {
        return Err(String::from_str("--cell needs a non-zero width and height"));
    }
    let width = image.width();
    let height = image.height();
    if width % grid.cell_width != 0 || height % grid.cell_height != 0 {
        let mut message = String::from_str(path);
        message.append(": ");
        push_decimal(&mut message, width as u64);
        message.append("x");
        push_decimal(&mut message, height as u64);
        message.append(" is not a whole number of ");
        push_decimal(&mut message, grid.cell_width as u64);
        message.append("x");
        push_decimal(&mut message, grid.cell_height as u64);
        message.append(" cells");
        return Err(message);
    }
    let columns = width / grid.cell_width;
    let rows = height / grid.cell_height;
    if grid.row_counts.len() as u32 != rows {
        let mut message = String::from_str(path);
        message.append(": --row-counts has ");
        push_decimal(&mut message, grid.row_counts.len() as u64);
        message.append(" entries but the image has ");
        push_decimal(&mut message, rows as u64);
        message.append(" rows");
        return Err(message);
    }
    let mut row: usize = 0;
    while row < grid.row_counts.len()
        invariant
            grid.cell_width != 0,
            grid.cell_height != 0,
            image@.width % (grid.cell_width as nat) == 0,
            image@.height % (grid.cell_height as nat) == 0,
            columns as nat == image@.width / (grid.cell_width as nat),
            rows as nat == image@.height / (grid.cell_height as nat),
            grid.row_counts@.len() as u32 == rows,
            row <= grid.row_counts@.len(),
            wide_row_from(grid.row_counts@, columns as nat, 0) == wide_row_from(
                grid.row_counts@,
                columns as nat,
                row as nat,
            ),
        decreases grid.row_counts@.len() - row,
    {
        let count = grid.row_counts[row];
        assert(grid.row_counts@[row as int] == count);
        if count as u32 > columns {
            assert(wide_row_from(grid.row_counts@, columns as nat, row as nat) == Some(row as nat));
            let mut message = String::from_str(path);
            message.append(": row ");
            push_decimal(&mut message, row as u64);
            message.append(" claims ");
            push_decimal(&mut message, count as u64);
            message.append(" frames but there are only ");
            push_decimal(&mut message, columns as u64);
            message.append(" columns");
            assert(message@ == path@ + ": row "@ + decimal(row as nat) + " claims "@ + decimal(
                count as nat,
            ) + " frames but there are only "@ + decimal(columns as nat) + " columns"@);
            return Err(message);
        }
        row = row + 1;
    }
    Ok((columns, rows))
}

/// The cells a grid selects, row-major: `(row, column)` for the first
/// `counts[row]` columns of each row.
pub open spec fn grid_cells(counts: Seq<usize>) -> Seq<(int, int)>
    decreases counts.len(),
{
    if counts.len() == 0 {
        Seq::empty()
    } else {
        grid_cells(counts.drop_last()) + Seq::new(
            counts.last() as nat,
            |c: int| ((counts.len() - 1) as int, c),
        )
    }
}

proof fn lemma_grid_cells_bounds(counts: Seq<usize>, k: int)
    requires
        0 <= k < grid_cells(counts).len(),
    ensures
        0 <= grid_cells(counts)[k].0 < counts.len(),
        0 <= grid_cells(counts)[k].1 < counts[grid_cells(counts)[k].0],
    decreases counts.len(),
{
    let prev = grid_cells(counts.drop_last());
    if k < prev.len() {
        lemma_grid_cells_bounds(counts.drop_last(), k);
    }
}

/// What slicing leaves: one frame per selected cell, each the cell's pixels.
pub open spec fn is_sliced(
    frames: Seq<ImageModel>,
    image: ImageModel,
    cell_width: u32,
    cell_height: u32,
    counts: Seq<usize>,
) -> bool {
    &&& frames.len() == grid_cells(counts).len()
    &&& forall|k: int|
        0 <= k < frames.len() ==> (#[trigger] frames[k]).is_crop_of(
            image,
            grid_cells(counts)[k].1 * cell_width,
            grid_cells(counts)[k].0 * cell_height,
            cell_width as nat,
            cell_height as nat,
        )
}

pub open spec fn models(frames: Seq<Image>) -> Seq<ImageModel> {
    frames.map_values(|f: Image| f@)
}

/// `out` is what cutting `image` into the grid gives: its frames row-major,
/// or the refusal.
pub open spec fn slices_grid(
    image: ImageModel,
    cell_width: u32,
    cell_height: u32,
    row_counts: Seq<usize>,
    path: Seq<char>,
    out: Result<Vec<Image>, String>,
) -> bool {
    match out {
        Ok(frames) => {
            &&& spec_validate_grid(
                image.width,
                image.height,
                cell_width,
                cell_height,
                row_counts,
                path,
            ) is Ok
            &&& grid_cells(row_counts).len() > 0
            &&& is_sliced(
                models(frames@),
                image,
                cell_width,
                cell_height,
                row_counts,
            )
        },
        Err(e) => match spec_validate_grid(
            image.width,
            image.height,
            cell_width,
            cell_height,
            row_counts,
            path,
        ) {
            Err(reason) => e@ == reason,
            Ok(_) => grid_cells(row_counts).len() == 0 && e@ == path
                + ": no frames selected"@,
        },
    }
}

/// Cuts a spritesheet into its frames, row-major, dropping the unused
/// trailing cells of each row; `path` names the file in the messages.
pub fn slice_grid(image: &Image, grid: &GridSpec, path: &str) -> (out: Result<Vec<Image>, String>)
    requires
        image.wf(),
        grid.row_counts@.len() <= u32::MAX,
        forall|r: int| 0 <= r < grid.row_counts@.len() ==> grid.row_counts@[r] <= u32::MAX,
    ensures
        slices_grid(image@, grid.cell_width, grid.cell_height, grid.row_counts@, path@, out),
{
    let (columns, rows) = match validate_grid(image, grid, path) {
        Ok(dims) => dims,
        Err(e) => return Err(e),
    };
    let ghost counts = grid.row_counts@;
    let cw = grid.cell_width;
    let ch = grid.cell_height;
    let width = image.width();
    let height = image.height();
    proof {
        assert(image@.width / (cw as nat) <= image@.width) by (nonlinear_arith)
            requires
                cw > 0,
        ;
        assert(image@.height / (ch as nat) <= image@.height) by (nonlinear_arith)
            requires
                ch > 0,
        ;
        assert(image@.width == columns * cw) by (nonlinear_arith)
            requires
                image@.width % (cw as nat) == 0,
                columns == image@.width / (cw as nat),
                cw > 0,
        ;
        assert(image@.height == rows * ch) by (nonlinear_arith)
            requires
                image@.height % (ch as nat) == 0,
                rows == image@.height / (ch as nat),
                ch > 0,
        ;
        lemma_no_wide_row(counts, columns as nat, 0);
    }
    let mut frames: Vec<Image> = Vec::new();
    let mut row: usize = 0;
    while row < grid.row_counts.len()
        invariant
            counts == grid.row_counts@,
            image.wf(),
            cw == grid.cell_width,
            ch == grid.cell_height,
            cw > 0,
            ch > 0,
            image@.width == columns * cw,
            image@.height == rows * ch,
            image@.width <= u32::MAX,
            image@.height <= u32::MAX,
            counts.len() == rows,
            forall|r: int| 0 <= r < counts.len() ==> counts[r] <= columns,
            row <= counts.len(),
            is_sliced(models(frames@), image@, cw, ch, counts.take(row as int)),
        decreases counts.len() - row,
    {
        let count = grid.row_counts[row];
        let ghost base = frames@.len();
        proof {
            assert(counts.take(row + 1).drop_last() =~= counts.take(row as int));
            assert(counts.take(row + 1).last() == count);
        }
        let mut column: usize = 0;
        while column < count
            invariant
                counts == grid.row_counts@,
                image.wf(),
                cw == grid.cell_width,
                ch == grid.cell_height,
                cw > 0,
                ch > 0,
                image@.width == columns * cw,
                image@.height == rows * ch,
                image@.width <= u32::MAX,
                image@.height <= u32::MAX,
                counts.len() == rows,
                row < counts.len(),
                count == counts[row as int],
                count <= columns,
                column <= count,
                base == grid_cells(counts.take(row as int)).len(),
                frames@.len() == base + column,
                is_sliced(
                    models(frames@).take(base as int),
                    image@,
                    cw,
                    ch,
                    counts.take(row as int),
                ),
                forall|c: int|
                    0 <= c < column ==> (#[trigger] models(frames@)[base + c]).is_crop_of(
                        image@,
                        c * cw,
                        row * ch,
                        cw as nat,
                        ch as nat,
                    ),
            decreases count - column,
        {
            proof {
                assert((column + 1) * (cw as nat) <= columns * cw) by (nonlinear_arith)
                    requires
                        column < count,
                        count <= columns,
                ;
                assert((row + 1) * (ch as nat) <= rows * ch) by (nonlinear_arith)
                    requires
                        row < rows,
                ;
                assert(column * (cw as nat) + cw == (column + 1) * (cw as nat))
                    by (nonlinear_arith);
                assert(row * (ch as nat) + ch == (row + 1) * (ch as nat)) by (nonlinear_arith);
            }
            let x = (column as u32) * cw;
            let y = (row as u32) * ch;
            let cell = image.crop(x, y, cw, ch);
            let ghost before = models(frames@);
            frames.push(cell);
            proof {
                assert(models(frames@) =~= before.push(cell@));
                assert(models(frames@).take(base as int) =~= before.take(base as int));
            }
            column = column + 1;
        }
        proof {
            let next = counts.take(row + 1);
            let cells = grid_cells(next);
            assert(cells =~= grid_cells(counts.take(row as int)) + Seq::new(
                count as nat,
                |c: int| (row as int, c),
            ));
            let m = models(frames@);
            assert forall|k: int| 0 <= k < m.len() implies (#[trigger] m[k]).is_crop_of(
                image@,
                cells[k].1 * cw,
                cells[k].0 * ch,
                cw as nat,
                ch as nat,
            ) by {
                if k < base {
                    assert(m.take(base as int)[k] == m[k]);
                } else {
                    assert(m[base + (k - base)] == m[k]);
                }
            }
        }
        row = row + 1;
    }
    assert(counts.take(row as int) =~= counts);
    if frames.len() == 0 {
        let mut message = String::from_str(path);
        message.append(": no frames selected");
        return Err(message);
    }
    Ok(frames)
}

/// The widest of `frames`, or 0 when there are none.
pub open spec fn max_width(frames: Seq<ImageModel>) -> nat
    decreases frames.len(),
{
    if frames.len() == 0 {
        0
    } else {
        let rest = max_width(frames.drop_last());
        if frames.last().width > rest {
            frames.last().width
        } else {
            rest
        }
    }
}

/// The tallest of `frames`, or 0 when there are none.
pub open spec fn max_height(frames: Seq<ImageModel>) -> nat
    decreases frames.len(),
{
    if frames.len() == 0 {
        0
    } else {
        let rest = max_height(frames.drop_last());
        if frames.last().height > rest {
            frames.last().height
        } else {
            rest
        }
    }
}

proof fn lemma_max_bounds(frames: Seq<ImageModel>, k: int)
    requires
        0 <= k < frames.len(),
    ensures
        frames[k].width <= max_width(frames),
        frames[k].height <= max_height(frames),
    decreases frames.len(),
{
    if k < frames.len() - 1 {
        lemma_max_bounds(frames.drop_last(), k);
    }
}

/// Where a frame sits on the common canvas: centred across, resting on the
/// bottom edge.
pub open spec fn pad_offset(frame: ImageModel, width: nat, height: nat) -> (int, int) {
    ((width - frame.width) / 2, height - frame.height)
}

/// `frame` composited onto a transparent `width` x `height` canvas at its
/// padding offset.
pub open spec fn padded_frame(frame: ImageModel, width: nat, height: nat) -> ImageModel {
    overlaid(
        blank(width, height),
        frame,
        pad_offset(frame, width, height).0,
        pad_offset(frame, width, height).1,
    )
}

/// Pads every frame to the largest width and height among them, bottom-aligned
/// and horizontally centred on a transparent canvas.
pub fn pad_to_common_canvas(frames: &Vec<Image>) -> (out: (Vec<Image>, u32, u32))
    requires
        forall|i: int| 0 <= i < frames@.len() ==> (#[trigger] frames@[i]).wf(),
        max_width(models(frames@)) * max_height(models(frames@)) * 4 <= usize::MAX,
    ensures
        out.1 == max_width(models(frames@)),
        out.2 == max_height(models(frames@)),
        out.0@.len() == frames@.len(),
        forall|i: int|
            0 <= i < frames@.len() ==> {
                &&& (#[trigger] out.0@[i]).wf()
                &&& out.0@[i]@ == padded_frame(frames@[i]@, out.1 as nat, out.2 as nat)
                &&& out.0@[i]@.width == out.1
                &&& out.0@[i]@.height == out.2
            },
        forall|i: int, px: int, py: int, c: int|
            0 <= i < frames@.len() && 0 <= px < out.1 && 0 <= py < out.2 && 0 <= c < 4
                && !ImageModel::in_rect(
                px,
                py,
                pad_offset(frames@[i]@, out.1 as nat, out.2 as nat).0,
                pad_offset(frames@[i]@, out.1 as nat, out.2 as nat).1,
                frames@[i]@.width,
                frames@[i]@.height,
            ) ==> #[trigger] out.0@[i]@.byte(px, py, c) == 0,
{
    let ghost m = models(frames@);
    let mut width: u32 = 0;
    let mut height: u32 = 0;
    let mut i: usize = 0;
    while i < frames.len()
        invariant
            m == models(frames@),
            i <= frames@.len(),
            width == max_width(m.take(i as int)),
            height == max_height(m.take(i as int)),
        decreases frames.len() - i,
    {
        assert(m.take(i + 1).drop_last() =~= m.take(i as int));
        assert(m.take(i + 1).last() == frames@[i as int]@);
        let w = frames[i].width();
        let h = frames[i].height();
        if w > width {
            width = w;
        }
        if h > height {
            height = h;
        }
        i = i + 1;
    }
    assert(m.take(i as int) =~= m);
    let mut padded: Vec<Image> = Vec::new();
    let mut k: usize = 0;
    while k < frames.len()
        invariant
            m == models(frames@),
            forall|j: int| 0 <= j < frames@.len() ==> (#[trigger] frames@[j]).wf(),
            width == max_width(m),
            height == max_height(m),
            (width as nat) * (height as nat) * 4 <= usize::MAX,
            k <= frames@.len(),
            padded@.len() == k,
            forall|j: int|
                0 <= j < k ==> {
                    &&& (#[trigger] padded@[j]).wf()
                    &&& padded@[j]@ == padded_frame(frames@[j]@, width as nat, height as nat)
                    &&& padded@[j]@.width == width
                    &&& padded@[j]@.height == height
                },
            forall|j: int, px: int, py: int, c: int|
                0 <= j < k && 0 <= px < width && 0 <= py < height && 0 <= c < 4
                    && !ImageModel::in_rect(
                    px,
                    py,
                    pad_offset(frames@[j]@, width as nat, height as nat).0,
                    pad_offset(frames@[j]@, width as nat, height as nat).1,
                    frames@[j]@.width,
                    frames@[j]@.height,
                ) ==> #[trigger] padded@[j]@.byte(px, py, c) == 0,
        decreases frames.len() - k,
    {
        let frame = &frames[k];
        proof {
            assert(m[k as int] == frame@);
            lemma_max_bounds(m, k as int);
        }
        let mut canvas = Image::new(width, height);
        assert(canvas@.pixels =~= blank(width as nat, height as nat).pixels);
        assert(canvas@ == blank(width as nat, height as nat));
        let x_offset = (width - frame.width()) / 2;
        let y_offset = height - frame.height();
        let ghost before = canvas@;
        overlay(&mut canvas, frame, x_offset as i64, y_offset as i64);
        proof {
            assert forall|px: int, py: int, c: int|
                0 <= px < width && 0 <= py < height && 0 <= c < 4 && !ImageModel::in_rect(
                    px,
                    py,
                    x_offset as int,
                    y_offset as int,
                    frame@.width,
                    frame@.height,
                ) implies #[trigger] canvas@.byte(px, py, c) == 0 by {
                crate::raster::lemma_offset_in_bounds(
                    width as nat,
                    height as nat,
                    px,
                    py,
                );
                assert(before.byte(px, py, c) == 0);
            }
        }
        padded.push(canvas);
        k = k + 1;
    }
    (padded, width, height)
}

/// Rows needed for `count` frames at `columns` a row (`div_ceil`).
pub open spec fn sheet_rows(count: nat, columns: nat) -> nat {
    count / columns + (if count % columns == 0 {
        0nat
    } else {
        1nat
    })
}

/// The sheet after compositing each of `frames`, in order, at its cell: frame
/// `k` in column `k % columns` and row `k / columns`.
pub open spec fn packed(
    frames: Seq<ImageModel>,
    columns: nat,
    frame_width: nat,
    frame_height: nat,
    base: ImageModel,
) -> ImageModel
    decreases frames.len(),
{
    if frames.len() == 0 {
        base
    } else {
        let k = frames.len() - 1;
        overlaid(
            packed(frames.drop_last(), columns, frame_width, frame_height, base),
            frames.last(),
            (k % (columns as int)) * frame_width,
            (k / (columns as int)) * frame_height,
        )
    }
}

/// Lays `frames` out left to right, top to bottom, `columns` to a row, on a
/// transparent sheet of whole cells.
pub fn pack_spritesheet(frames: &Vec<Image>, columns: u32, frame_width: u32, frame_height: u32) -> (sheet: Image)
    requires
        columns > 0,
        frames@.len() <= u32::MAX,
        forall|i: int| 0 <= i < frames@.len() ==> (#[trigger] frames@[i]).wf(),
        columns * frame_width <= u32::MAX,
        sheet_rows(frames@.len(), columns as nat) * frame_height <= u32::MAX,
        (columns * frame_width) * (sheet_rows(frames@.len(), columns as nat) * frame_height) * 4
            <= usize::MAX,
    ensures
        sheet.wf(),
        sheet@.width == columns * frame_width,
        sheet@.height == sheet_rows(frames@.len(), columns as nat) * frame_height,
        sheet@ == packed(
            models(frames@),
            columns as nat,
            frame_width as nat,
            frame_height as nat,
            blank(sheet@.width, sheet@.height),
        ),
{
    let ghost m = models(frames@);
    let count = frames.len() as u32;
    proof {
        if columns == 1 {
            assert(count % columns == 0);
        } else {
            assert(count / columns <= count / 2) by (nonlinear_arith)
                requires
                    columns >= 2,
            ;
        }
    }
    let rows = count / columns + if count % columns == 0 {
        0
    } else {
        1
    };
    proof {
        assert(count as nat / (columns as nat) <= count) by (nonlinear_arith)
            requires
                columns > 0,
        ;
    }
    let sheet_width = columns * frame_width;
    let sheet_height = rows * frame_height;
    let mut sheet = Image::new(sheet_width, sheet_height);
    assert(sheet@.pixels =~= blank(sheet_width as nat, sheet_height as nat).pixels);
    let ghost base = sheet@;
    let mut i: usize = 0;
    assert(m.take(0) =~= Seq::<ImageModel>::empty());
    while i < frames.len()
        invariant
            m == models(frames@),
            count == frames@.len(),
            columns > 0,
            rows == sheet_rows(count as nat, columns as nat),
            forall|j: int| 0 <= j < frames@.len() ==> (#[trigger] frames@[j]).wf(),
            sheet_width == columns * frame_width,
            sheet_height == rows * frame_height,
            base == blank(sheet_width as nat, sheet_height as nat),
            i <= frames@.len(),
            sheet.wf(),
            sheet@.width == sheet_width,
            sheet@.height == sheet_height,
            sheet@ == packed(
                m.take(i as int),
                columns as nat,
                frame_width as nat,
                frame_height as nat,
                base,
            ),
        decreases frames.len() - i,
    {
        let index = i as u32;
        let column = index % columns;
        let row = index / columns;
        proof {
            assert(column * frame_width <= columns * frame_width) by (nonlinear_arith)
                requires
                    column < columns,
            ;
            assert(row < rows) by (nonlinear_arith)
                requires
                    index < count,
                    columns > 0,
                    row == index / columns,
                    rows == count / columns + (if count % columns == 0 {
                        0nat
                    } else {
                        1nat
                    }),
            ;
            assert(row * frame_height <= rows * frame_height) by (nonlinear_arith)
                requires
                    row < rows,
            ;
            assert(m.take(i + 1).drop_last() =~= m.take(i as int));
            assert(m.take(i + 1).last() == frames@[i as int]@);
        }
        let x = column * frame_width;
        let y = row * frame_height;
        overlay(&mut sheet, &frames[i], x as i64, y as i64);
        i = i + 1;
    }
    assert(m.take(i as int) =~= m);
    sheet
}

proof fn lemma_no_wide_row(counts: Seq<usize>, columns: nat, r: nat)
    requires
        wide_row_from(counts, columns, r) is None,
        forall|i: int| 0 <= i < counts.len() ==> counts[i] <= u32::MAX,
    ensures
        forall|i: int| r <= i < counts.len() ==> counts[i] <= columns,
    decreases counts.len() - r,
{
    if r < counts.len() {
        lemma_no_wide_row(counts, columns, r + 1);
        assert(counts[r as int] as u32 == counts[r as int]);
    }
}


/// A pre-packed sheet's frames from its file's bytes: decoded as the format
/// its path names, then cut into the grid. A file that does not decode is
/// refused with a message naming it.
pub fn decode_spritesheet_grid(bytes: &[u8], path: &str, grid: &GridSpec) -> (out: Result<Vec<Image>, String>)
    requires
        grid.row_counts@.len() <= u32::MAX,
        forall|r: int| 0 <= r < grid.row_counts@.len() ==> grid.row_counts@[r] <= u32::MAX,
    ensures
        match decoded_still(bytes@, path@) {
            None => out matches Err(e) && starts_with(e@, path@ + ": "@),
            Some(image) => slices_grid(image, grid.cell_width, grid.cell_height, grid.row_counts@, path@, out),
        },
{
    let image = match decode_still(bytes, path) {
        Ok(image) => image,
        Err(e) => {
            let mut head = String::from_str(path);
            head.append(": ");
            return Err(headed(head, e.as_str()));
        },
    };
    slice_grid(&image, grid, path)
}


/// The sheet's grid for `frame_count` frames: the count itself as columns,
/// held between 1 and `MAX_COLUMNS`, and just enough rows for every frame:
/// `columns * rows` covers the frames and one row fewer would not.
pub proof fn law_grid_holds_the_frames_in_as_few_rows_as_fit(frame_count: usize)
    ensures
        ({
            let n = frame_count as u32;
            let (columns, rows) = spec_grid_dimensions(frame_count);
            &&& 1 <= columns <= MAX_COLUMNS
            &&& (1 <= n <= MAX_COLUMNS ==> columns == n && rows == 1)
            &&& (n > MAX_COLUMNS ==> columns == MAX_COLUMNS)
            &&& (n == 0 ==> columns == 1 && rows == 0)
            &&& columns * rows >= n
            &&& (rows > 0 ==> (rows - 1) * columns < n)
        }),
{
    let n = frame_count as u32;
    let (columns, rows) = spec_grid_dimensions(frame_count);
    let q = n / columns;
    let r = n % columns;
    if columns == 1 {
        assert(n <= 1);
    } else {
        assert(q <= n / 2) by (nonlinear_arith)
            requires
                columns >= 2,
                q == n / columns,
        ;
    }
    assert(n == q * columns + r && 0 <= r < columns) by (nonlinear_arith)
        requires
            columns >= 1,
            q == n / columns,
            r == n % columns,
    ;
    if r == 0 {
        assert(rows == q);
        assert(columns * rows == n) by (nonlinear_arith)
            requires
                n == q * columns,
                rows == q,
        ;
        if rows > 0 {
            assert((rows - 1) * columns < n) by (nonlinear_arith)
                requires
                    n == rows * columns,
                    columns >= 1,
                    rows >= 1,
            ;
        }
    } else {
        assert(rows == q + 1);
        assert(columns * rows >= n && (rows - 1) * columns < n) by (nonlinear_arith)
            requires
                n == q * columns + r,
                0 < r < columns,
                rows == q + 1,
        ;
    }
    if 1 <= n <= MAX_COLUMNS {
        assert(columns == n);
        assert(n / n == 1 && n % n == 0) by (nonlinear_arith)
            requires
                n >= 1,
        ;
    }
}

} // verus!
