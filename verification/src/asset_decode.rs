//! What a decoded asset may be: the size and memory bounds every frame is held
//! to, a spritesheet's grid as its manifest declares it, and the frames a GIF
//! contributes one by one.

use vstd::prelude::*;
use crate::raster::{offset_of, Image, ImageModel};
use image::imageops;
use image::RgbaImage;
use image::AnimationDecoder;
use image::Frames;
use crate::text::{chars_of, decimal, push_decimal, same_text, sorted_positions, text_less};

verus! {

/// The largest decoded frame, in pixels, on either side.
pub const MAX_FRAME_DIM: u32 = 1024;

/// The most frames one asset may decode to.
pub const MAX_FRAMES: usize = 512;

/// The most bytes one asset may decode to.
pub const MAX_TOTAL_BYTES: u64 = 268435456;

/// The largest GIF canvas accepted before it is resampled.
pub const MAX_SOURCE_DIM: u32 = 4096;

pub open spec fn spec_check_dimensions(w: u32, h: u32, what: Seq<char>) -> Result<(), Seq<char>> {
    if w == 0 || h == 0 {
        Err(what + " has a zero dimension ("@ + decimal(w as nat) + "x"@ + decimal(h as nat)
            + ")"@)
    } else if w > MAX_FRAME_DIM || h > MAX_FRAME_DIM {
        Err(what + " is "@ + decimal(w as nat) + "x"@ + decimal(h as nat) + ", over the "@
            + decimal(MAX_FRAME_DIM as nat)
            + "px per-side limit. Scale the asset down before using it."@)
    } else {
        Ok(())
    }
}

/// Refuses a frame with a zero side or a side over `MAX_FRAME_DIM`; `what`
/// names the frame in the message.
pub fn check_dimensions(w: u32, h: u32, what: &str) -> (out: Result<(), String>)
    ensures
        match out {
            Ok(()) => spec_check_dimensions(w, h, what@) == Ok::<(), Seq<char>>(()),
            Err(e) => spec_check_dimensions(w, h, what@) == Err::<(), Seq<char>>(e@),
        },
{
    if w == 0 || h == 0 {
        let mut message = String::from_str(what);
        message.append(" has a zero dimension (");
        push_decimal(&mut message, w as u64);
        message.append("x");
        push_decimal(&mut message, h as u64);
        message.append(")");
        return Err(message);
    }
    if w > MAX_FRAME_DIM || h > MAX_FRAME_DIM {
        let mut message = String::from_str(what);
        message.append(" is ");
        push_decimal(&mut message, w as u64);
        message.append("x");
        push_decimal(&mut message, h as u64);
        message.append(", over the ");
        push_decimal(&mut message, MAX_FRAME_DIM as u64);
        message.append("px per-side limit. Scale the asset down before using it.");
        return Err(message);
    }
    Ok(())
}

pub open spec fn spec_check_budget(frames: usize, w: u32, h: u32) -> Result<(), Seq<char>> {
    if frames > MAX_FRAMES {
        Err("asset has more than "@ + decimal(MAX_FRAMES as nat)
            + " frames; refusing to decode the rest"@)
    } else {
        let total = frames * w * h * 4;
        if total > MAX_TOTAL_BYTES {
            Err("asset would decode to "@ + decimal((total / 1048576) as nat) + " MiB, over the "@
                + decimal((MAX_TOTAL_BYTES / 1048576) as nat) + " MiB limit"@)
        } else {
            Ok(())
        }
    }
}

/// Refuses `frames` frames of `w` x `h` when there are more than `MAX_FRAMES`
/// of them or they would take more than `MAX_TOTAL_BYTES`.
pub fn check_budget(frames: usize, w: u32, h: u32) -> (out: Result<(), String>)
    ensures
        match out {
            Ok(()) => spec_check_budget(frames, w, h) == Ok::<(), Seq<char>>(()),
            Err(e) => spec_check_budget(frames, w, h) == Err::<(), Seq<char>>(e@),
        },
{
    if frames > MAX_FRAMES {
        let mut message = String::from_str("asset has more than ");
        push_decimal(&mut message, MAX_FRAMES as u64);
        message.append(" frames; refusing to decode the rest");
        return Err(message);
    }
    let total = decoded_bytes(frames, w, h);
    if total > MAX_TOTAL_BYTES as u128 {
        let mut message = String::from_str("asset would decode to ");
        assert(total / 1048576 <= u64::MAX) by (nonlinear_arith)
            requires
                total <= 512 * 0xffff_ffffnat * 0xffff_ffffnat * 4,
        ;
        push_decimal(&mut message, (total / 1048576) as u64);
        message.append(" MiB, over the ");
        push_decimal(&mut message, MAX_TOTAL_BYTES / 1048576);
        message.append(" MiB limit");
        return Err(message);
    }
    Ok(())
}

/// `frames * w * h * 4` for at most `MAX_FRAMES` frames, exactly.
fn decoded_bytes(frames: usize, w: u32, h: u32) -> (total: u128)
    requires
        frames <= MAX_FRAMES,
    ensures
        total == frames * w * h * 4,
        total <= 512 * 0xffff_ffffnat * 0xffff_ffffnat * 4,
{
    assert(frames * w <= 512 * 0xffff_ffffnat) by (nonlinear_arith)
        requires
            frames <= 512,
            w <= 0xffff_ffff,
    ;
    let a = (frames as u128) * (w as u128);
    assert(a * h <= 512 * 0xffff_ffffnat * 0xffff_ffffnat) by (nonlinear_arith)
        requires
            a <= 512 * 0xffff_ffffnat,
            h <= 0xffff_ffff,
    ;
    let b = a * (h as u128);
    b * 4
}

/// How a spritesheet is laid out, as its manifest declares it; each field is
/// optional and has a default worked out from the image.
#[derive(Debug, Clone)]
pub struct SpritesheetConfig {
    pub path: Option<String>,
    pub frame_width: Option<u32>,
    pub frame_height: Option<u32>,
    pub columns: Option<u32>,
    pub rows: Option<u32>,
    pub margin_x: Option<u32>,
    pub margin_y: Option<u32>,
    pub spacing_x: Option<u32>,
    pub spacing_y: Option<u32>,
}

impl Default for SpritesheetConfig {
    fn default() -> (config: Self)
        ensures
            config.path is None,
            config.frame_width is None,
            config.frame_height is None,
            config.columns is None,
            config.rows is None,
            config.margin_x is None,
            config.margin_y is None,
            config.spacing_x is None,
            config.spacing_y is None,
    {
        SpritesheetConfig {
            path: None,
            frame_width: None,
            frame_height: None,
            columns: None,
            rows: None,
            margin_x: None,
            margin_y: None,
            spacing_x: None,
            spacing_y: None,
        }
    }
}

/// The frame size a spritesheet declares, when it declares both halves of one.
pub fn declared_frame_size(sheet: &SpritesheetConfig) -> (out: Option<(u32, u32)>)
    ensures
        out == (match (sheet.frame_width, sheet.frame_height) {
            (Some(w), Some(h)) => Some((w, h)),
            _ => None,
        }),
{
    match (sheet.frame_width, sheet.frame_height) {
        (Some(width), Some(height)) => Some((width, height)),
        _ => None,
    }
}

pub open spec fn or_zero(o: Option<u32>) -> int {
    match o {
        Some(v) => v as int,
        None => 0,
    }
}

/// `a - b`, or 0 where that would go below zero (`saturating_sub`).
pub open spec fn sat_sub(a: int, b: int) -> int {
    if a > b {
        a - b
    } else {
        0
    }
}

pub open spec fn at_least_one(v: int) -> int {
    if v < 1 {
        1
    } else {
        v
    }
}

/// Columns: as declared, else as many frames of the declared width as fit
/// across (at least one), else 4.
pub open spec fn sheet_columns(img_w: nat, s: SpritesheetConfig) -> int {
    match s.columns {
        Some(c) => c as int,
        None => match s.frame_width {
            Some(fw) => at_least_one(
                (sat_sub(img_w as int, or_zero(s.margin_x)) + or_zero(s.spacing_x)) / (fw
                    + or_zero(s.spacing_x)),
            ),
            None => 4,
        },
    }
}

/// Rows: as declared, else as many frames of the declared height as fit down
/// (at least one), else 1.
pub open spec fn sheet_rows(img_h: nat, s: SpritesheetConfig) -> int {
    match s.rows {
        Some(r) => r as int,
        None => match s.frame_height {
            Some(fh) => at_least_one(
                (sat_sub(img_h as int, or_zero(s.margin_y)) + or_zero(s.spacing_y)) / (fh
                    + or_zero(s.spacing_y)),
            ),
            None => 1,
        },
    }
}

/// Frame width: as declared, else the width left after the margin and the
/// gaps shared among the columns (at least one).
pub open spec fn sheet_frame_width(img_w: nat, s: SpritesheetConfig) -> int {
    match s.frame_width {
        Some(fw) => fw as int,
        None => {
            let cols = sheet_columns(img_w, s);
            at_least_one(
                sat_sub(img_w as int, or_zero(s.margin_x) + or_zero(s.spacing_x) * sat_sub(cols, 1))
                    / cols,
            )
        },
    }
}

/// Frame height, the same way down the rows.
pub open spec fn sheet_frame_height(img_h: nat, s: SpritesheetConfig) -> int {
    match s.frame_height {
        Some(fh) => fh as int,
        None => {
            let rows = sheet_rows(img_h, s);
            at_least_one(
                sat_sub(img_h as int, or_zero(s.margin_y) + or_zero(s.spacing_y) * sat_sub(rows, 1))
                    / rows,
            )
        },
    }
}

/// The left edge of column `c` and the top edge of row `r`.
pub open spec fn cell_x(s: SpritesheetConfig, fw: int, c: int) -> int {
    or_zero(s.margin_x) + c * (fw + or_zero(s.spacing_x))
}

pub open spec fn cell_y(s: SpritesheetConfig, fh: int, r: int) -> int {
    or_zero(s.margin_y) + r * (fh + or_zero(s.spacing_y))
}

/// The cells of row `r` among its first `c` columns that lie wholly inside the
/// image, left to right, as their corners.
pub open spec fn cells_in_row(
    img_w: nat,
    img_h: nat,
    s: SpritesheetConfig,
    fw: int,
    fh: int,
    r: int,
    c: nat,
) -> Seq<(int, int)>
    decreases c,
{
    if c == 0 {
        Seq::empty()
    } else {
        let k = c - 1;
        let x = cell_x(s, fw, k);
        let y = cell_y(s, fh, r);
        cells_in_row(img_w, img_h, s, fw, fh, r, (c - 1) as nat) + (if x + fw <= img_w && y + fh
            <= img_h {
            seq![(x, y)]
        } else {
            Seq::empty()
        })
    }
}

/// The cells of the first `r` rows that lie wholly inside the image,
/// row-major.
pub open spec fn cells_in_rows(
    img_w: nat,
    img_h: nat,
    s: SpritesheetConfig,
    fw: int,
    fh: int,
    cols: nat,
    r: nat,
) -> Seq<(int, int)>
    decreases r,
{
    if r == 0 {
        Seq::empty()
    } else {
        cells_in_rows(img_w, img_h, s, fw, fh, cols, (r - 1) as nat) + cells_in_row(
            img_w,
            img_h,
            s,
            fw,
            fh,
            (r - 1) as int,
            cols,
        )
    }
}

/// Every step of the layout arithmetic stays inside `u32` and divides by a
/// non-zero number: the inputs on which the layout is defined.
pub open spec fn layout_defined(img_w: nat, img_h: nat, s: SpritesheetConfig) -> bool {
    let mx = or_zero(s.margin_x);
    let my = or_zero(s.margin_y);
    let sx = or_zero(s.spacing_x);
    let sy = or_zero(s.spacing_y);
    let cols = sheet_columns(img_w, s);
    let rows = sheet_rows(img_h, s);
    let fw = sheet_frame_width(img_w, s);
    let fh = sheet_frame_height(img_h, s);
    &&& (s.columns is None && s.frame_width is Some) ==> {
        &&& 0 < or_zero(s.frame_width) + sx <= u32::MAX
        &&& sat_sub(img_w as int, mx) + sx <= u32::MAX
    }
    &&& (s.rows is None && s.frame_height is Some) ==> {
        &&& 0 < or_zero(s.frame_height) + sy <= u32::MAX
        &&& sat_sub(img_h as int, my) + sy <= u32::MAX
    }
    &&& s.frame_width is None ==> cols > 0 && mx + sx * sat_sub(cols, 1) <= u32::MAX
    &&& s.frame_height is None ==> rows > 0 && my + sy * sat_sub(rows, 1) <= u32::MAX
    &&& (spec_check_dimensions(fw as u32, fh as u32, "spritesheet frame"@) is Ok && cols >= 1
        && rows >= 1) ==> {
        &&& fw + sx <= u32::MAX
        &&& fh + sy <= u32::MAX
        &&& mx + (cols - 1) * (fw + sx) + fw <= u32::MAX
        &&& my + (rows - 1) * (fh + sy) + fh <= u32::MAX
    }
}

/// `cols * rows` as a `usize`, saturating.
pub open spec fn frame_budget_count(cols: int, rows: int) -> usize {
    if cols * rows > usize::MAX {
        usize::MAX
    } else {
        (cols * rows) as usize
    }
}

pub open spec fn too_small_message(
    path: Seq<char>,
    img_w: nat,
    img_h: nat,
    cols: nat,
    rows: nat,
    fw: nat,
    fh: nat,
) -> Seq<char> {
    "spritesheet '"@ + path + "' is "@ + decimal(img_w) + "x"@ + decimal(img_h)
        + ", too small for a "@ + decimal(cols) + "x"@ + decimal(rows) + " grid of "@ + decimal(
        fw,
    ) + "x"@ + decimal(fh) + " frames"@
}

/// What slicing a `img_w` x `img_h` spritesheet gives: the corners of the
/// frames it cuts and their size, or the refusal.
pub open spec fn spec_slice_spritesheet(
    img_w: nat,
    img_h: nat,
    s: SpritesheetConfig,
    path: Seq<char>,
) -> Result<(Seq<(int, int)>, u32, u32), Seq<char>> {
    let cols = sheet_columns(img_w, s);
    let rows = sheet_rows(img_h, s);
    let fw = sheet_frame_width(img_w, s);
    let fh = sheet_frame_height(img_h, s);
    match spec_check_dimensions(fw as u32, fh as u32, "spritesheet frame"@) {
        Err(e) => Err(e),
        Ok(()) => match spec_check_budget(frame_budget_count(cols, rows), fw as u32, fh as u32) {
            Err(e) => Err(e),
            Ok(()) => {
                let cells = cells_in_rows(img_w, img_h, s, fw, fh, cols as nat, rows as nat);
                if cells.len() == 0 {
                    Err(
                        too_small_message(
                            path,
                            img_w,
                            img_h,
                            cols as nat,
                            rows as nat,
                            fw as nat,
                            fh as nat,
                        ),
                    )
                } else {
                    Ok((cells, fw as u32, fh as u32))
                }
            },
        },
    }
}

/// How many frames of `frame` pixels, `spacing` apart, fit in `extent` after
/// `margin`: at least one.
fn fitted(extent: u32, margin: u32, spacing: u32, frame: u32) -> (n: u32)
    requires
        0 < frame + spacing <= u32::MAX,
        sat_sub(extent as int, margin as int) + spacing <= u32::MAX,
    ensures
        n == at_least_one((sat_sub(extent as int, margin as int) + spacing) / (frame + spacing)),
{
    let n = (extent.saturating_sub(margin) + spacing) / (frame + spacing);
    if n < 1 {
        1
    } else {
        n
    }
}

/// What each of `count` frames gets of `extent` after `margin` and the gaps
/// between them: at least one.
fn shared(extent: u32, margin: u32, spacing: u32, count: u32) -> (n: u32)
    requires
        count > 0,
        margin + spacing * sat_sub(count as int, 1) <= u32::MAX,
    ensures
        n == at_least_one(sat_sub(extent as int, margin + spacing * sat_sub(count as int, 1)) / (count as int)),
{
    let gaps = count.saturating_sub(1);
    assert(spacing * gaps <= u32::MAX);
    let n = extent.saturating_sub(margin + spacing * gaps) / count;
    if n < 1 {
        1
    } else {
        n
    }
}

/// `a - b`, or 0 below zero.
fn sat_sub_wide(a: u128, b: u128) -> (out: u128)
    ensures
        out == sat_sub(a as int, b as int),
{
    if a > b {
        a - b
    } else {
        0
    }
}

/// How many frames fit along an axis of `extent` after `margin`, each `frame`
/// long with `spacing` between them, when that is defined.
fn fitted_wide(extent: u32, margin: u32, spacing: u32, frame: u32) -> (out: Option<u128>)
    ensures
        match out {
            Some(n) => {
                &&& 0 < frame + spacing <= u32::MAX
                &&& sat_sub(extent as int, margin as int) + spacing <= u32::MAX
                &&& n == at_least_one((sat_sub(extent as int, margin as int) + spacing) / (frame
                    + spacing))
                &&& n <= u32::MAX
            },
            None => !(0 < frame + spacing <= u32::MAX && sat_sub(extent as int, margin as int)
                + spacing <= u32::MAX),
        },
{
    let top: u128 = 0xffff_ffff;
    let step = frame as u128 + spacing as u128;
    let room = sat_sub_wide(extent as u128, margin as u128) + spacing as u128;
    if step == 0 || step > top || room > top {
        return None;
    }
    let n = room / step;
    assert(n <= top) by (nonlinear_arith)
        requires
            n == room / step,
            step >= 1,
            room <= top,
    ;
    Some(if n < 1 { 1 } else { n })
}

/// What each of `count` frames gets of `extent` after `margin` and the gaps,
/// when that is defined.
fn shared_wide(extent: u32, margin: u32, spacing: u32, count: u128) -> (out: Option<u128>)
    requires
        count <= u32::MAX,
    ensures
        match out {
            Some(n) => {
                &&& count > 0
                &&& margin + spacing * sat_sub(count as int, 1) <= u32::MAX
                &&& n == at_least_one(sat_sub(extent as int, margin + spacing * sat_sub(count as int, 1)) / (count as int))
                &&& n <= u32::MAX
            },
            None => !(count > 0 && margin + spacing * sat_sub(count as int, 1) <= u32::MAX),
        },
{
    let top: u128 = 0xffff_ffff;
    if count == 0 {
        return None;
    }
    assert(spacing * sat_sub(count as int, 1) <= top * top) by (nonlinear_arith)
        requires
            spacing <= top,
            count <= top,
    ;
    let gaps = margin as u128 + spacing as u128 * sat_sub_wide(count, 1);
    if gaps > top {
        return None;
    }
    let n = sat_sub_wide(extent as u128, gaps) / count;
    assert(n <= top) by (nonlinear_arith)
        requires
            n == sat_sub(extent as int, gaps as int) / (count as int),
            count >= 1,
            extent <= top,
    ;
    Some(if n < 1 { 1 } else { n })
}

/// Whether the cells along an axis, `count` of them `frame` long with
/// `spacing` between them after `margin`, stay inside `u32`.
fn grid_fits(margin: u32, spacing: u32, count: u128, frame: u128) -> (ok: bool)
    requires
        1 <= count <= u32::MAX,
        frame <= u32::MAX,
    ensures
        ok == (frame + spacing <= u32::MAX && margin + (count - 1) * (frame + spacing) + frame
            <= u32::MAX),
{
    let top: u128 = 0xffff_ffff;
    assert((count - 1) * (frame + spacing) <= top * (2 * top)) by (nonlinear_arith)
        requires
            1 <= count <= top,
            frame <= top,
            spacing <= top,
    ;
    frame + spacing as u128 <= top && margin as u128 + (count - 1) * (frame + spacing as u128)
        + frame <= top
}

/// Whether the layout arithmetic is defined for an `img_w` x `img_h` image:
/// `layout_defined`, computed.
#[verifier::spinoff_prover]
#[verifier::rlimit(50)]
pub fn layout_fits(img_w: u32, img_h: u32, s: &SpritesheetConfig) -> (ok: bool)
    ensures
        ok == layout_defined(img_w as nat, img_h as nat, *s),
{
    let mx: u32 = match s.margin_x { Some(v) => v, None => 0 };
    let my: u32 = match s.margin_y { Some(v) => v, None => 0 };
    let sx: u32 = match s.spacing_x { Some(v) => v, None => 0 };
    let sy: u32 = match s.spacing_y { Some(v) => v, None => 0 };
    let cols: u128 = match s.columns {
        Some(c) => c as u128,
        None => match s.frame_width {
            Some(fw) => match fitted_wide(img_w, mx, sx, fw) {
                Some(n) => n,
                None => return false,
            },
            None => 4,
        },
    };
    let rows: u128 = match s.rows {
        Some(r) => r as u128,
        None => match s.frame_height {
            Some(fh) => match fitted_wide(img_h, my, sy, fh) {
                Some(n) => n,
                None => return false,
            },
            None => 1,
        },
    };
    let fw: u128 = match s.frame_width {
        Some(v) => v as u128,
        None => match shared_wide(img_w, mx, sx, cols) {
            Some(n) => n,
            None => return false,
        },
    };
    let fh: u128 = match s.frame_height {
        Some(v) => v as u128,
        None => match shared_wide(img_h, my, sy, rows) {
            Some(n) => n,
            None => return false,
        },
    };
    let dims = 0 < fw && fw <= MAX_FRAME_DIM as u128 && 0 < fh && fh <= MAX_FRAME_DIM as u128;
    assert(dims == (spec_check_dimensions(fw as u32, fh as u32, "spritesheet frame"@) is Ok));
    if dims && cols >= 1 && rows >= 1 {
        grid_fits(mx, sx, cols, fw) && grid_fits(my, sy, rows, fh)
    } else {
        true
    }
}

/// The grid's columns, rows and frame size for an image of `img_w` x `img_h`.
fn sheet_layout(img_w: u32, img_h: u32, s: &SpritesheetConfig) -> (out: (u32, u32, u32, u32))
    requires
        layout_defined(img_w as nat, img_h as nat, *s),
    ensures
        out.0 == sheet_columns(img_w as nat, *s),
        out.1 == sheet_rows(img_h as nat, *s),
        out.2 == sheet_frame_width(img_w as nat, *s),
        out.3 == sheet_frame_height(img_h as nat, *s),
{
    let margin_x = match s.margin_x {
        Some(v) => v,
        None => 0,
    };
    let margin_y = match s.margin_y {
        Some(v) => v,
        None => 0,
    };
    let spacing_x = match s.spacing_x {
        Some(v) => v,
        None => 0,
    };
    let spacing_y = match s.spacing_y {
        Some(v) => v,
        None => 0,
    };
    let cols = match s.columns {
        Some(c) => c,
        None => match s.frame_width {
            Some(fw) => fitted(img_w, margin_x, spacing_x, fw),
            None => 4,
        },
    };
    let rows = match s.rows {
        Some(r) => r,
        None => match s.frame_height {
            Some(fh) => fitted(img_h, margin_y, spacing_y, fh),
            None => 1,
        },
    };
    let fw = match s.frame_width {
        Some(fw) => fw,
        None => shared(img_w, margin_x, spacing_x, cols),
    };
    let fh = match s.frame_height {
        Some(fh) => fh,
        None => shared(img_h, margin_y, spacing_y, rows),
    };
    (cols, rows, fw, fh)
}

pub open spec fn models(frames: Seq<Image>) -> Seq<ImageModel> {
    frames.map_values(|f: Image| f@)
}

/// The frames listed by `cells`, each a `fw` x `fh` crop of `image`.
pub open spec fn crops_of(
    frames: Seq<ImageModel>,
    image: ImageModel,
    cells: Seq<(int, int)>,
    fw: u32,
    fh: u32,
) -> bool {
    &&& frames.len() == cells.len()
    &&& forall|k: int|
        0 <= k < frames.len() ==> (#[trigger] frames[k]).is_crop_of(
            image,
            cells[k].0,
            cells[k].1,
            fw as nat,
            fh as nat,
        )
}

/// `out` is what slicing `image` by `sheet` gives: the crops of the cells
/// that lie wholly inside it, or the refusal.
pub open spec fn slices_sheet(
    image: ImageModel,
    sheet: SpritesheetConfig,
    path: Seq<char>,
    out: Result<(Vec<Image>, u32, u32), String>,
) -> bool {
    match out {
        Ok((frames, fw, fh)) => match spec_slice_spritesheet(
            image.width,
            image.height,
            sheet,
            path,
        ) {
            Ok((cells, w, h)) => w == fw && h == fh && crops_of(
                models(frames@),
                image,
                cells,
                fw,
                fh,
            ),
            Err(_) => false,
        },
        Err(e) => spec_slice_spritesheet(image.width, image.height, sheet, path) == Err::<
            (Seq<(int, int)>, u32, u32),
            Seq<char>,
        >(e@),
    }
}

/// Slices a still image into the grid its manifest declares, keeping the
/// cells that lie wholly inside the image; `path` names the file in the
/// message when none does.
pub fn slice_spritesheet(image: &Image, sheet: &SpritesheetConfig, path: &str) -> (out: Result<
    (Vec<Image>, u32, u32),
    String,
>)
    requires
        image.wf(),
        layout_defined(image@.width, image@.height, *sheet),
    ensures
        slices_sheet(image@, *sheet, path@, out),
{
    let img_w = image.width();
    let img_h = image.height();
    let (cols, rows, fw, fh) = sheet_layout(img_w, img_h, sheet);
    match check_dimensions(fw, fh, "spritesheet frame") {
        Ok(()) => {},
        Err(e) => return Err(e),
    }
    let count = match (cols as usize).checked_mul(rows as usize) {
        Some(n) => n,
        None => usize::MAX,
    };
    proof {
        assert(count == frame_budget_count(cols as int, rows as int));
        if count <= MAX_FRAMES {
            assert(count * fw * fh * 4 <= 512 * 1024 * 1024 * 4) by (nonlinear_arith)
                requires
                    count <= 512,
                    fw <= 1024,
                    fh <= 1024,
            ;
        }
    }
    match check_budget(count, fw, fh) {
        Ok(()) => {},
        Err(e) => return Err(e),
    }
    let margin_x = match sheet.margin_x {
        Some(v) => v,
        None => 0,
    };
    let margin_y = match sheet.margin_y {
        Some(v) => v,
        None => 0,
    };
    let spacing_x = match sheet.spacing_x {
        Some(v) => v,
        None => 0,
    };
    let spacing_y = match sheet.spacing_y {
        Some(v) => v,
        None => 0,
    };
    let ghost s = *sheet;
    let ghost iw = image@.width;
    let ghost ih = image@.height;
    let mut frames: Vec<Image> = Vec::new();
    let mut r: u32 = 0;
    while r < rows
        invariant
            image.wf(),
            s == *sheet,
            iw == image@.width,
            ih == image@.height,
            img_w == iw,
            img_h == ih,
            layout_defined(iw, ih, s),
            spec_check_dimensions(fw, fh, "spritesheet frame"@) is Ok,
            cols == sheet_columns(iw, s),
            rows == sheet_rows(ih, s),
            fw == sheet_frame_width(iw, s),
            fh == sheet_frame_height(ih, s),
            margin_x == or_zero(s.margin_x),
            margin_y == or_zero(s.margin_y),
            spacing_x == or_zero(s.spacing_x),
            spacing_y == or_zero(s.spacing_y),
            r <= rows,
            crops_of(
                models(frames@),
                image@,
                cells_in_rows(iw, ih, s, fw as int, fh as int, cols as nat, r as nat),
                fw,
                fh,
            ),
        decreases rows - r,
    {
        let mut c: u32 = 0;
        while c < cols
            invariant
                image.wf(),
                s == *sheet,
                iw == image@.width,
                ih == image@.height,
                img_w == iw,
                img_h == ih,
                layout_defined(iw, ih, s),
                spec_check_dimensions(fw, fh, "spritesheet frame"@) is Ok,
                cols == sheet_columns(iw, s),
                rows == sheet_rows(ih, s),
                fw == sheet_frame_width(iw, s),
                fh == sheet_frame_height(ih, s),
                margin_x == or_zero(s.margin_x),
                margin_y == or_zero(s.margin_y),
                spacing_x == or_zero(s.spacing_x),
                spacing_y == or_zero(s.spacing_y),
                r < rows,
                c <= cols,
                crops_of(
                    models(frames@),
                    image@,
                    cells_in_rows(iw, ih, s, fw as int, fh as int, cols as nat, r as nat)
                        + cells_in_row(iw, ih, s, fw as int, fh as int, r as int, c as nat),
                    fw,
                    fh,
                ),
            decreases cols - c,
        {
            proof {
                assert(c * (fw + spacing_x) <= (cols - 1) * (fw + spacing_x)) by (nonlinear_arith)
                    requires
                        c <= cols - 1,
                        fw + spacing_x >= 0,
                ;
                assert(r * (fh + spacing_y) <= (rows - 1) * (fh + spacing_y)) by (nonlinear_arith)
                    requires
                        r <= rows - 1,
                        fh + spacing_y >= 0,
                ;
            }
            let x = margin_x + c * (fw + spacing_x);
            let y = margin_y + r * (fh + spacing_y);
            let ghost before = models(frames@);
            let ghost listed = cells_in_rows(iw, ih, s, fw as int, fh as int, cols as nat, r as nat)
                + cells_in_row(iw, ih, s, fw as int, fh as int, r as int, c as nat);
            if x + fw <= img_w && y + fh <= img_h {
                let cell = image.crop(x, y, fw, fh);
                frames.push(cell);
                proof {
                    assert(models(frames@) =~= before.push(cell@));
                    assert(cells_in_rows(iw, ih, s, fw as int, fh as int, cols as nat, r as nat)
                        + cells_in_row(iw, ih, s, fw as int, fh as int, r as int, (c + 1) as nat)
                        =~= listed.push((x as int, y as int)));
                }
            } else {
                proof {
                    assert(cells_in_rows(iw, ih, s, fw as int, fh as int, cols as nat, r as nat)
                        + cells_in_row(iw, ih, s, fw as int, fh as int, r as int, (c + 1) as nat)
                        =~= listed);
                }
            }
            c = c + 1;
        }
        assert(cells_in_rows(iw, ih, s, fw as int, fh as int, cols as nat, (r + 1) as nat)
            == cells_in_rows(iw, ih, s, fw as int, fh as int, cols as nat, r as nat)
            + cells_in_row(iw, ih, s, fw as int, fh as int, r as int, cols as nat));
        r = r + 1;
    }
    if frames.len() == 0 {
        let mut message = String::from_str("spritesheet '");
        message.append(path);
        message.append("' is ");
        push_decimal(&mut message, img_w as u64);
        message.append("x");
        push_decimal(&mut message, img_h as u64);
        message.append(", too small for a ");
        push_decimal(&mut message, cols as u64);
        message.append("x");
        push_decimal(&mut message, rows as u64);
        message.append(" grid of ");
        push_decimal(&mut message, fw as u64);
        message.append("x");
        push_decimal(&mut message, fh as u64);
        message.append(" frames");
        return Err(message);
    }
    Ok((frames, fw, fh))
}

/// What `image` reads from `bytes` as the format that `path`'s extension
/// names (`ImageFormat::from_path`, then `image::load`, as `image::open`
/// does with a file), as RGBA: none when the extension names no format the
/// crate has or the bytes are not such an image.
pub uninterp spec fn decoded_still(bytes: Seq<u8>, path: Seq<char>) -> Option<ImageModel>;

/// `image::open` on a file's bytes: the format from the path's extension,
/// then the decoder for it, then `to_rgba8`.
///
/// The contract names the result (`decoded_still`); the crate's error text
/// for an undecodable file is passed on and not stated.
#[verifier::external_body]
pub(crate) fn decode_still(bytes: &[u8], path: &str) -> (out: Result<Image, String>)
    ensures
        match out {
            Ok(image) => image.wf() && decoded_still(bytes@, path@) == Some(image@),
            Err(_) => decoded_still(bytes@, path@) is None,
        },
{
    let format = image::ImageFormat::from_path(path).map_err(|e| e.to_string())?;
    let decoded = image::load(std::io::Cursor::new(bytes), format).map_err(|e| e.to_string())?;
    let rgba = decoded.to_rgba8();
    Ok(Image::from_raw(rgba.width(), rgba.height(), rgba.into_raw()).unwrap())
}

/// A message that starts by saying `path` could not be decoded.
pub open spec fn decode_refusal(path: Seq<char>, message: Seq<char>) -> bool {
    let head = "Could not decode '"@ + path + "': "@;
    message.len() >= head.len() && message.subrange(0, head.len() as int) == head
}

/// `"Could not decode '<path>': <detail>"`.
fn refusal(path: &str, detail: &str) -> (message: String)
    ensures
        decode_refusal(path@, message@),
{
    let mut message = String::from_str("Could not decode '");
    message.append(path);
    message.append("': ");
    let ghost head = message@;
    message.append(detail);
    assert(message@.subrange(0, head.len() as int) =~= head);
    message
}

/// A spritesheet file's frames: its bytes decoded as the format its path
/// names, then sliced into the grid `sheet` declares. Refused when the bytes
/// do not decode; `None` for an image on which the grid arithmetic
/// overflows `u32`.
pub fn load_spritesheet(bytes: &[u8], path: &str, sheet: &SpritesheetConfig) -> (out: Option<
    Result<(Vec<Image>, u32, u32), String>,
>)
    ensures
        match decoded_still(bytes@, path@) {
            None => out matches Some(Err(e)) && decode_refusal(path@, e@),
            Some(image) => if layout_defined(image.width, image.height, *sheet) {
                out matches Some(r) && slices_sheet(image, *sheet, path@, r)
            } else {
                out is None
            },
        },
{
    let image = match decode_still(bytes, path) {
        Ok(image) => image,
        Err(e) => return Some(Err(refusal(path, e.as_str()))),
    };
    if !layout_fits(image.width(), image.height(), sheet) {
        return None;
    }
    Some(slice_spritesheet(&image, sheet, path))
}

/// The resampling filters the library asks of `image::imageops::resize`.
pub enum ResizeFilter {
    /// Linear weights over the neighbouring pixels.
    Triangle,
    /// The nearest source pixel.
    Nearest,
}

/// What `image::imageops::resize` makes of `source` at `width` x `height`
/// with `filter`: each pixel a weighted combination of nearby source pixels,
/// computed by the crate in floating point.
pub uninterp spec fn resampled(source: ImageModel, width: nat, height: nat, filter: ResizeFilter) -> ImageModel;

/// `image::imageops::resize(.., filter)` on an RGBA image.
///
/// The result is named (`resampled`) and has the requested size; which colour
/// each pixel gets is the crate's own arithmetic and is left to the name. The
/// crate's working copy holds four `f32` channels a pixel at the source's
/// width and the requested height, so both that and the result must be
/// allocatable.
#[verifier::external_body]
pub(crate) fn resize(source: &Image, width: u32, height: u32, filter: ResizeFilter) -> (out: Image)
    requires
        source.wf(),
        source@.width > 0,
        source@.height > 0,
        width > 0,
        height > 0,
        source@.width * height * 16 <= isize::MAX,
        width * height * 16 <= isize::MAX,
    ensures
        out@ == resampled(source@, width as nat, height as nat, filter),
        out.wf(),
        out@.width == width,
        out@.height == height,
{
    let kind = match filter {
        ResizeFilter::Triangle => imageops::FilterType::Triangle,
        ResizeFilter::Nearest => imageops::FilterType::Nearest,
    };
    let buffer = RgbaImage::from_raw(source.width(), source.height(), source.as_raw().clone()).unwrap();
    let scaled = imageops::resize(&buffer, width, height, kind);
    Image::from_raw(width, height, scaled.into_raw()).unwrap()
}

/// `out` is `source` mirrored left to right: the same size, with each pixel
/// taken from the same row at the opposite column.
pub open spec fn is_mirror_of(out: ImageModel, source: ImageModel) -> bool {
    &&& out.wf()
    &&& out.width == source.width
    &&& out.height == source.height
    &&& forall|x: int, y: int, c: int|
        source.in_bounds(x, y) && 0 <= c < 4 ==> #[trigger] out.byte(x, y, c) == source.byte(
            source.width - 1 - x,
            y,
            c,
        )
}

/// Byte `k` of the mirror of `source`: the byte at the same row and channel
/// of the opposite column.
pub open spec fn mirror_byte(source: ImageModel, k: int) -> u8 {
    let cell = k / 4;
    source.byte(source.width - 1 - cell % (source.width as int), cell / (source.width as int), k % 4)
}

/// Where byte `(y * w + x) * 4 + c` lies.
proof fn lemma_pixel_index(w: int, x: int, y: int, c: int)
    requires
        0 <= x < w,
        0 <= y,
        0 <= c < 4,
    ensures
        ((y * w + x) * 4 + c) / 4 == y * w + x,
        ((y * w + x) * 4 + c) % 4 == c,
        (y * w + x) % w == x,
        (y * w + x) / w == y,
{
    vstd::arithmetic::div_mod::lemma_fundamental_div_mod_converse((y * w + x) * 4 + c, 4, y * w + x, c);
    vstd::arithmetic::div_mod::lemma_fundamental_div_mod_converse(y * w + x, w, y, x);
}

/// `source` mirrored left to right, as `image::imageops::flip_horizontal`
/// makes it: the same size, each pixel taken from the same row at the
/// opposite column.
fn mirrored(source: &Image) -> (out: Image)
    requires
        source.wf(),
    ensures
        is_mirror_of(out@, source@),
{
    let w = source.width();
    let h = source.height();
    let ghost src = source@;
    let mut pixels: Vec<u8> = Vec::new();
    let mut y: u32 = 0;
    while y < h
        invariant
            source.wf(),
            src == source@,
            w == src.width,
            h == src.height,
            y <= h,
            pixels@.len() == (y as int) * (w as int) * 4,
            forall|k: int| 0 <= k < pixels@.len() ==> #[trigger] pixels@[k] == mirror_byte(src, k),
        decreases h - y,
    {
        let mut x: u32 = 0;
        while x < w
            invariant
                source.wf(),
                src == source@,
                w == src.width,
                h == src.height,
                y < h,
                x <= w,
                pixels@.len() == ((y as int) * (w as int) + x) * 4,
                forall|k: int| 0 <= k < pixels@.len() ==> #[trigger] pixels@[k] == mirror_byte(src, k),
            decreases w - x,
        {
            let p = source.get_pixel(w - 1 - x, y);
            let ghost base = pixels@.len() as int;
            proof {
                lemma_pixel_index(w as int, x as int, y as int, 0);
                lemma_pixel_index(w as int, x as int, y as int, 1);
                lemma_pixel_index(w as int, x as int, y as int, 2);
                lemma_pixel_index(w as int, x as int, y as int, 3);
                assert((y as int * w as int + x) * 4 <= (h as int) * (w as int) * 4) by (nonlinear_arith)
                    requires
                        y < h,
                        x < w,
                ;
            }
            pixels.push(p[0]);
            pixels.push(p[1]);
            pixels.push(p[2]);
            pixels.push(p[3]);
            assert forall|k: int| 0 <= k < pixels@.len() implies #[trigger] pixels@[k] == mirror_byte(src, k) by {
                if k >= base {
                    assert(src.pixel((w - 1 - x) as int, y as int)[k - base] == src.byte((w - 1 - x) as int, y as int, k - base));
                }
            }
            x = x + 1;
        }
        assert((y as int * w as int + w) * 4 == ((y + 1) as int) * (w as int) * 4) by (nonlinear_arith);
        y = y + 1;
    }
    assert(pixels@.len() == src.width * src.height * 4) by (nonlinear_arith)
        requires
            pixels@.len() == (h as int) * (w as int) * 4,
            w == src.width,
            h == src.height,
    ;
    match Image::from_raw(w, h, pixels) {
        Some(out) => {
            assert forall|x: int, y: int, c: int|
                src.in_bounds(x, y) && 0 <= c < 4 implies #[trigger] out@.byte(x, y, c) == src.byte(
                    src.width - 1 - x,
                    y,
                    c,
                ) by {
                lemma_pixel_index(w as int, x, y, c);
                assert((y * w + x) * 4 + c < src.width * src.height * 4) by (nonlinear_arith)
                    requires
                        0 <= x < w,
                        0 <= y < h,
                        0 <= c < 4,
                        w == src.width,
                        h == src.height,
                ;
                assert(offset_of(w as nat, x, y) + c == (y * w + x) * 4 + c);
            }
            out
        },
        None => {
            assert(false);
            Image::new(0, 0)
        },
    }
}

/// `img` mirrored left to right.
pub fn flip_image_horizontal(img: &Image) -> (out: Image)
    requires
        img.wf(),
    ensures
        is_mirror_of(out@, img@),
{
    mirrored(img)
}

/// What a GIF frame becomes before it joins its animation: refused when its
/// canvas is over `MAX_SOURCE_DIM`, kept when no size is declared or it
/// already has that size, and otherwise resampled to a declared size that
/// passes `check_dimensions`.
pub open spec fn spec_resample_gif_frame(
    source: ImageModel,
    declared: Option<(u32, u32)>,
) -> Result<ImageModel, Seq<char>> {
    if source.width > MAX_SOURCE_DIM || source.height > MAX_SOURCE_DIM {
        Err("GIF is "@ + decimal(source.width) + "x"@ + decimal(source.height) + ", over the "@
            + decimal(MAX_SOURCE_DIM as nat) + "px source limit"@)
    } else {
        match declared {
            None => Ok(source),
            Some((w, h)) => if w == source.width && h == source.height {
                Ok(source)
            } else {
                match spec_check_dimensions(w, h, "declared GIF frame"@) {
                    Err(e) => Err(e),
                    Ok(()) => Ok(resampled(source, w as nat, h as nat, ResizeFilter::Triangle)),
                }
            },
        }
    }
}

/// A source that will be resampled has pixels to resample from.
pub open spec fn resample_defined(source: ImageModel, declared: Option<(u32, u32)>) -> bool {
    match declared {
        Some((w, h)) => (w != source.width || h != source.height) ==> (source.width > 0
            && source.height > 0),
        None => true,
    }
}

/// Brings one GIF frame to the frame size its manifest declares.
pub fn resample_gif_frame(image: Image, declared: Option<(u32, u32)>) -> (out: Result<Image, String>)
    requires
        image.wf(),
        resample_defined(image@, declared),
    ensures
        match out {
            Ok(frame) => frame.wf() && spec_resample_gif_frame(image@, declared) == Ok::<
                ImageModel,
                Seq<char>,
            >(frame@),
            Err(e) => spec_resample_gif_frame(image@, declared) == Err::<ImageModel, Seq<char>>(
                e@,
            ),
        },
{
    let source_w = image.width();
    let source_h = image.height();
    if source_w > MAX_SOURCE_DIM || source_h > MAX_SOURCE_DIM {
        let mut message = String::from_str("GIF is ");
        push_decimal(&mut message, source_w as u64);
        message.append("x");
        push_decimal(&mut message, source_h as u64);
        message.append(", over the ");
        push_decimal(&mut message, MAX_SOURCE_DIM as u64);
        message.append("px source limit");
        return Err(message);
    }
    let (width, height) = match declared {
        None => return Ok(image),
        Some(size) => size,
    };
    if width == source_w && height == source_h {
        return Ok(image);
    }
    match check_dimensions(width, height, "declared GIF frame") {
        Ok(()) => {},
        Err(e) => return Err(e),
    }
    assert(source_w * height * 16 <= isize::MAX && width * height * 16 <= isize::MAX) by (nonlinear_arith)
        requires
            source_w <= MAX_SOURCE_DIM,
            width <= MAX_FRAME_DIM,
            height <= MAX_FRAME_DIM,
    ;
    Ok(resize(&image, width, height, ResizeFilter::Triangle))
}

/// One decoded animation: its frames, their shared size, and each frame's
/// delay in milliseconds.
#[derive(Debug)]
pub struct DecodedGif {
    pub frames: Vec<Image>,
    pub width: u32,
    pub height: u32,
    pub delays_ms: Vec<u32>,
}

/// A GIF's frames as they arrive from the decoder, each checked on arrival so
/// an oversized animation is refused before the rest of it is decoded.
pub struct GifFrames {
    declared: Option<(u32, u32)>,
    frames: Vec<Image>,
    delays_ms: Vec<u32>,
    width: u32,
    height: u32,
}

/// `numer / denom`, or 0 when `denom` is 0 (`checked_div(..).unwrap_or(0)`).
pub open spec fn delay_ms(numer: u32, denom: u32) -> u32 {
    if denom == 0 {
        0
    } else {
        numer / denom
    }
}

pub open spec fn frame_mismatch(index: nat, w: nat, h: nat, fw: nat, fh: nat) -> Seq<char> {
    "GIF frame "@ + decimal(index) + " is "@ + decimal(w) + "x"@ + decimal(h)
        + " but frame 0 is "@ + decimal(fw) + "x"@ + decimal(fh) + "; frames must agree"@
}

/// A GIF being loaded: the frames accepted so far, their delays and the
/// size every frame must have.
pub struct GifProgress {
    pub frames: Seq<ImageModel>,
    pub delays: Seq<u32>,
    pub size: (u32, u32),
}

/// What accepting a decoded frame does: the frame is resampled to the
/// declared size, must agree with the first frame's size (the first must pass
/// `check_dimensions`), and the frames so far with it must pass the budget.
pub open spec fn gif_step(
    p: GifProgress,
    declared: Option<(u32, u32)>,
    image: ImageModel,
    numer: u32,
    denom: u32,
) -> Result<GifProgress, Seq<char>> {
    match spec_resample_gif_frame(image, declared) {
        Err(reason) => Err(reason),
        Ok(frame) => {
            let index = p.frames.len();
            let size_error = if index == 0 {
                spec_check_dimensions(frame.width as u32, frame.height as u32, "GIF"@)
            } else if frame.width != p.size.0 || frame.height != p.size.1 {
                Err(frame_mismatch(index, frame.width, frame.height, p.size.0 as nat, p.size.1 as nat))
            } else {
                Ok(())
            };
            match size_error {
                Err(reason) => Err(reason),
                Ok(()) => match spec_check_budget(
                    (index + 1) as usize,
                    frame.width as u32,
                    frame.height as u32,
                ) {
                    Err(reason) => Err(reason),
                    Ok(()) => Ok(
                        GifProgress {
                            frames: p.frames.push(frame),
                            delays: p.delays.push(delay_ms(numer, denom)),
                            size: (frame.width as u32, frame.height as u32),
                        },
                    ),
                },
            }
        },
    }
}

impl GifFrames {
    /// The frames accepted so far.
    pub closed spec fn frames_model(&self) -> Seq<ImageModel> {
        models(self.frames@)
    }

    pub closed spec fn delays_model(&self) -> Seq<u32> {
        self.delays_ms@
    }

    /// The size of the first frame, which every later frame must have.
    pub closed spec fn size(&self) -> (u32, u32) {
        (self.width, self.height)
    }

    pub closed spec fn declared_size(&self) -> Option<(u32, u32)> {
        self.declared
    }

    pub closed spec fn wf(&self) -> bool {
        &&& self.frames@.len() == self.delays_ms@.len()
        &&& self.frames@.len() <= MAX_FRAMES
        &&& forall|k: int|
            0 <= k < self.frames@.len() ==> {
                &&& (#[trigger] self.frames@[k]).wf()
                &&& self.frames@[k]@.width == self.width
                &&& self.frames@[k]@.height == self.height
            }
        &&& self.frames@.len() > 0 ==> 0 < self.width <= MAX_FRAME_DIM && 0 < self.height
            <= MAX_FRAME_DIM
    }

    /// No frames yet, to be brought to `declared` as they arrive.
    pub fn new(declared: Option<(u32, u32)>) -> (out: GifFrames)
        ensures
            out.wf(),
            out.frames_model().len() == 0,
            out.delays_model().len() == 0,
            out.declared_size() == declared,
            out.progress() == no_progress(),
    {
        let out = GifFrames { declared, frames: Vec::new(), delays_ms: Vec::new(), width: 0, height: 0 };
        assert(out.frames_model() =~= Seq::<ImageModel>::empty());
        assert(out.delays_model() =~= Seq::<u32>::empty());
        out
    }

    /// The frames accepted so far, their delays and their size.
    pub open spec fn progress(&self) -> GifProgress {
        GifProgress { frames: self.frames_model(), delays: self.delays_model(), size: self.size() }
    }

    /// Accepts the next decoded frame and its delay (`numer / denom` ms):
    /// resampled to the declared size, checked against the first frame's
    /// size, and counted against the budget. A refused frame leaves the
    /// frames as they were.
    pub fn push_frame(&mut self, image: Image, delay_numer: u32, delay_denom: u32) -> (out: Result<
        (),
        String,
    >)
        requires
            old(self).wf(),
            image.wf(),
            resample_defined(image@, old(self).declared_size()),
        ensures
            final(self).wf(),
            final(self).declared_size() == old(self).declared_size(),
            match gif_step(old(self).progress(), old(self).declared_size(), image@, delay_numer, delay_denom) {
                Ok(next) => out is Ok && final(self).progress() == next,
                Err(reason) => out matches Err(e) && e@ == reason && final(self).progress() == old(
                    self,
                ).progress(),
            },
    {
        let image = match resample_gif_frame(image, self.declared) {
            Ok(frame) => frame,
            Err(e) => return Err(e),
        };
        let w = image.width();
        let h = image.height();
        let index = self.frames.len();
        if index == 0 {
            match check_dimensions(w, h, "GIF") {
                Ok(()) => {},
                Err(e) => return Err(e),
            }
        } else if w != self.width || h != self.height {
            let mut message = String::from_str("GIF frame ");
            push_decimal(&mut message, index as u64);
            message.append(" is ");
            push_decimal(&mut message, w as u64);
            message.append("x");
            push_decimal(&mut message, h as u64);
            message.append(" but frame 0 is ");
            push_decimal(&mut message, self.width as u64);
            message.append("x");
            push_decimal(&mut message, self.height as u64);
            message.append("; frames must agree");
            return Err(message);
        }
        let count = index + 1;
        match check_budget(count, w, h) {
            Ok(()) => {},
            Err(e) => return Err(e),
        }
        let ghost before = models(self.frames@);
        self.width = w;
        self.height = h;
        self.frames.push(image);
        let delay = match delay_numer.checked_div(delay_denom) {
            Some(d) => d,
            None => 0,
        };
        self.delays_ms.push(delay);
        proof {
            assert(models(self.frames@) =~= before.push(image@));
        }
        Ok(())
    }

    /// The animation, or a refusal when it has no frames; `path` names the
    /// file in the message.
    pub fn finish(self, path: &str) -> (out: Result<DecodedGif, String>)
        requires
            self.wf(),
        ensures
            match out {
                Ok(gif) => {
                    &&& self.frames_model().len() > 0
                    &&& models(gif.frames@) == self.frames_model()
                    &&& gif.delays_ms@ == self.delays_model()
                    &&& (gif.width, gif.height) == self.size()
                },
                Err(e) => self.frames_model().len() == 0 && e@ == "GIF '"@ + path@
                    + "' contains no frames"@,
            },
    {
        if self.frames.len() == 0 {
            let mut message = String::from_str("GIF '");
            message.append(path);
            message.append("' contains no frames");
            return Err(message);
        }
        Ok(
            DecodedGif {
                frames: self.frames,
                width: self.width,
                height: self.height,
                delays_ms: self.delays_ms,
            },
        )
    }
}

// ---------------------------------------------------------------------------
// Loading a GIF
// ---------------------------------------------------------------------------

/// The frames `image`'s GIF decoder yields from `bytes`, as RGBA with each
/// frame's delay as milliseconds `numer / denom`, up to its first error or
/// its end, and whether it then yields an error; none when the bytes do not
/// start a GIF.
pub uninterp spec fn gif_frames(bytes: Seq<u8>) -> Option<(Seq<(ImageModel, u32, u32)>, bool)>;

#[verifier::external_type_specification]
#[verifier::external_body]
pub struct ExFrames<'a>(Frames<'a>);

#[verifier::external_type_specification]
#[verifier::external_body]
pub struct ExFrame(image::Frame);

#[verifier::external_type_specification]
#[verifier::external_body]
pub struct ExImageError(image::ImageError);

/// What a frame iterator still has to yield: its frames up to its first
/// error or its end, and whether an error comes next.
pub uninterp spec fn frames_ahead(frames: Frames<'static>) -> (Seq<(ImageModel, u32, u32)>, bool);

/// `GifDecoder::new` on the bytes, then `into_frames`.
///
/// The iterator holds exactly the frames `gif_frames` names; the decoder's
/// error text, when the bytes do not start a GIF, is passed on and not stated.
#[verifier::external_body]
fn open_gif(bytes: &[u8]) -> (out: Result<Frames<'static>, String>)
    ensures
        match out {
            Ok(frames) => gif_frames(bytes@) == Some(frames_ahead(frames)),
            Err(_) => gif_frames(bytes@) is None,
        },
{
    let cursor = std::io::Cursor::new(bytes.to_vec());
    match image::codecs::gif::GifDecoder::new(cursor) {
        Ok(decoder) => Ok(decoder.into_frames()),
        Err(e) => Err(e.to_string()),
    }
}

/// `Frames::next`: the next frame as RGBA with its delay's `numer_denom_ms`,
/// the decoder's error text, or nothing at the end.
#[verifier::external_body]
fn next_gif_frame(frames: &mut Frames<'static>) -> (out: Option<Result<(Image, u32, u32), String>>)
    ensures
        ({
            let (ahead, failing) = frames_ahead(*old(frames));
            if ahead.len() > 0 {
                out matches Some(Ok((image, numer, denom))) && image.wf() && (image@, numer, denom)
                    == ahead[0] && frames_ahead(*final(frames)) == (ahead.drop_first(), failing)
            } else if failing {
                out matches Some(Err(_))
            } else {
                out is None
            }
        }),
{
    match frames.next()? {
        Ok(frame) => {
            let (numer, denom) = frame.delay().numer_denom_ms();
            let rgba = frame.into_buffer();
            Some(Ok((Image::from_raw(rgba.width(), rgba.height(), rgba.into_raw()).unwrap(), numer, denom)))
        },
        Err(e) => Some(Err(e.to_string())),
    }
}


/// What loading a GIF from its bytes comes to.
pub enum GifLoad {
    /// Every frame accepted: the animation.
    Loaded(GifProgress),
    /// A frame refused, or no frames at all, with the message.
    Refused(Seq<char>),
    /// The decoder failed on the frame at this index.
    FrameFailed(nat),
    /// The bytes do not start a GIF.
    NotAGif,
    /// A frame with no pixels that would have to be resampled.
    Undefined,
}

/// No frames yet.
pub open spec fn no_progress() -> GifProgress {
    GifProgress { frames: Seq::empty(), delays: Seq::empty(), size: (0, 0) }
}

/// Accepting `frames` one after another from `p`, stopping at the first
/// refusal; none where a frame with no pixels would have to be resampled.
pub open spec fn gif_fold(
    p: GifProgress,
    declared: Option<(u32, u32)>,
    frames: Seq<(ImageModel, u32, u32)>,
) -> Option<Result<GifProgress, Seq<char>>>
    decreases frames.len(),
{
    if frames.len() == 0 {
        Some(Ok(p))
    } else if !resample_defined(frames[0].0, declared) {
        None
    } else {
        match gif_step(p, declared, frames[0].0, frames[0].1, frames[0].2) {
            Err(reason) => Some(Err(reason)),
            Ok(q) => gif_fold(q, declared, frames.drop_first()),
        }
    }
}

/// Loading the GIF in `bytes`: each frame the decoder yields is accepted in
/// turn, the first refusal or decoder failure ends the load, and an
/// animation with no frames is refused.
pub open spec fn spec_load_gif(bytes: Seq<u8>, path: Seq<char>, declared: Option<(u32, u32)>) -> GifLoad {
    match gif_frames(bytes) {
        None => GifLoad::NotAGif,
        Some((frames, failing)) => match gif_fold(no_progress(), declared, frames) {
            None => GifLoad::Undefined,
            Some(Err(reason)) => GifLoad::Refused(reason),
            Some(Ok(p)) => if failing {
                GifLoad::FrameFailed(frames.len())
            } else if p.frames.len() == 0 {
                GifLoad::Refused("GIF '"@ + path + "' contains no frames"@)
            } else {
                GifLoad::Loaded(p)
            },
        },
    }
}

/// A message that starts with `head`.
pub open spec fn starts_with(message: Seq<char>, head: Seq<char>) -> bool {
    message.len() >= head.len() && message.subrange(0, head.len() as int) == head
}

/// `head` followed by `detail`.
pub(crate) fn headed(head: String, detail: &str) -> (message: String)
    ensures
        starts_with(message@, head@),
{
    let mut message = head;
    let ghost h = message@;
    message.append(detail);
    assert(message@.subrange(0, h.len() as int) =~= h);
    message
}

/// Whether `image` can be brought to `declared`: `resample_defined`, computed.
fn resample_ok(image: &Image, declared: Option<(u32, u32)>) -> (ok: bool)
    ensures
        ok == resample_defined(image@, declared),
{
    match declared {
        Some((w, h)) => !(w != image.width() || h != image.height()) || (image.width() > 0
            && image.height() > 0),
        None => true,
    }
}

/// The animation in a GIF file's bytes, each frame brought to `declared`
/// and checked against the limits as it is decoded, so an oversized
/// animation is refused before the rest of it is decoded. `path` names the
/// file in the messages. `None` when a frame with no pixels would have to
/// be resampled.
pub fn load_gif(bytes: &[u8], path: &str, declared: Option<(u32, u32)>) -> (out: Option<
    Result<DecodedGif, String>,
>)
    ensures
        match spec_load_gif(bytes@, path@, declared) {
            GifLoad::Loaded(p) => out matches Some(Ok(gif)) && models(gif.frames@) == p.frames
                && gif.delays_ms@ == p.delays && (gif.width, gif.height) == p.size,
            GifLoad::Refused(reason) => out matches Some(Err(e)) && e@ == reason,
            GifLoad::FrameFailed(index) => out matches Some(Err(e)) && starts_with(
                e@,
                "GIF frame "@ + decimal(index) + " failed to decode: "@,
            ),
            GifLoad::NotAGif => out matches Some(Err(e)) && starts_with(
                e@,
                "Could not decode '"@ + path@ + "' as a GIF: "@,
            ),
            GifLoad::Undefined => out is None,
        },
{
    let mut frames = match open_gif(bytes) {
        Ok(frames) => frames,
        Err(e) => {
            let mut head = String::from_str("Could not decode '");
            head.append(path);
            head.append("' as a GIF: ");
            return Some(Err(headed(head, e.as_str())));
        },
    };
    let ghost all = frames_ahead(frames).0;
    let ghost failing = frames_ahead(frames).1;
    let mut acc = GifFrames::new(declared);
    let mut k: usize = 0;
    loop
        invariant_except_break
            frames_ahead(frames).1 == failing,
            k + frames_ahead(frames).0.len() == all.len(),
            gif_fold(acc.progress(), declared, frames_ahead(frames).0) == gif_fold(
                no_progress(),
                declared,
                all,
            ),
        invariant
            gif_frames(bytes@) == Some((all, failing)),
            k == acc.frames_model().len(),
            acc.wf(),
            acc.declared_size() == declared,
        ensures
            !failing,
            gif_fold(no_progress(), declared, all) == Some(Ok::<GifProgress, Seq<char>>(acc.progress())),
        decreases frames_ahead(frames).0.len(),
    {
        let ghost ahead = frames_ahead(frames).0;
        match next_gif_frame(&mut frames) {
            None => {
                break;
            },
            Some(Err(e)) => {
                let mut head = String::from_str("GIF frame ");
                push_decimal(&mut head, k as u64);
                head.append(" failed to decode: ");
                return Some(Err(headed(head, e.as_str())));
            },
            Some(Ok((image, numer, denom))) => {
                if !resample_ok(&image, declared) {
                    return None;
                }
                match acc.push_frame(image, numer, denom) {
                    Ok(()) => {},
                    Err(e) => return Some(Err(e)),
                }
                assert(frames_ahead(frames).0 == ahead.drop_first());
                k = k + 1;
            },
        }
    }
    Some(acc.finish(path))
}


// ---------------------------------------------------------------------------
// Choosing a loader; a folder of frames
// ---------------------------------------------------------------------------

/// What `str::to_lowercase` makes of `s`.
pub uninterp spec fn lowercased(s: Seq<char>) -> Seq<char>;

/// `str::to_lowercase`: the contract names the result.
#[verifier::external_body]
fn lowercase(s: &str) -> (out: String)
    ensures
        out@ == lowercased(s@),
{
    s.to_lowercase()
}

/// How an asset's file is read.
pub enum Loader {
    /// Frame by frame, as an animation.
    Gif,
    /// As one still image cut into a grid.
    Spritesheet,
}

/// Whether `s` ends in `.gif`.
pub open spec fn ends_with_gif(s: Seq<char>) -> bool {
    s.len() >= 4 && s.subrange(s.len() - 4, s.len() as int) == ".gif"@
}

/// The loader for the file at `path`: a GIF exactly when the lower-cased
/// path ends in `.gif`.
pub fn loader_for(path: &str) -> (l: Loader)
    ensures
        (l is Gif) <==> ends_with_gif(lowercased(path@)),
{
    let lower = lowercase(path);
    let chars = chars_of(lower.as_str());
    let n = chars.len();
    proof {
        reveal_strlit(".gif");
    }
    if n >= 4 && chars[n - 4] == '.' && chars[n - 3] == 'g' && chars[n - 2] == 'i' && chars[n - 1]
        == 'f' {
        assert(chars@.subrange(n - 4, n as int) =~= ".gif"@);
        Loader::Gif
    } else {
        proof {
            if n >= 4 {
                let tail = chars@.subrange(n - 4, n as int);
                if tail == ".gif"@ {
                    assert(tail[0] == chars@[n - 4]);
                    assert(tail[1] == chars@[n - 3]);
                    assert(tail[2] == chars@[n - 2]);
                    assert(tail[3] == chars@[n - 1]);
                }
            }
        }
        Loader::Spritesheet
    }
}

/// `order` lists the files once each, in increasing order of name.
pub open spec fn is_name_order(files: Seq<(String, Vec<u8>)>, order: Seq<usize>) -> bool {
    &&& order.len() == files.len()
    &&& forall|k: int| 0 <= k < order.len() ==> #[trigger] order[k] < files.len()
    &&& forall|k: int, l: int|
        0 <= k < l < order.len() ==> text_less(
            files[order[k] as int].0@,
            files[order[l] as int].0@,
        )
}

/// The still image in the file at `order[k]`.
pub open spec fn still_at(files: Seq<(String, Vec<u8>)>, order: Seq<usize>, k: int) -> Option<ImageModel> {
    decoded_still(files[order[k] as int].1@, files[order[k] as int].0@)
}

/// A folder's frames, one file each: the files `(path, bytes)` in order of
/// path, each decoded as the format its path names. Refused when there are
/// none, naming `dir`, or at the first file in that order that does not
/// decode, naming it.
pub fn decode_frames(dir: &str, files: &Vec<(String, Vec<u8>)>) -> (out: Result<Vec<Image>, String>)
    requires
        forall|i: int, j: int|
            0 <= i < files@.len() && 0 <= j < files@.len() && i != j ==> files@[i].0@ != files@[j].0@,
    ensures
        files@.len() == 0 ==> (out matches Err(e) && e@ == dir@ + ": no PNG frames found"@),
        files@.len() > 0 ==> exists|order: Seq<usize>|
            #![trigger is_name_order(files@, order)]
            is_name_order(files@, order) && match out {
                Ok(frames) => frames@.len() == order.len() && forall|k: int|
                    0 <= k < order.len() ==> (#[trigger] frames@[k]).wf() && still_at(files@, order, k)
                        == Some(frames@[k]@),
                Err(e) => exists|k: int|
                    0 <= k < order.len() && (forall|j: int| 0 <= j < k ==> #[trigger] still_at(files@, order, j) is Some)
                        && #[trigger] still_at(files@, order, k) is None && starts_with(
                        e@,
                        files@[order[k] as int].0@ + ": "@,
                    ),
            },
{
    if files.len() == 0 {
        let mut message = String::from_str(dir);
        message.append(": no PNG frames found");
        return Err(message);
    }
    let mut names: Vec<&str> = Vec::new();
    let mut i: usize = 0;
    while i < files.len()
        invariant
            i <= files@.len(),
            names@.len() == i,
            forall|j: int| 0 <= j < i ==> (#[trigger] names@[j])@ == files@[j].0@,
        decreases files@.len() - i,
    {
        names.push(files[i].0.as_str());
        i = i + 1;
    }
    let order = sorted_positions(&names);
    assert forall|k: int, l: int| 0 <= k < l < order@.len() implies text_less(
        files@[order@[k] as int].0@,
        files@[order@[l] as int].0@,
    ) by {
        assert(names@[order@[k] as int]@ == files@[order@[k] as int].0@);
        assert(names@[order@[l] as int]@ == files@[order@[l] as int].0@);
    }
    assert(is_name_order(files@, order@));
    let mut frames: Vec<Image> = Vec::new();
    let mut k: usize = 0;
    while k < order.len()
        invariant
            is_name_order(files@, order@),
            k <= order@.len(),
            frames@.len() == k,
            forall|j: int|
                0 <= j < k ==> (#[trigger] frames@[j]).wf() && still_at(files@, order@, j) == Some(
                    frames@[j]@,
                ),
        decreases order@.len() - k,
    {
        let f = order[k];
        let (path, bytes) = (&files[f].0, &files[f].1);
        match decode_still(bytes.as_slice(), path.as_str()) {
            Ok(image) => {
                frames.push(image);
            },
            Err(e) => {
                let mut head = path.clone();
                head.append(": ");
                let message = headed(head, e.as_str());
                assert(still_at(files@, order@, k as int) is None);
                assert forall|j: int| 0 <= j < k implies #[trigger] still_at(files@, order@, j) is Some by {
                    assert(still_at(files@, order@, j) == Some(frames@[j]@));
                }
                return Err(message);
            },
        }
        k = k + 1;
    }
    Ok(frames)
}


/// Every frame of the GIF in `bytes` with its delay in whole milliseconds,
/// as the importer reads a source animation: refused, naming `path`, when
/// the bytes are no GIF, when a frame fails to decode, or when there are no
/// frames.
pub fn decode_gif_frames(bytes: &[u8], path: &str) -> (out: Result<Vec<(Image, u32)>, String>)
    ensures
        match gif_frames(bytes@) {
            None => out matches Err(e) && starts_with(e@, path@ + ": "@),
            Some((frames, failing)) => if failing {
                out matches Err(e) && starts_with(e@, path@ + ": "@)
            } else if frames.len() == 0 {
                out matches Err(e) && e@ == path@ + ": no frames decoded"@
            } else {
                out matches Ok(v) && v@.len() == frames.len() && forall|k: int|
                    0 <= k < frames.len() ==> (#[trigger] v@[k]).0.wf() && v@[k].0@ == frames[k].0
                        && v@[k].1 == delay_ms(frames[k].1, frames[k].2)
            },
        },
{
    let mut frames = match open_gif(bytes) {
        Ok(frames) => frames,
        Err(e) => {
            let mut head = String::from_str(path);
            head.append(": ");
            return Err(headed(head, e.as_str()));
        },
    };
    let ghost all = frames_ahead(frames).0;
    let ghost failing = frames_ahead(frames).1;
    let mut out: Vec<(Image, u32)> = Vec::new();
    loop
        invariant_except_break
            frames_ahead(frames).1 == failing,
            out@.len() + frames_ahead(frames).0.len() == all.len(),
            frames_ahead(frames).0 == all.skip(out@.len() as int),
        invariant
            gif_frames(bytes@) == Some((all, failing)),
            out@.len() <= all.len(),
            forall|k: int|
                0 <= k < out@.len() ==> (#[trigger] out@[k]).0.wf() && out@[k].0@ == all[k].0
                    && out@[k].1 == delay_ms(all[k].1, all[k].2),
        ensures
            !failing,
            out@.len() == all.len(),
        decreases frames_ahead(frames).0.len(),
    {
        let ghost ahead = frames_ahead(frames).0;
        match next_gif_frame(&mut frames) {
            None => {
                break;
            },
            Some(Err(e)) => {
                let mut head = String::from_str(path);
                head.append(": ");
                return Err(headed(head, e.as_str()));
            },
            Some(Ok((image, numer, denom))) => {
                let delay = match numer.checked_div(denom) {
                    Some(d) => d,
                    None => 0,
                };
                assert(ahead[0] == all[out@.len() as int]);
                out.push((image, delay));
                assert(frames_ahead(frames).0 =~= all.skip(out@.len() as int));
            },
        }
    }
    if out.len() == 0 {
        let mut message = String::from_str(path);
        message.append(": no frames decoded");
        return Err(message);
    }
    Ok(out)
}


/// A cell lies wholly inside the `img_w` x `img_h` image.
pub open spec fn cell_inside(cell: (int, int), img_w: nat, img_h: nat, fw: int, fh: int) -> bool {
    0 <= cell.0 && cell.0 + fw <= img_w && 0 <= cell.1 && cell.1 + fh <= img_h
}

proof fn lemma_row_cells(
    img_w: nat,
    img_h: nat,
    s: SpritesheetConfig,
    fw: int,
    fh: int,
    r: int,
    c: nat,
)
    requires
        fw >= 0,
        fh >= 0,
        r >= 0,
    ensures
        cells_in_row(img_w, img_h, s, fw, fh, r, c).len() <= c,
        forall|k: int|
            0 <= k < cells_in_row(img_w, img_h, s, fw, fh, r, c).len() ==> cell_inside(
                #[trigger] cells_in_row(img_w, img_h, s, fw, fh, r, c)[k],
                img_w,
                img_h,
                fw,
                fh,
            ),
    decreases c,
{
    if c > 0 {
        lemma_row_cells(img_w, img_h, s, fw, fh, r, (c - 1) as nat);
        let k = c - 1;
        assert(k * (fw + or_zero(s.spacing_x)) >= 0) by (nonlinear_arith)
            requires
                k >= 0,
                fw >= 0,
                or_zero(s.spacing_x) >= 0,
        ;
        assert(r * (fh + or_zero(s.spacing_y)) >= 0) by (nonlinear_arith)
            requires
                r >= 0,
                fh >= 0,
                or_zero(s.spacing_y) >= 0,
        ;
    }
}

proof fn lemma_rows_cells(
    img_w: nat,
    img_h: nat,
    s: SpritesheetConfig,
    fw: int,
    fh: int,
    cols: nat,
    r: nat,
)
    requires
        fw >= 0,
        fh >= 0,
    ensures
        cells_in_rows(img_w, img_h, s, fw, fh, cols, r).len() <= cols * r,
        forall|k: int|
            0 <= k < cells_in_rows(img_w, img_h, s, fw, fh, cols, r).len() ==> cell_inside(
                #[trigger] cells_in_rows(img_w, img_h, s, fw, fh, cols, r)[k],
                img_w,
                img_h,
                fw,
                fh,
            ),
    decreases r,
{
    if r > 0 {
        lemma_rows_cells(img_w, img_h, s, fw, fh, cols, (r - 1) as nat);
        lemma_row_cells(img_w, img_h, s, fw, fh, (r - 1) as int, cols);
        let before = cells_in_rows(img_w, img_h, s, fw, fh, cols, (r - 1) as nat);
        let row = cells_in_row(img_w, img_h, s, fw, fh, (r - 1) as int, cols);
        assert(cols * (r - 1) + cols == cols * r) by (nonlinear_arith);
        assert forall|k: int|
            0 <= k < cells_in_rows(img_w, img_h, s, fw, fh, cols, r).len() implies cell_inside(
            #[trigger] cells_in_rows(img_w, img_h, s, fw, fh, cols, r)[k],
            img_w,
            img_h,
            fw,
            fh,
        ) by {
            if k < before.len() {
                assert(cells_in_rows(img_w, img_h, s, fw, fh, cols, r)[k] == before[k]);
            } else {
                assert(cells_in_rows(img_w, img_h, s, fw, fh, cols, r)[k] == row[k - before.len()]);
            }
        }
    }
}

/// A sliced spritesheet has 1 to `MAX_FRAMES` frames, each 1 to
/// `MAX_FRAME_DIM` pixels a side, and every frame's cell lies wholly inside
/// the image.
pub proof fn law_sliced_frames_lie_inside(img_w: nat, img_h: nat, s: SpritesheetConfig, path: Seq<char>)
    requires
        img_w <= u32::MAX,
        img_h <= u32::MAX,
        spec_slice_spritesheet(img_w, img_h, s, path) is Ok,
    ensures
        ({
            let (cells, fw, fh) = spec_slice_spritesheet(img_w, img_h, s, path)->Ok_0;
            &&& fw as int == sheet_frame_width(img_w, s)
            &&& fh as int == sheet_frame_height(img_h, s)
            &&& cells == cells_in_rows(
                img_w,
                img_h,
                s,
                fw as int,
                fh as int,
                sheet_columns(img_w, s) as nat,
                sheet_rows(img_h, s) as nat,
            )
            &&& 1 <= fw <= MAX_FRAME_DIM
            &&& 1 <= fh <= MAX_FRAME_DIM
            &&& 1 <= cells.len() <= MAX_FRAMES
            &&& forall|k: int|
                0 <= k < cells.len() ==> cell_inside(#[trigger] cells[k], img_w, img_h, fw as int, fh as int)
        }),
{
    let cols = sheet_columns(img_w, s);
    let rows = sheet_rows(img_h, s);
    let fw = sheet_frame_width(img_w, s);
    let fh = sheet_frame_height(img_h, s);
    assert(cols >= 0 && rows >= 0);
    lemma_rows_cells(img_w, img_h, s, fw, fh, cols as nat, rows as nat);
    if s.frame_width is None {
        let n = sat_sub(img_w as int, or_zero(s.margin_x) + or_zero(s.spacing_x) * sat_sub(cols, 1));
        if cols > 0 {
            assert(n / cols <= n) by (nonlinear_arith)
                requires
                    n >= 0,
                    cols > 0,
            ;
        }
    }
    if s.frame_height is None {
        let n = sat_sub(img_h as int, or_zero(s.margin_y) + or_zero(s.spacing_y) * sat_sub(rows, 1));
        if rows > 0 {
            assert(n / rows <= n) by (nonlinear_arith)
                requires
                    n >= 0,
                    rows > 0,
            ;
        }
    }
    if cols * rows <= usize::MAX {
        assert(frame_budget_count(cols, rows) == cols * rows);
    }
    assert(cols * rows >= 0) by (nonlinear_arith)
        requires
            cols >= 0,
            rows >= 0,
    ;
}


/// An asset's frames from its file, as the engine loads them.
pub struct LoadedFrames {
    pub frames: Vec<Image>,
    pub width: u32,
    pub height: u32,
    /// Each frame's delay when the file gives one (a GIF); empty otherwise.
    pub delays_ms: Vec<u32>,
}

/// The frames of an asset file: a GIF, by its lower-cased path, is loaded
/// frame by frame at the size the spritesheet declares; anything else is
/// one still image cut into the declared grid. `None` where the loader's
/// arithmetic is undefined (`load_gif`, `load_spritesheet`).
pub fn load_asset_file(bytes: &[u8], path: &str, sheet: &SpritesheetConfig) -> (out: Option<
    Result<LoadedFrames, String>,
>)
    ensures
        ends_with_gif(lowercased(path@)) ==> match spec_load_gif(
            bytes@,
            path@,
            match (sheet.frame_width, sheet.frame_height) {
                (Some(w), Some(h)) => Some((w, h)),
                _ => None,
            },
        ) {
            GifLoad::Loaded(p) => out matches Some(Ok(l)) && models(l.frames@) == p.frames
                && l.delays_ms@ == p.delays && (l.width, l.height) == p.size,
            GifLoad::Refused(reason) => out matches Some(Err(e)) && e@ == reason,
            GifLoad::FrameFailed(index) => out matches Some(Err(e)) && starts_with(
                e@,
                "GIF frame "@ + decimal(index) + " failed to decode: "@,
            ),
            GifLoad::NotAGif => out matches Some(Err(e)) && starts_with(
                e@,
                "Could not decode '"@ + path@ + "' as a GIF: "@,
            ),
            GifLoad::Undefined => out is None,
        },
        !ends_with_gif(lowercased(path@)) ==> match decoded_still(bytes@, path@) {
            None => out matches Some(Err(e)) && decode_refusal(path@, e@),
            Some(image) => if layout_defined(image.width, image.height, *sheet) {
                out matches Some(r) && match r {
                    Ok(l) => l.delays_ms@.len() == 0 && slices_sheet(
                        image,
                        *sheet,
                        path@,
                        Ok((l.frames, l.width, l.height)),
                    ),
                    Err(e) => slices_sheet(image, *sheet, path@, Err(e)),
                }
            } else {
                out is None
            },
        },
{
    match loader_for(path) {
        Loader::Gif => match load_gif(bytes, path, declared_frame_size(sheet)) {
            None => None,
            Some(Err(e)) => Some(Err(e)),
            Some(Ok(gif)) => Some(
                Ok(
                    LoadedFrames {
                        frames: gif.frames,
                        width: gif.width,
                        height: gif.height,
                        delays_ms: gif.delays_ms,
                    },
                ),
            ),
        },
        Loader::Spritesheet => match load_spritesheet(bytes, path, sheet) {
            None => None,
            Some(Err(e)) => Some(Err(e)),
            Some(Ok((frames, width, height))) => Some(
                Ok(LoadedFrames { frames, width, height, delays_ms: Vec::new() }),
            ),
        },
    }
}

/// The refusal for a manifest whose file is missing: none for a procedural
/// asset or one with a built-in sprite set, which fall back to drawing it.
pub fn missing_file_error(path: &str, asset_type: &str, builtin: bool) -> (out: Option<String>)
    ensures
        match out {
            Some(e) => asset_type@ != "procedural"@ && !builtin && e@ == "Spritesheet file not found at path '"@
                + path@ + "'"@,
            None => asset_type@ == "procedural"@ || builtin,
        },
{
    if same_text(asset_type, "procedural") || builtin {
        return None;
    }
    let mut message = String::from_str("Spritesheet file not found at path '");
    message.append(path);
    message.append("'");
    Some(message)
}


/// What a loaded spritesheet holds: 1 to `MAX_FRAMES` frames, each an
/// `fw` x `fh` crop (1 to `MAX_FRAME_DIM` a side) of a cell lying wholly
/// inside the image, the cells in row-major grid order (`cells_in_rows`).
pub proof fn law_loaded_sheet_frames(
    image: ImageModel,
    sheet: SpritesheetConfig,
    path: Seq<char>,
    frames: Vec<Image>,
    fw: u32,
    fh: u32,
)
    requires
        image.width <= u32::MAX,
        image.height <= u32::MAX,
        slices_sheet(image, sheet, path, Ok((frames, fw, fh))),
    ensures
        ({
            let cells = spec_slice_spritesheet(image.width, image.height, sheet, path)->Ok_0.0;
            &&& cells == cells_in_rows(
                image.width,
                image.height,
                sheet,
                fw as int,
                fh as int,
                sheet_columns(image.width, sheet) as nat,
                sheet_rows(image.height, sheet) as nat,
            )
            &&& 1 <= fw <= MAX_FRAME_DIM
            &&& 1 <= fh <= MAX_FRAME_DIM
            &&& 1 <= frames@.len() <= MAX_FRAMES
            &&& frames@.len() == cells.len()
            &&& forall|k: int|
                0 <= k < frames@.len() ==> {
                    &&& cell_inside(cells[k], image.width, image.height, fw as int, fh as int)
                    &&& (#[trigger] frames@[k])@.is_crop_of(
                        image,
                        cells[k].0,
                        cells[k].1,
                        fw as nat,
                        fh as nat,
                    )
                    &&& frames@[k]@.width == fw
                    &&& frames@[k]@.height == fh
                }
        }),
{
    law_sliced_frames_lie_inside(image.width, image.height, sheet, path);
    let cells = spec_slice_spritesheet(image.width, image.height, sheet, path)->Ok_0.0;
    assert forall|k: int| 0 <= k < frames@.len() implies {
        &&& cell_inside(cells[k], image.width, image.height, fw as int, fh as int)
        &&& (#[trigger] frames@[k])@.is_crop_of(image, cells[k].0, cells[k].1, fw as nat, fh as nat)
        &&& frames@[k]@.width == fw
        &&& frames@[k]@.height == fh
    } by {
        assert(models(frames@)[k] == frames@[k]@);
    }
}

} // verus!
