//! What the sprite export writes besides the images themselves: each frame as
//! an SVG of one-pixel squares, the states in the order their frames come,
//! the grid of the contact sheet and the gallery page that shows them all.

use vstd::prelude::*;
use crate::asset_decode::{resampled, resize, ResizeFilter};
use crate::meshbook::{frames_model, joined, lemma_joined_push};
use crate::raster::{blank, overlaid, overlay, Image, ImageModel};
use crate::parity::{layout_model, SpriteSet};
use crate::sorting::{lemma_sorted_order_unique, sorted_by, strict_total_on};
use crate::text::{decimal, digit_char, push_decimal};

verus! {

// ---------------------------------------------------------------------------
// SVG
// ---------------------------------------------------------------------------

/// The opacity `a / 255` in thousandths, rounded to the nearest one (no
/// value of `a` falls half way).
pub open spec fn alpha_thousandths(a: nat) -> nat {
    (a * 2000 + 255) / 510
}

/// The opacity `a / 255` with three decimals, as `{:.3}` writes it.
pub open spec fn alpha_text(a: nat) -> Seq<char> {
    let t = alpha_thousandths(a);
    decimal(t / 1000) + "."@ + seq![
        digit_char((t / 100) % 10),
        digit_char((t / 10) % 10),
        digit_char(t % 10),
    ]
}

/// Appends `alpha_text(a)`.
fn push_alpha(out: &mut String, a: u8)
    ensures
        final(out)@ == old(out)@ + alpha_text(a as nat),
{
    let t: u32 = (a as u32 * 2000 + 255) / 510;
    assert(t <= 1000);
    push_decimal(out, (t / 1000) as u64);
    out.append(".");
    push_decimal(out, ((t / 100) % 10) as u64);
    push_decimal(out, ((t / 10) % 10) as u64);
    push_decimal(out, (t % 10) as u64);
    proof {
        let d1 = ((t / 100) % 10) as nat;
        let d2 = ((t / 10) % 10) as nat;
        let d3 = (t % 10) as nat;
        assert(decimal(d1) == seq![digit_char(d1)]);
        assert(decimal(d2) == seq![digit_char(d2)]);
        assert(decimal(d3) == seq![digit_char(d3)]);
        assert(final(out)@ =~= old(out)@ + alpha_text(a as nat));
    }
}

/// One opaque or partly transparent pixel as a one-pixel square.
pub open spec fn rect_text(x: nat, y: nat, p: Seq<u8>) -> Seq<char> {
    "<rect x=\""@ + decimal(x) + "\" y=\""@ + decimal(y)
        + "\" width=\"1\" height=\"1\" fill=\"rgba("@ + decimal(p[0] as nat) + ","@ + decimal(
        p[1] as nat,
    ) + ","@ + decimal(p[2] as nat) + ","@ + alpha_text(p[3] as nat) + ")\"/>\n"@
}

/// Pixel `(x, y)` of `frame` in the SVG: nothing when fully transparent.
pub open spec fn pixel_svg(frame: ImageModel, x: int, y: int) -> Seq<char> {
    if frame.byte(x, y, 3) == 0 {
        Seq::empty()
    } else {
        rect_text(x as nat, y as nat, frame.pixel(x, y))
    }
}

/// The first `n` pixels of row `y`.
pub open spec fn row_svg(frame: ImageModel, y: int, n: nat) -> Seq<char>
    decreases n,
{
    if n == 0 {
        Seq::empty()
    } else {
        row_svg(frame, y, (n - 1) as nat) + pixel_svg(frame, n - 1, y)
    }
}

/// The first `rows` rows, each `width` pixels.
pub open spec fn rows_svg(frame: ImageModel, width: nat, rows: nat) -> Seq<char>
    decreases rows,
{
    if rows == 0 {
        Seq::empty()
    } else {
        rows_svg(frame, width, (rows - 1) as nat) + row_svg(frame, rows - 1, width)
    }
}

/// The SVG of the `width` x `height` corner of `frame`.
pub open spec fn svg_text(frame: ImageModel, width: nat, height: nat) -> Seq<char> {
    "<svg xmlns=\"http://www.w3.org/2000/svg\" viewBox=\"0 0 "@ + decimal(width) + " "@
        + decimal(height) + "\" shape-rendering=\"crispEdges\">\n"@ + rows_svg(frame, width, height)
        + "</svg>\n"@
}

/// Appends one pixel's square, or nothing for a transparent pixel.
fn push_pixel_svg(out: &mut String, frame: &Image, x: u32, y: u32)
    requires
        frame.wf(),
        x < frame@.width,
        y < frame@.height,
    ensures
        final(out)@ == old(out)@ + pixel_svg(frame@, x as int, y as int),
{
    let p = frame.get_pixel(x, y);
    if p[3] == 0 {
        assert(final(out)@ =~= old(out)@ + pixel_svg(frame@, x as int, y as int));
        return;
    }
    out.append("<rect x=\"");
    push_decimal(out, x as u64);
    out.append("\" y=\"");
    push_decimal(out, y as u64);
    out.append("\" width=\"1\" height=\"1\" fill=\"rgba(");
    push_decimal(out, p[0] as u64);
    out.append(",");
    push_decimal(out, p[1] as u64);
    out.append(",");
    push_decimal(out, p[2] as u64);
    out.append(",");
    push_alpha(out, p[3]);
    out.append(")\"/>\n");
    assert(final(out)@ =~= old(out)@ + pixel_svg(frame@, x as int, y as int));
}

/// The `width` x `height` corner of `frame` as an SVG: one square a pixel
/// that is not fully transparent, row by row.
pub fn render_svg(frame: &Image, width: u32, height: u32) -> (svg: String)
    requires
        frame.wf(),
        width <= frame@.width,
        height <= frame@.height,
    ensures
        svg@ == svg_text(frame@, width as nat, height as nat),
{
    let mut svg = String::from_str("<svg xmlns=\"http://www.w3.org/2000/svg\" viewBox=\"0 0 ");
    push_decimal(&mut svg, width as u64);
    svg.append(" ");
    push_decimal(&mut svg, height as u64);
    svg.append("\" shape-rendering=\"crispEdges\">\n");
    let ghost head = svg@;
    let mut y: u32 = 0;
    while y < height
        invariant
            frame.wf(),
            width <= frame@.width,
            height <= frame@.height,
            y <= height,
            svg@ == head + rows_svg(frame@, width as nat, y as nat),
        decreases height - y,
    {
        let ghost before = svg@;
        let mut x: u32 = 0;
        while x < width
            invariant
                frame.wf(),
                width <= frame@.width,
                y < frame@.height,
                x <= width,
                svg@ == before + row_svg(frame@, y as int, x as nat),
            decreases width - x,
        {
            push_pixel_svg(&mut svg, frame, x, y);
            assert(svg@ =~= before + row_svg(frame@, y as int, (x + 1) as nat));
            x = x + 1;
        }
        assert(svg@ =~= head + rows_svg(frame@, width as nat, (y + 1) as nat));
        y = y + 1;
    }
    svg.append("</svg>\n");
    assert(svg@ =~= svg_text(frame@, width as nat, height as nat));
    svg
}

// ---------------------------------------------------------------------------
// States in frame order
// ---------------------------------------------------------------------------

/// Entry `a` of `layout` goes before entry `b`: its first frame is smaller,
/// or the same and it comes earlier (a stable sort by first frame).
pub open spec fn frames_first(layout: Seq<(Seq<char>, Seq<usize>)>, a: int, b: int) -> bool {
    ||| layout[a].1[0] < layout[b].1[0]
    ||| (layout[a].1[0] == layout[b].1[0] && a < b)
}

/// `order` lists every entry of `layout` once, by first frame.
pub open spec fn is_first_frame_order(layout: Seq<(Seq<char>, Seq<usize>)>, order: Seq<usize>) -> bool {
    &&& order.len() == layout.len()
    &&& forall|i: int| 0 <= i < order.len() ==> order[i] < layout.len()
    &&& forall|i: int, j: int|
        0 <= i < j < order.len() ==> #[trigger] frames_first(layout, order[i] as int, order[j] as int)
}

/// Every state animates through at least one frame.
pub open spec fn states_have_frames(layout: Seq<(String, Vec<usize>)>) -> bool {
    forall|k: int| 0 <= k < layout.len() ==> (#[trigger] layout[k]).1@.len() > 0
}

/// The positions of `layout`'s entries, ordered by first frame.
pub fn first_frame_order(layout: &Vec<(String, Vec<usize>)>) -> (order: Vec<usize>)
    requires
        states_have_frames(layout@),
    ensures
        is_first_frame_order(layout_model(layout@), order@),
{
    let ghost model = layout_model(layout@);
    let n = layout.len();
    let mut order: Vec<usize> = Vec::new();
    let mut k: usize = 0;
    while k < n
        invariant
            n == layout@.len(),
            model == layout_model(layout@),
            states_have_frames(layout@),
            k <= n,
            order@.len() == k,
            forall|i: int| 0 <= i < order@.len() ==> order@[i] < k,
            forall|i: int, j: int|
                0 <= i < j < order@.len() ==> #[trigger] frames_first(
                    model,
                    order@[i] as int,
                    order@[j] as int,
                ),
        decreases n - k,
    {
        assert(layout@[k as int].1@.len() > 0);
        let first = layout[k].1[0];
        let mut p: usize = 0;
        while p < order.len() && !(first < layout[order[p]].1[0])
            invariant
                n == layout@.len(),
                model == layout_model(layout@),
                states_have_frames(layout@),
                k < n,
                first == model[k as int].1[0],
                order@.len() == k,
                forall|i: int| 0 <= i < order@.len() ==> order@[i] < k,
                p <= order@.len(),
                forall|i: int| 0 <= i < p ==> #[trigger] frames_first(model, order@[i] as int, k as int),
            decreases order@.len() - p,
        {
            assert(layout@[order@[p as int] as int].1@.len() > 0);
            p = p + 1;
        }
        if p < order.len() {
            assert(layout@[order@[p as int] as int].1@.len() > 0);
            assert(frames_first(model, k as int, order@[p as int] as int));
        }
        let ghost before = order@;
        order.insert(p, k);
        proof {
            assert forall|i: int, j: int| 0 <= i < j < order@.len() implies #[trigger] frames_first(
                model,
                order@[i] as int,
                order@[j] as int,
            ) by {
                if j < p {
                    assert(order@[i] == before[i] && order@[j] == before[j]);
                } else if j == p {
                    assert(order@[i] == before[i]);
                } else if i == p {
                    assert(order@[j] == before[j - 1]);
                    if j - 1 > p {
                        assert(frames_first(model, before[p as int] as int, before[j - 1] as int));
                    }
                } else if i < p {
                    assert(order@[i] == before[i] && order@[j] == before[j - 1]);
                } else {
                    assert(order@[i] == before[i - 1] && order@[j] == before[j - 1]);
                }
            }
        }
        k = k + 1;
    }
    order
}

/// `sorted` holds `layout`'s entries in first-frame order.
pub open spec fn in_first_frame_order(
    sorted: Seq<(Seq<char>, Seq<usize>)>,
    layout: Seq<(Seq<char>, Seq<usize>)>,
) -> bool {
    exists|order: Seq<usize>|
        #![trigger is_first_frame_order(layout, order)]
        is_first_frame_order(layout, order) && sorted.len() == order.len() && forall|j: int|
            0 <= j < order.len() ==> #[trigger] sorted[j] == layout[order[j] as int]
}

/// The set's states ordered by their first frame, as the export lists them.
pub fn sorted_states(layout: &Vec<(String, Vec<usize>)>) -> (sorted: Vec<(String, Vec<usize>)>)
    requires
        states_have_frames(layout@),
    ensures
        in_first_frame_order(layout_model(sorted@), layout_model(layout@)),
        states_have_frames(sorted@),
{
    let ghost model = layout_model(layout@);
    let order = first_frame_order(layout);
    let mut sorted: Vec<(String, Vec<usize>)> = Vec::new();
    let mut m: usize = 0;
    while m < order.len()
        invariant
            model == layout_model(layout@),
            states_have_frames(layout@),
            is_first_frame_order(model, order@),
            m <= order@.len(),
            sorted@.len() == m,
            states_have_frames(sorted@),
            forall|j: int|
                0 <= j < m ==> #[trigger] layout_model(sorted@)[j] == model[order@[j] as int],
        decreases order@.len() - m,
    {
        let i = order[m];
        let entry = (layout[i].0.clone(), layout[i].1.clone());
        assert(entry.0@ == layout@[i as int].0@);
        assert(entry.1@ == layout@[i as int].1@);
        let ghost before = sorted@;
        sorted.push(entry);
        proof {
            assert forall|j: int| 0 <= j < m + 1 implies #[trigger] layout_model(sorted@)[j]
                == model[order@[j] as int] by {
                if j < m {
                    assert(sorted@[j] == before[j]);
                    assert(layout_model(before)[j] == model[order@[j] as int]);
                } else {
                    assert(sorted@[j] == entry);
                }
            }
            assert forall|k: int| 0 <= k < sorted@.len() implies (#[trigger] sorted@[k]).1@.len() > 0 by {
                if k < m {
                    assert(sorted@[k] == before[k]);
                } else {
                    assert(layout@[i as int].1@.len() > 0);
                }
            }
        }
        m = m + 1;
    }
    assert(is_first_frame_order(model, order@));
    sorted
}

/// There is one first-frame order of a layout, so `sorted_states` has one
/// possible result.
pub proof fn law_first_frame_order_is_unique(
    layout: Seq<(Seq<char>, Seq<usize>)>,
    a: Seq<usize>,
    b: Seq<usize>,
)
    requires
        is_first_frame_order(layout, a),
        is_first_frame_order(layout, b),
    ensures
        a == b,
{
    let before = |x: int, y: int| frames_first(layout, x, y);
    let n = layout.len();
    assert(strict_total_on(before, n));
    assert(sorted_by(before, n, a));
    assert(sorted_by(before, n, b));
    lemma_sorted_order_unique(before, n, a, b);
}

// ---------------------------------------------------------------------------
// Contact sheet
// ---------------------------------------------------------------------------

/// How many times larger the contact sheet draws each pixel.
pub const SCALE_FACTOR: u32 = 8;

/// The most frames across one row of the contact sheet.
pub const SHEET_COLUMNS: u32 = 8;

/// Columns of the contact sheet for `total` frames.
pub open spec fn sheet_columns(total: nat) -> nat {
    if total < SHEET_COLUMNS {
        total
    } else {
        SHEET_COLUMNS as nat
    }
}

/// Rows of the contact sheet for `total` frames: enough for all of them.
pub open spec fn sheet_rows(total: nat) -> nat {
    let c = sheet_columns(total);
    ((total + c - 1) as nat) / c
}

/// Columns and rows of the contact sheet for `total` frames.
pub fn sheet_grid(total: u32) -> (grid: (u32, u32))
    requires
        total > 0,
    ensures
        grid.0 == sheet_columns(total as nat),
        grid.1 == sheet_rows(total as nat),
{
    let columns: u32 = if total < SHEET_COLUMNS { total } else { SHEET_COLUMNS };
    let extra: u32 = if total % columns == 0 { 0 } else { 1 };
    let rows = total / columns + extra;
    assert(rows == ((total + columns - 1) as nat) / (columns as nat)) by (nonlinear_arith)
        requires
            columns > 0,
            extra == (if total % columns == 0 { 0int } else { 1int }),
            rows == total / columns + extra,
    {
        let q = total / columns;
        let r = total % columns;
        assert(total == q * columns + r);
        if r == 0 {
            assert((total + columns - 1) == q * columns + (columns - 1));
        } else {
            assert((total + columns - 1) == (q + 1) * columns + (r - 1));
        }
    }
    (columns, rows)
}

/// The frames the sheet draws, slot by slot: each state's frames in turn.
pub open spec fn slot_frames(sorted: Seq<(Seq<char>, Seq<usize>)>) -> Seq<usize> {
    joined(sorted.map_values(|e: (Seq<char>, Seq<usize>)| e.1))
}

/// The frames of `sorted`'s states, one after another.
pub fn sheet_slots(sorted: &Vec<(String, Vec<usize>)>) -> (slots: Vec<usize>)
    ensures
        slots@ == slot_frames(layout_model(sorted@)),
{
    let ghost parts = layout_model(sorted@).map_values(|e: (Seq<char>, Seq<usize>)| e.1);
    let mut slots: Vec<usize> = Vec::new();
    let mut k: usize = 0;
    while k < sorted.len()
        invariant
            k <= sorted@.len(),
            parts == layout_model(sorted@).map_values(|e: (Seq<char>, Seq<usize>)| e.1),
            slots@ == joined(parts.take(k as int)),
        decreases sorted@.len() - k,
    {
        let indices = &sorted[k].1;
        let ghost before = slots@;
        let mut f: usize = 0;
        while f < indices.len()
            invariant
                f <= indices@.len(),
                slots@ == before + indices@.take(f as int),
            decreases indices@.len() - f,
        {
            slots.push(indices[f]);
            assert(slots@ =~= before + indices@.take(f as int + 1));
            f = f + 1;
        }
        proof {
            assert(indices@.take(indices@.len() as int) =~= indices@);
            assert(parts[k as int] == indices@);
            assert(parts.take(k as int + 1) =~= parts.take(k as int).push(parts[k as int]));
            lemma_joined_push(parts.take(k as int), parts[k as int]);
        }
        k = k + 1;
    }
    assert(parts.take(sorted@.len() as int) =~= parts);
    slots
}

/// A frame drawn at the sheet's scale.
pub open spec fn enlarged(frame: ImageModel) -> ImageModel {
    resampled(
        frame,
        frame.width * SCALE_FACTOR as nat,
        frame.height * SCALE_FACTOR as nat,
        ResizeFilter::Nearest,
    )
}

/// Where slot `s` of a sheet with `columns` columns of `cell_w` x `cell_h`
/// cells has its corner.
pub open spec fn slot_corner(s: int, columns: nat, cell_w: nat, cell_h: nat) -> (int, int) {
    ((s % (columns as int)) * cell_w, (s / (columns as int)) * cell_h)
}

/// `base` with the first `k` slots drawn over it, each enlarged frame
/// composited at its slot's corner.
pub open spec fn sheet_after(
    frames: Seq<ImageModel>,
    slots: Seq<usize>,
    columns: nat,
    cell_w: nat,
    cell_h: nat,
    base: ImageModel,
    k: nat,
) -> ImageModel
    decreases k,
{
    if k == 0 {
        base
    } else {
        let s = k - 1;
        let corner = slot_corner(s, columns, cell_w, cell_h);
        overlaid(
            sheet_after(frames, slots, columns, cell_w, cell_h, base, (k - 1) as nat),
            enlarged(frames[slots[s] as int]),
            corner.0,
            corner.1,
        )
    }
}

/// The contact sheet of `frames`, each cell `width` x `height` frame pixels,
/// drawing `slots` in order onto a transparent sheet.
pub open spec fn contact_sheet_of(
    frames: Seq<ImageModel>,
    width: nat,
    height: nat,
    slots: Seq<usize>,
) -> ImageModel {
    let columns = sheet_columns(frames.len());
    let rows = sheet_rows(frames.len());
    let cell_w = width * SCALE_FACTOR as nat;
    let cell_h = height * SCALE_FACTOR as nat;
    sheet_after(frames, slots, columns, cell_w, cell_h, blank(columns * cell_w, rows * cell_h), slots.len())
}

/// What drawing the contact sheet of `set` with `sorted`'s states needs:
/// frames to draw, each with pixels and small enough to enlarge, slots that
/// name frames of the set, and a sheet whose sides fit in `u32` and whose
/// pixels fit in memory.
pub open spec fn sheet_drawable(set: SpriteSet, sorted: Seq<(String, Vec<usize>)>) -> bool {
    let frames = frames_model(set.frames);
    let slots = slot_frames(layout_model(sorted));
    let columns = sheet_columns(frames.len());
    let rows = sheet_rows(frames.len());
    let sheet_w = columns * set.width * SCALE_FACTOR;
    let sheet_h = rows * set.height * SCALE_FACTOR;
    &&& 0 < frames.len() <= u32::MAX
    &&& slots.len() <= u32::MAX
    &&& forall|f: int|
        0 <= f < frames.len() ==> {
            &&& (#[trigger] set.frames@[f]).wf()
            &&& set.frames@[f]@.width > 0
            &&& set.frames@[f]@.height > 0
            &&& set.frames@[f]@.width * SCALE_FACTOR <= u32::MAX
            &&& set.frames@[f]@.height * SCALE_FACTOR <= u32::MAX
            &&& (set.frames@[f]@.width * SCALE_FACTOR) * (set.frames@[f]@.height * SCALE_FACTOR) * 16
                <= isize::MAX
        }
    &&& forall|s: int| 0 <= s < slots.len() ==> #[trigger] slots[s] < frames.len()
    &&& sheet_w <= u32::MAX
    &&& sheet_h <= u32::MAX
    &&& sheet_w * sheet_h * 4 <= usize::MAX
    &&& slots.len() > 0 ==> ((slots.len() - 1) as nat / columns) * (set.height * SCALE_FACTOR)
        <= u32::MAX
}

/// The contact sheet: every frame of `sorted`'s states, in order, enlarged
/// and laid out eight to a row on a transparent sheet.
pub fn contact_sheet(set: &SpriteSet, sorted: &Vec<(String, Vec<usize>)>) -> (sheet: Image)
    requires
        sheet_drawable(*set, sorted@),
    ensures
        sheet@ == contact_sheet_of(
            frames_model(set.frames),
            set.width as nat,
            set.height as nat,
            slot_frames(layout_model(sorted@)),
        ),
{
    let ghost frames = frames_model(set.frames);
    let total = set.frames.len() as u32;
    let (columns, rows) = sheet_grid(total);
    let ghost ghost_slots = slot_frames(layout_model(sorted@));
    proof {
        assert(columns <= SHEET_COLUMNS);
        assert(rows >= 1) by (nonlinear_arith)
            requires
                columns >= 1,
                total >= 1,
                rows == ((total + columns - 1) as nat) / (columns as nat),
        ;
        assert(columns * (set.width * SCALE_FACTOR) <= u32::MAX) by (nonlinear_arith)
            requires
                columns * set.width * SCALE_FACTOR <= u32::MAX,
        ;
        assert(rows * (set.height * SCALE_FACTOR) <= u32::MAX) by (nonlinear_arith)
            requires
                rows * set.height * SCALE_FACTOR <= u32::MAX,
        ;
        assert(set.width * SCALE_FACTOR <= u32::MAX) by (nonlinear_arith)
            requires
                columns * set.width * SCALE_FACTOR <= u32::MAX,
                columns >= 1,
        ;
        assert(set.height * SCALE_FACTOR <= u32::MAX) by (nonlinear_arith)
            requires
                rows * set.height * SCALE_FACTOR <= u32::MAX,
                rows >= 1,
        ;
    }
    let cell_w = set.width * SCALE_FACTOR;
    let cell_h = set.height * SCALE_FACTOR;
    let sheet_w = columns * cell_w;
    let sheet_h = rows * cell_h;
    assert(sheet_w * sheet_h * 4 <= usize::MAX) by (nonlinear_arith)
        requires
            sheet_w == columns * (set.width * SCALE_FACTOR),
            sheet_h == rows * (set.height * SCALE_FACTOR),
            (columns * set.width * SCALE_FACTOR) * (rows * set.height * SCALE_FACTOR) * 4 <= usize::MAX,
    ;
    let mut sheet = Image::new(sheet_w, sheet_h);
    assert(sheet@.pixels =~= blank(sheet_w as nat, sheet_h as nat).pixels);
    let ghost base = sheet@;
    let slots = sheet_slots(sorted);
    let mut s: usize = 0;
    while s < slots.len()
        invariant
            sheet_drawable(*set, sorted@),
            frames == frames_model(set.frames),
            slots@ == ghost_slots,
            ghost_slots == slot_frames(layout_model(sorted@)),
            columns == sheet_columns(frames.len()),
            columns > 0,
            columns as nat * cell_w <= u32::MAX,
            cell_w == set.width * SCALE_FACTOR,
            cell_h == set.height * SCALE_FACTOR,
            s <= slots@.len(),
            sheet.wf(),
            sheet@ == sheet_after(frames, slots@, columns as nat, cell_w as nat, cell_h as nat, base, s as nat),
        decreases slots@.len() - s,
    {
        let f = slots[s];
        assert(slots@[s as int] < frames.len());
        let frame = &set.frames[f];
        proof {
            assert(frames[f as int] == frame@);
            assert((frame@.width * SCALE_FACTOR) * (frame@.height * SCALE_FACTOR) * 16 <= isize::MAX);
            assert(frame@.width * (frame@.height * SCALE_FACTOR) * 16 <= isize::MAX) by (nonlinear_arith)
                requires
                    frame@.width * SCALE_FACTOR * (frame@.height * SCALE_FACTOR) * 16 <= isize::MAX,
                    frame@.height > 0,
            ;
        }
        let scaled = resize(
            frame,
            frame.width() * SCALE_FACTOR,
            frame.height() * SCALE_FACTOR,
            ResizeFilter::Nearest,
        );
        let slot = s as u32;
        let col = slot % columns;
        let row = slot / columns;
        proof {
            assert(col * cell_w <= columns * cell_w) by (nonlinear_arith)
                requires
                    col < columns,
            ;
            vstd::arithmetic::div_mod::lemma_div_is_ordered(
                slot as int,
                (slots@.len() - 1) as int,
                columns as int,
            );
            assert(row * cell_h <= ((slots@.len() - 1) as nat / (columns as nat)) * cell_h) by (nonlinear_arith)
                requires
                    row <= (slots@.len() - 1) as nat / (columns as nat),
            ;
        }
        let x = (col * cell_w) as i64;
        let y = (row * cell_h) as i64;
        overlay(&mut sheet, &scaled, x, y);
        s = s + 1;
    }
    sheet
}

// ---------------------------------------------------------------------------
// Frame names
// ---------------------------------------------------------------------------

/// The file stem of a state's frame: the state's name, `_` and the frame's
/// place in the state.
pub open spec fn frame_stem_text(state: Seq<char>, offset: nat) -> Seq<char> {
    state + "_"@ + decimal(offset)
}

/// The file stem of frame `offset` of `state`.
pub fn frame_stem(state: &str, offset: usize) -> (stem: String)
    ensures
        stem@ == frame_stem_text(state@, offset as nat),
{
    let mut stem = String::from_str(state);
    stem.append("_");
    push_decimal(&mut stem, offset as u64);
    stem
}

/// The file stems of each state's frames, state by state.
pub fn frame_stems(sorted: &Vec<(String, Vec<usize>)>) -> (stems: Vec<(String, Vec<String>)>)
    ensures
        stems@.len() == sorted@.len(),
        forall|k: int|
            0 <= k < sorted@.len() ==> {
                &&& (#[trigger] stems@[k]).0@ == sorted@[k].0@
                &&& stems@[k].1@.len() == sorted@[k].1@.len()
                &&& forall|f: int|
                    0 <= f < stems@[k].1@.len() ==> (#[trigger] stems@[k].1@[f])@
                        == frame_stem_text(sorted@[k].0@, f as nat)
            },
{
    let mut stems: Vec<(String, Vec<String>)> = Vec::new();
    let mut k: usize = 0;
    while k < sorted.len()
        invariant
            k <= sorted@.len(),
            stems@.len() == k,
            forall|j: int|
                0 <= j < k ==> {
                    &&& (#[trigger] stems@[j]).0@ == sorted@[j].0@
                    &&& stems@[j].1@.len() == sorted@[j].1@.len()
                    &&& forall|f: int|
                        0 <= f < stems@[j].1@.len() ==> (#[trigger] stems@[j].1@[f])@
                            == frame_stem_text(sorted@[j].0@, f as nat)
                },
        decreases sorted@.len() - k,
    {
        let state = sorted[k].0.as_str();
        let count = sorted[k].1.len();
        let mut names: Vec<String> = Vec::new();
        let mut f: usize = 0;
        while f < count
            invariant
                f <= count,
                names@.len() == f,
                forall|g: int| 0 <= g < f ==> (#[trigger] names@[g])@ == frame_stem_text(state@, g as nat),
            decreases count - f,
        {
            names.push(frame_stem(state, f));
            f = f + 1;
        }
        stems.push((sorted[k].0.clone(), names));
        k = k + 1;
    }
    stems
}

// ---------------------------------------------------------------------------
// Gallery page
// ---------------------------------------------------------------------------

/// One asset as the export handles it: its name, its frames and its states
/// in first-frame order.
pub struct AssetFrames<'a> {
    pub name: String,
    pub set: &'a SpriteSet,
    pub sorted_states: Vec<(String, Vec<usize>)>,
}

/// The asset called `name` with its states in first-frame order.
pub fn asset_frames<'a>(name: &str, set: &'a SpriteSet) -> (asset: AssetFrames<'a>)
    requires
        states_have_frames(set.layout@),
    ensures
        asset.name@ == name@,
        asset.set == set,
        in_first_frame_order(layout_model(asset.sorted_states@), layout_model(set.layout@)),
{
    AssetFrames { name: String::from_str(name), set, sorted_states: sorted_states(&set.layout) }
}

/// What the gallery shows of an asset: its name and its states with their frames.
pub open spec fn gallery_model(assets: Seq<AssetFrames>) -> Seq<(Seq<char>, Seq<(Seq<char>, Seq<usize>)>)> {
    assets.map_values(|a: AssetFrames| (a.name@, layout_model(a.sorted_states@)))
}

/// `parts` one to a line.
pub open spec fn lines(parts: Seq<Seq<char>>) -> Seq<char>
    decreases parts.len(),
{
    if parts.len() == 0 {
        Seq::empty()
    } else if parts.len() == 1 {
        parts[0]
    } else {
        lines(parts.drop_last()) + "\n"@ + parts.last()
    }
}

/// `parts` one after another.
pub open spec fn concat(parts: Seq<Seq<char>>) -> Seq<char>
    decreases parts.len(),
{
    if parts.len() == 0 {
        Seq::empty()
    } else {
        concat(parts.drop_last()) + parts.last()
    }
}

/// The tab that selects asset `name`, the first one active.
pub open spec fn tab_html(index: int, name: Seq<char>) -> Seq<char> {
    "<button class=\"tab"@ + (if index == 0 { " active"@ } else { ""@ }) + "\" data-asset=\""@ + name
        + "\">"@ + name + "</button>"@
}

/// One frame's cell: its picture and its number.
pub open spec fn frame_cell(name: Seq<char>, state: Seq<char>, offset: nat) -> Seq<char> {
    "<div class=\"frame-cell\" data-asset=\""@ + name + "\" data-state=\""@ + state
        + "\" data-frame=\""@ + decimal(offset) + "\">\n<img src=\""@ + name + "/svg/"@
        + frame_stem_text(state, offset) + ".svg\" alt=\""@ + name + " "@ + state + " frame "@
        + decimal(offset) + "\">\n<span class=\"frame-label\">#"@ + decimal(offset)
        + "</span>\n</div>"@
}

/// A state's heading and the cells of its `count` frames.
pub open spec fn state_group(name: Seq<char>, state: Seq<char>, count: nat) -> Seq<char> {
    "<div class=\"state-group\">\n<h3>"@ + state + "</h3>\n<div class=\"frame-grid\">"@ + concat(
        Seq::new(count, |f: int| frame_cell(name, state, f as nat)),
    ) + "</div>\n</div>"@
}

/// Every state of an asset, one group a line.
pub open spec fn state_sections(name: Seq<char>, states: Seq<(Seq<char>, Seq<usize>)>) -> Seq<char> {
    lines(Seq::new(states.len(), |k: int| state_group(name, states[k].0, states[k].1.len())))
}

/// The controls between a panel's opening tag and its preview strip.
pub const PANEL_CONTROLS: &'static str = "\">\n<div class=\"controls\">\n<button class=\"btn-play\" data-playing=\"false\">&#9654; Play</button>\n<button class=\"btn-step\">Step &raquo;</button>\n<select class=\"speed-select\">\n<option value=\"0.5\">0.5x</option>\n<option value=\"1\" selected>1x</option>\n<option value=\"2\">2x</option>\n</select>\n</div>\n<div class=\"preview-strip\" data-asset=\"";

/// The panel of asset `name`, shown for the first asset and hidden for the
/// others.
pub open spec fn panel_html(index: int, name: Seq<char>, states: Seq<(Seq<char>, Seq<usize>)>) -> Seq<char> {
    "<section class=\"panel"@ + (if index == 0 { ""@ } else { " hidden"@ }) + "\" data-asset=\""@
        + name + PANEL_CONTROLS@ + name + "\"></div>\n"@ + state_sections(name, states)
        + "</section>"@
}

/// The page up to its style sheet.
pub const GALLERY_HEAD: &'static str = "<!DOCTYPE html>\n<html lang=\"en\">\n<head>\n<meta charset=\"utf-8\">\n<meta name=\"viewport\" content=\"width=device-width, initial-scale=1\">\n<title>distract.nvim Sprite Gallery</title>\n";

/// The page from its style sheet to the tabs.
pub const GALLERY_INTRO: &'static str = "\n</head>\n<body>\n<header>\n<h1>distract.nvim Sprite Gallery</h1>\n<p class=\"subtitle\">Procedurally generated assets &mdash; all states and frames</p>\n</header>\n<nav id=\"tabs\">";

/// The gallery page: a tab and a panel for each asset, the export's
/// manifest for the page's script, the style sheet and the script.
pub open spec fn gallery_text(assets: Seq<(Seq<char>, Seq<(Seq<char>, Seq<usize>)>)>, manifest_json: Seq<char>) -> Seq<char> {
    GALLERY_HEAD@ + STYLE_BLOCK@ + GALLERY_INTRO@ + lines(
        Seq::new(assets.len(), |i: int| tab_html(i, assets[i].0)),
    ) + "</nav>\n<main id=\"panels\">"@ + lines(
        Seq::new(assets.len(), |i: int| panel_html(i, assets[i].0, assets[i].1)),
    ) + "</main>\n<script>\nconst MANIFEST = "@ + manifest_json + ";\n"@ + SCRIPT_BLOCK@
        + "\n</script>\n</body>\n</html>\n"@
}

proof fn lemma_lines_step(parts: Seq<Seq<char>>, i: int)
    requires
        0 <= i < parts.len(),
    ensures
        lines(parts.take(i + 1)) == if i == 0 {
            parts[0]
        } else {
            lines(parts.take(i)) + "\n"@ + parts[i]
        },
{
    assert(parts.take(i + 1).drop_last() =~= parts.take(i));
}

proof fn lemma_concat_step(parts: Seq<Seq<char>>, i: int)
    requires
        0 <= i < parts.len(),
    ensures
        concat(parts.take(i + 1)) == concat(parts.take(i)) + parts[i],
{
    assert(parts.take(i + 1).drop_last() =~= parts.take(i));
}

/// Appends the tabs of `assets`, one a line.
fn push_tabs(out: &mut String, assets: &Vec<AssetFrames>)
    ensures
        final(out)@ == old(out)@ + lines(
            Seq::new(assets@.len(), |i: int| tab_html(i, gallery_model(assets@)[i].0)),
        ),
{
    let ghost parts = Seq::new(assets@.len(), |i: int| tab_html(i, gallery_model(assets@)[i].0));
    let ghost start = out@;
    let mut i: usize = 0;
    while i < assets.len()
        invariant
            i <= assets@.len(),
            parts == Seq::new(assets@.len(), |i: int| tab_html(i, gallery_model(assets@)[i].0)),
            out@ == start + lines(parts.take(i as int)),
        decreases assets@.len() - i,
    {
        let ghost before = out@;
        if i > 0 {
            out.append("\n");
        }
        out.append("<button class=\"tab");
        if i == 0 {
            out.append(" active");
        }
        out.append("\" data-asset=\"");
        out.append(assets[i].name.as_str());
        out.append("\">");
        out.append(assets[i].name.as_str());
        out.append("</button>");
        proof {
            reveal_strlit("");
            lemma_lines_step(parts, i as int);
            assert(parts[i as int] == tab_html(i as int, assets@[i as int].name@));
            if i == 0 {
                assert(out@ =~= start + lines(parts.take(i as int + 1)));
            } else {
                assert(out@ =~= start + lines(parts.take(i as int + 1)));
            }
        }
        i = i + 1;
    }
    assert(parts.take(assets@.len() as int) =~= parts);
}

/// Appends the cell of frame `f` of `state`.
fn push_frame_cell(out: &mut String, name: &str, state: &str, f: usize)
    ensures
        final(out)@ == old(out)@ + frame_cell(name@, state@, f as nat),
{
        out.append("<div class=\"frame-cell\" data-asset=\"");
        out.append(name);
        out.append("\" data-state=\"");
        out.append(state);
        out.append("\" data-frame=\"");
        push_decimal(out, f as u64);
        out.append("\">\n<img src=\"");
        out.append(name);
        out.append("/svg/");
        out.append(state);
        out.append("_");
        push_decimal(out, f as u64);
        out.append(".svg\" alt=\"");
        out.append(name);
        out.append(" ");
        out.append(state);
        out.append(" frame ");
        push_decimal(out, f as u64);
        out.append("\">\n<span class=\"frame-label\">#");
        push_decimal(out, f as u64);
        out.append("</span>\n</div>");
    assert(final(out)@ =~= old(out)@ + frame_cell(name@, state@, f as nat));
}

/// Appends the cells of a state's `count` frames.
fn push_cells(out: &mut String, name: &str, state: &str, count: usize)
    ensures
        final(out)@ == old(out)@ + concat(Seq::new(count as nat, |f: int| frame_cell(name@, state@, f as nat))),
{
    let ghost parts = Seq::new(count as nat, |f: int| frame_cell(name@, state@, f as nat));
    let ghost start = out@;
    let mut f: usize = 0;
    while f < count
        invariant
            f <= count,
            parts == Seq::new(count as nat, |f: int| frame_cell(name@, state@, f as nat)),
            out@ == start + concat(parts.take(f as int)),
        decreases count - f,
    {
        push_frame_cell(out, name, state, f);
        proof {
            lemma_concat_step(parts, f as int);
            assert(out@ =~= start + concat(parts.take(f as int + 1)));
        }
        f = f + 1;
    }
    assert(parts.take(count as int) =~= parts);
}

/// Appends a state's heading and the cells of its `count` frames.
fn push_state_group(out: &mut String, name: &str, state: &str, count: usize)
    ensures
        final(out)@ == old(out)@ + state_group(name@, state@, count as nat),
{
    out.append("<div class=\"state-group\">\n<h3>");
    out.append(state);
    out.append("</h3>\n<div class=\"frame-grid\">");
    push_cells(out, name, state, count);
    out.append("</div>\n</div>");
    assert(final(out)@ =~= old(out)@ + state_group(name@, state@, count as nat));
}

/// Appends the state groups of an asset, one a line.
fn push_state_sections(out: &mut String, name: &str, states: &Vec<(String, Vec<usize>)>)
    ensures
        final(out)@ == old(out)@ + state_sections(name@, layout_model(states@)),
{
    let ghost model = layout_model(states@);
    let ghost parts = Seq::new(model.len(), |k: int| state_group(name@, model[k].0, model[k].1.len()));
    let ghost start = out@;
    let mut k: usize = 0;
    while k < states.len()
        invariant
            k <= states@.len(),
            model == layout_model(states@),
            parts == Seq::new(model.len(), |k: int| state_group(name@, model[k].0, model[k].1.len())),
            out@ == start + lines(parts.take(k as int)),
        decreases states@.len() - k,
    {
        if k > 0 {
            out.append("\n");
        }
        let ghost before = out@;
        let state = states[k].0.as_str();
        push_state_group(out, name, state, states[k].1.len());
        proof {
            lemma_lines_step(parts, k as int);
            assert(parts[k as int] == state_group(name@, state@, states@[k as int].1@.len()));
            assert(out@ == before + parts[k as int]);
            assert(out@ =~= start + lines(parts.take(k as int + 1)));
        }
        k = k + 1;
    }
    assert(parts.take(states@.len() as int) =~= parts);
}

/// Appends the panel of asset `name`, the one at `index` in the gallery.
fn push_panel(out: &mut String, index: usize, name: &str, states: &Vec<(String, Vec<usize>)>)
    ensures
        final(out)@ == old(out)@ + panel_html(index as int, name@, layout_model(states@)),
{
    out.append("<section class=\"panel");
    if index != 0 {
        out.append(" hidden");
    }
    out.append("\" data-asset=\"");
    out.append(name);
    out.append(PANEL_CONTROLS);
    out.append(name);
    out.append("\"></div>\n");
    push_state_sections(out, name, states);
    out.append("</section>");
    proof {
        reveal_strlit("");
    }
    assert(final(out)@ =~= old(out)@ + panel_html(index as int, name@, layout_model(states@)));
}

/// Appends the panels of `assets`, one a line.
fn push_panels(out: &mut String, assets: &Vec<AssetFrames>)
    ensures
        final(out)@ == old(out)@ + lines(
            Seq::new(
                assets@.len(),
                |i: int| panel_html(i, gallery_model(assets@)[i].0, gallery_model(assets@)[i].1),
            ),
        ),
{
    let ghost model = gallery_model(assets@);
    let ghost parts = Seq::new(assets@.len(), |i: int| panel_html(i, model[i].0, model[i].1));
    let ghost start = out@;
    let mut i: usize = 0;
    while i < assets.len()
        invariant
            i <= assets@.len(),
            model == gallery_model(assets@),
            parts == Seq::new(assets@.len(), |i: int| panel_html(i, model[i].0, model[i].1)),
            out@ == start + lines(parts.take(i as int)),
        decreases assets@.len() - i,
    {
        if i > 0 {
            out.append("\n");
        }
        let ghost before = out@;
        let name = assets[i].name.as_str();
        push_panel(out, i, name, &assets[i].sorted_states);
        proof {
            lemma_lines_step(parts, i as int);
            assert(parts[i as int] == panel_html(i as int, name@, layout_model(assets@[i as int].sorted_states@)));
            assert(out@ == before + parts[i as int]);
            assert(out@ =~= start + lines(parts.take(i as int + 1)));
        }
        i = i + 1;
    }
    assert(parts.take(assets@.len() as int) =~= parts);
}

/// The gallery page for `assets`, with `manifest_json` given to its script.
pub fn render_gallery(assets: &Vec<AssetFrames>, manifest_json: &str) -> (page: String)
    ensures
        page@ == gallery_text(gallery_model(assets@), manifest_json@),
{
    let mut page = String::from_str(GALLERY_HEAD);
    page.append(STYLE_BLOCK);
    page.append(GALLERY_INTRO);
    push_tabs(&mut page, assets);
    page.append("</nav>\n<main id=\"panels\">");
    push_panels(&mut page, assets);
    page.append("</main>\n<script>\nconst MANIFEST = ");
    page.append(manifest_json);
    page.append(";\n");
    page.append(SCRIPT_BLOCK);
    page.append("\n</script>\n</body>\n</html>\n");
    assert(page@ =~= gallery_text(gallery_model(assets@), manifest_json@));
    page
}

/// The gallery's style sheet.
pub const STYLE_BLOCK: &'static str = r#"<style>
*,*::before,*::after{box-sizing:border-box;margin:0;padding:0}
body{background:#1a1a2e;color:#e0e0e0;font-family:system-ui,-apple-system,sans-serif;
padding:2rem;max-width:1200px;margin:0 auto}
header{text-align:center;margin-bottom:2rem}
h1{font-size:1.5rem;letter-spacing:0.04em;color:#f0f0f0}
.subtitle{font-size:0.85rem;color:#888;margin-top:0.25rem}
#tabs{display:flex;gap:0.5rem;justify-content:center;margin-bottom:1.5rem}
.tab{background:#2a2a4a;border:1px solid #3a3a5a;color:#ccc;padding:0.5rem 1.25rem;
border-radius:6px;cursor:pointer;font-size:0.9rem;transition:all 0.15s}
.tab:hover{background:#3a3a5a}
.tab.active{background:#4a4a7a;color:#fff;border-color:#6a6aaa}
.panel{animation:fadeIn 0.2s ease}
.panel[hidden]{display:none}
@keyframes fadeIn{from{opacity:0}to{opacity:1}}
.controls{display:flex;gap:0.5rem;align-items:center;margin-bottom:1.25rem;
padding:0.75rem;background:#222244;border-radius:8px}
.controls button,.controls select{background:#3a3a5a;border:1px solid #4a4a6a;
color:#ddd;padding:0.4rem 0.75rem;border-radius:4px;cursor:pointer;font-size:0.85rem}
.controls button:hover,.controls select:hover{background:#4a4a7a}
.preview-strip{display:flex;align-items:center;justify-content:center;gap:1rem;
min-height:200px;background:#12122a;border-radius:8px;margin-bottom:1.5rem;padding:1rem}
.preview-strip img{image-rendering:pixelated;width:192px;height:auto;
border:2px solid #3a3a5a;border-radius:4px;background:#0a0a1a}
.state-group{margin-bottom:1.5rem}
.state-group h3{font-size:0.95rem;color:#aaa;margin-bottom:0.5rem;
border-bottom:1px solid #2a2a4a;padding-bottom:0.25rem}
.frame-grid{display:flex;flex-wrap:wrap;gap:0.75rem}
.frame-cell{display:flex;flex-direction:column;align-items:center;gap:0.25rem;
padding:0.5rem;background:#1e1e3a;border-radius:6px;border:2px solid transparent;
cursor:pointer;transition:border-color 0.15s}
.frame-cell:hover{border-color:#5a5a8a}
.frame-cell.active{border-color:#7a7aba}
.frame-cell img{image-rendering:pixelated;width:96px;height:auto}
.frame-label{font-size:0.7rem;color:#666}
</style>"#;

/// The gallery's script: tabs, frame stepping and playback.
pub const SCRIPT_BLOCK: &'static str = r#"
(function(){
  const tabs = document.querySelectorAll('.tab');
  const panels = document.querySelectorAll('.panel');

  tabs.forEach(function(tab){
    tab.addEventListener('click', function(){
      tabs.forEach(function(t){t.classList.remove('active')});
      panels.forEach(function(p){p.hidden = true});
      tab.classList.add('active');
      var target = tab.getAttribute('data-asset');
      document.querySelector('.panel[data-asset="'+target+'"]').hidden = false;
    });
  });

  panels.forEach(function(panel){
    var asset = panel.getAttribute('data-asset');
    var strip = panel.querySelector('.preview-strip');
    var playBtn = panel.querySelector('.btn-play');
    var stepBtn = panel.querySelector('.btn-step');
    var speedSel = panel.querySelector('.speed-select');
    var cells = panel.querySelectorAll('.frame-cell');
    var frames = [];
    var currentIndex = 0;
    var intervalId = null;

    cells.forEach(function(cell){
      frames.push(cell.querySelector('img').src);
    });

    function showFrame(idx){
      currentIndex = idx % frames.length;
      strip.innerHTML = '<img src="'+frames[currentIndex]+'" alt="preview">';
      cells.forEach(function(c,ci){
        c.classList.toggle('active', ci === currentIndex);
      });
    }

    cells.forEach(function(cell, ci){
      cell.addEventListener('click', function(){
        stopAnim();
        showFrame(ci);
      });
    });

    function stopAnim(){
      if(intervalId){clearInterval(intervalId);intervalId=null;}
      playBtn.innerHTML = '&#9654; Play';
      playBtn.setAttribute('data-playing','false');
    }

    function startAnim(){
      var speed = parseFloat(speedSel.value);
      var ms = Math.round(200 / speed);
      intervalId = setInterval(function(){
        showFrame(currentIndex + 1);
      }, ms);
      playBtn.innerHTML = '&#9646;&#9646; Pause';
      playBtn.setAttribute('data-playing','true');
    }

    playBtn.addEventListener('click', function(){
      if(playBtn.getAttribute('data-playing') === 'true'){
        stopAnim();
      } else {
        startAnim();
      }
    });

    stepBtn.addEventListener('click', function(){
      stopAnim();
      showFrame(currentIndex + 1);
    });

    speedSel.addEventListener('change', function(){
      if(playBtn.getAttribute('data-playing') === 'true'){
        stopAnim();
        startAnim();
      }
    });

    if(frames.length > 0) showFrame(0);
  });
})();
"#;

} // verus!
