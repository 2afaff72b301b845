//! Laying every frame out in one sprite atlas.
//!
//! A shelf packer: frames sorted tallest first, then widest first, placed left
//! to right in rows with a one-pixel transparent gutter around each. The atlas
//! width starts from a square-ish guess and doubles, up to a limit, until
//! everything fits.

use vstd::prelude::*;
use crate::meshbook::{frames_model, joined, lemma_joined_push};
use crate::raster::{blank, lemma_image_sides, lemma_offset_in_bounds, replace, Image, ImageModel};
use crate::text::{decimal, push_decimal, same_text};
use crate::sorting::{lemma_sorted_order_unique, sorted_by, strict_total_on};

verus! {

/// Transparent gutter between packed frames.
pub const PADDING: u32 = 1;

/// The largest side, frame size or atlas limit, the planner takes on.
pub const MAX_SIDE: u32 = 0x8000_0000;

// ---------------------------------------------------------------------------
// Powers of two and square roots
// ---------------------------------------------------------------------------

/// The least power of two, from `p` on by doubling, that is at least `v`.
pub open spec fn pow2_from(p: nat, v: nat) -> nat
    decreases 2 * v - p,
{
    if p >= v || p == 0 {
        p
    } else {
        pow2_from(2 * p, v)
    }
}

/// `u32::next_power_of_two`: the least power of two at least `v` (1 for 0).
pub open spec fn next_power_of_two(v: nat) -> nat {
    pow2_from(1, v)
}

proof fn lemma_pow2_from_bound(p: nat, v: nat, bound: nat)
    requires
        p >= 1,
        p <= 2 * bound,
        v <= bound,
        bound >= 1,
    ensures
        pow2_from(p, v) <= 2 * bound,
        pow2_from(p, v) >= v,
        pow2_from(p, v) >= 1,
    decreases 2 * v - p,
{
    if p < v {
        lemma_pow2_from_bound(2 * p, v, bound);
    }
}

fn next_power_of_two_exec(v: u32) -> (p: u32)
    requires
        v <= MAX_SIDE,
    ensures
        p == next_power_of_two(v as nat),
        v <= p <= 2 * MAX_SIDE,
        p >= 1,
{
    let mut p: u32 = 1;
    proof {
        lemma_pow2_from_bound(1, v as nat, MAX_SIDE as nat);
    }
    while p < v
        invariant
            1 <= p <= 2 * MAX_SIDE,
            v <= MAX_SIDE,
            pow2_from(p as nat, v as nat) == next_power_of_two(v as nat),
        decreases 2 * v - p,
    {
        p = p * 2;
    }
    proof {
        lemma_pow2_from_bound(1, v as nat, MAX_SIDE as nat);
    }
    p
}

/// The least `r` with `r * r >= area`: the square root rounded up.
pub open spec fn is_ceil_sqrt(r: nat, area: nat) -> bool {
    &&& r * r >= area
    &&& r == 0 || (r - 1) * (r - 1) < area
}

fn ceil_sqrt(area: u64) -> (r: u32)
    requires
        area <= 0x1000_0000_0000_0000,
    ensures
        is_ceil_sqrt(r as nat, area as nat),
        r <= MAX_SIDE,
{
    let mut lo: u64 = 0;
    let mut hi: u64 = 0x4000_0000;
    assert(hi * hi >= area) by (nonlinear_arith)
        requires
            hi == 0x4000_0000,
            area <= 0x1000_0000_0000_0000,
    ;
    while lo < hi
        invariant
            lo <= hi <= 0x4000_0000,
            hi * hi >= area,
            lo == 0 || (lo - 1) * (lo - 1) < area,
        decreases hi - lo,
    {
        let mid = lo + (hi - lo) / 2;
        assert(mid * mid <= 0x4000_0000 * 0x4000_0000) by (nonlinear_arith)
            requires
                mid <= 0x4000_0000,
        ;
        if mid * mid >= area {
            hi = mid;
        } else {
            lo = mid + 1;
        }
    }
    lo as u32
}

// ---------------------------------------------------------------------------
// Shelf packing
// ---------------------------------------------------------------------------

/// The frame sizes of `items`, in order.
pub open spec fn sizes_of(items: Seq<(&str, usize, u32, u32)>) -> Seq<(u32, u32)> {
    Seq::new(items.len(), |i: int| (items[i].2, items[i].3))
}

/// The shelf packer's state after placing every one of `sizes`: the next
/// free x, the current shelf's top, the current shelf's height so far and
/// every placement; `None` once a frame could not be placed.
pub open spec fn shelf_state(sizes: Seq<(u32, u32)>, width: nat, max_dim: nat) -> Option<
    (int, int, int, Seq<(int, int)>),
>
    decreases sizes.len(),
{
    if sizes.len() == 0 {
        Some((PADDING as int, PADDING as int, 0, Seq::empty()))
    } else {
        match shelf_state(sizes.drop_last(), width, max_dim) {
            None => None,
            Some((x, y, shelf_h, placed)) => {
                let (w, h) = sizes.last();
                if w + PADDING * 2 > width {
                    None
                } else {
                    let new_shelf = x + w + PADDING > width;
                    let x2 = if new_shelf {
                        PADDING as int
                    } else {
                        x
                    };
                    let y2 = if new_shelf {
                        y + shelf_h + PADDING
                    } else {
                        y
                    };
                    let shelf2 = if new_shelf {
                        0
                    } else {
                        shelf_h
                    };
                    if y2 + h + PADDING > max_dim {
                        None
                    } else {
                        Some(
                            (
                                x2 + w + PADDING,
                                y2,
                                if shelf2 > h {
                                    shelf2
                                } else {
                                    h as int
                                },
                                placed.push((x2, y2)),
                            ),
                        )
                    }
                }
            },
        }
    }
}

/// What `try_pack` gives: the atlas height (the used height rounded up to a
/// power of two, at most `max_dim`) and one origin per item, or `None` when a
/// frame does not fit.
pub open spec fn spec_try_pack(sizes: Seq<(u32, u32)>, width: nat, max_dim: nat) -> Option<
    (nat, Seq<(int, int)>),
> {
    match shelf_state(sizes, width, max_dim) {
        None => None,
        Some((x, y, shelf_h, placed)) => {
            let rounded = next_power_of_two((y + shelf_h + PADDING) as nat);
            let height = if rounded > max_dim {
                max_dim
            } else {
                rounded
            };
            if height > max_dim {
                None
            } else {
                Some((height, placed))
            }
        },
    }
}

/// Sizes the planner can handle without its arithmetic overflowing.
pub open spec fn sizes_in_range(sizes: Seq<(u32, u32)>) -> bool {
    forall|i: int|
        0 <= i < sizes.len() ==> sizes[i].0 + PADDING * 2 <= MAX_SIDE && sizes[i].1 + PADDING * 2
            <= MAX_SIDE
}

proof fn lemma_shelf_bounds(sizes: Seq<(u32, u32)>, width: nat, max_dim: nat)
    ensures
        match shelf_state(sizes, width, max_dim) {
            Some((x, y, shelf_h, placed)) => {
                &&& 1 <= x
                &&& (sizes.len() > 0 ==> x <= width)
                &&& 1 <= y
                &&& 0 <= shelf_h <= u32::MAX
                &&& (sizes.len() == 0 ==> x == 1 && y == 1 && shelf_h == 0)
                &&& (sizes.len() > 0 ==> y + shelf_h + PADDING <= max_dim)
                &&& placed.len() == sizes.len()
            },
            None => true,
        },
    decreases sizes.len(),
{
    if sizes.len() > 0 {
        lemma_shelf_bounds(sizes.drop_last(), width, max_dim);
    }
}

proof fn lemma_failure_persists(sizes: Seq<(u32, u32)>, k: int, width: nat, max_dim: nat)
    requires
        0 <= k <= sizes.len(),
        shelf_state(sizes.take(k), width, max_dim) is None,
    ensures
        shelf_state(sizes, width, max_dim) is None,
    decreases sizes.len() - k,
{
    if k < sizes.len() {
        assert(sizes.take(k + 1).drop_last() =~= sizes.take(k));
        lemma_failure_persists(sizes, k + 1, width, max_dim);
    } else {
        assert(sizes.take(k) =~= sizes);
    }
}

/// `next_power_of_two` of a value that fits in `u32`, without overflow.
fn next_power_of_two_wide(v: u64) -> (p: u64)
    requires
        v <= u32::MAX,
    ensures
        p == next_power_of_two(v as nat),
        p <= 2 * (u32::MAX as nat),
{
    let mut p: u64 = 1;
    proof {
        lemma_pow2_from_bound(1, v as nat, u32::MAX as nat);
    }
    while p < v
        invariant
            1 <= p <= 2 * (u32::MAX as nat),
            v <= u32::MAX,
            pow2_from(p as nat, v as nat) == next_power_of_two(v as nat),
            pow2_from(p as nat, v as nat) <= 2 * (u32::MAX as nat),
        decreases 2 * v - p,
    {
        proof {
            lemma_pow2_from_bound(2 * p as nat, v as nat, u32::MAX as nat);
        }
        p = p * 2;
    }
    p
}

/// Lays `items` out on shelves `width` wide, in the order given.
pub fn try_pack(items: &[(&str, usize, u32, u32)], width: u32, max_dim: u32) -> (out: Option<
    (u32, Vec<(u32, u32)>),
>)
    ensures
        match out {
            Some((height, placements)) => spec_try_pack(
                sizes_of(items@),
                width as nat,
                max_dim as nat,
            ) == Some((height as nat, placements@.map_values(|p: (u32, u32)| (p.0 as int, p.1 as int)))),
            None => spec_try_pack(sizes_of(items@), width as nat, max_dim as nat) is None,
        },
{
    let ghost sizes = sizes_of(items@);
    let mut placements: Vec<(u32, u32)> = Vec::new();
    let mut x: u64 = PADDING as u64;
    let mut y: u64 = PADDING as u64;
    let mut shelf_h: u64 = 0;
    let mut i: usize = 0;
    assert(sizes.take(0) =~= Seq::<(u32, u32)>::empty());
    while i < items.len()
        invariant
            sizes == sizes_of(items@),
            i <= items@.len(),
            shelf_state(sizes.take(i as int), width as nat, max_dim as nat) == Some(
                (
                    x as int,
                    y as int,
                    shelf_h as int,
                    placements@.map_values(|p: (u32, u32)| (p.0 as int, p.1 as int)),
                ),
            ),
            x <= u32::MAX as nat + 1,
            y <= u32::MAX,
            shelf_h <= u32::MAX,
        decreases items@.len() - i,
    {
        let ghost prefix = sizes.take(i + 1);
        proof {
            assert(prefix.drop_last() =~= sizes.take(i as int));
            assert(prefix.last() == sizes[i as int]);
            lemma_shelf_bounds(sizes.take(i as int), width as nat, max_dim as nat);
        }
        let (_, _, w, h) = items[i];
        let w = w as u64;
        let h = h as u64;
        if w + (PADDING as u64) * 2 > width as u64 {
            proof {
                lemma_failure_persists(sizes, i + 1, width as nat, max_dim as nat);
            }
            return None;
        }
        if x + w + PADDING as u64 > width as u64 {
            x = PADDING as u64;
            y = y + shelf_h + PADDING as u64;
            shelf_h = 0;
        }
        if y + h + PADDING as u64 > max_dim as u64 {
            proof {
                lemma_failure_persists(sizes, i + 1, width as nat, max_dim as nat);
            }
            return None;
        }
        let ghost before = placements@;
        placements.push((x as u32, y as u32));
        assert(placements@.map_values(|p: (u32, u32)| (p.0 as int, p.1 as int)) =~= before.map_values(
            |p: (u32, u32)| (p.0 as int, p.1 as int),
        ).push((x as int, y as int)));
        x = x + w + PADDING as u64;
        if h > shelf_h {
            shelf_h = h;
        }
        i = i + 1;
    }
    assert(sizes.take(i as int) =~= sizes);
    proof {
        lemma_shelf_bounds(sizes, width as nat, max_dim as nat);
    }
    let rounded = next_power_of_two_wide(y + shelf_h + PADDING as u64);
    let height = if rounded > max_dim as u64 {
        max_dim as u64
    } else {
        rounded
    };
    if height > max_dim as u64 {
        return None;
    }
    Some((height as u32, placements))
}

/// Frame `i`'s rectangle with its gutter is clear of frame `j`'s.
pub open spec fn apart(placed: Seq<(int, int)>, sizes: Seq<(u32, u32)>, i: int, j: int) -> bool {
    ||| placed[i].0 + sizes[i].0 + PADDING <= placed[j].0
    ||| placed[j].0 + sizes[j].0 + PADDING <= placed[i].0
    ||| placed[i].1 + sizes[i].1 + PADDING <= placed[j].1
    ||| placed[j].1 + sizes[j].1 + PADDING <= placed[i].1
}

proof fn lemma_shelf_layout(sizes: Seq<(u32, u32)>, width: nat, max_dim: nat)
    requires
        shelf_state(sizes, width, max_dim) is Some,
    ensures
        ({
            let (x, y, shelf_h, placed) = shelf_state(sizes, width, max_dim)->0;
            &&& placed.len() == sizes.len()
            &&& 0 <= shelf_h
            &&& PADDING <= y
            &&& PADDING <= x
            &&& forall|i: int|
                0 <= i < placed.len() ==> {
                    &&& PADDING <= placed[i].0
                    &&& PADDING <= placed[i].1
                    &&& placed[i].0 + sizes[i].0 + PADDING <= width
                    &&& placed[i].1 + sizes[i].1 + PADDING <= max_dim
                    &&& ((placed[i].1 + sizes[i].1 + PADDING <= y) || (placed[i].1 == y
                        && placed[i].0 + sizes[i].0 + PADDING <= x && sizes[i].1 <= shelf_h))
                }
            &&& forall|i: int, j: int|
                0 <= i < placed.len() && 0 <= j < placed.len() && i != j ==> apart(
                    placed,
                    sizes,
                    i,
                    j,
                )
        }),
    decreases sizes.len(),
{
    if sizes.len() > 0 {
        let init = sizes.drop_last();
        lemma_shelf_layout(init, width, max_dim);
        let (x, y, shelf_h, placed) = shelf_state(init, width, max_dim)->0;
        let (nx, ny, nshelf, nplaced) = shelf_state(sizes, width, max_dim)->0;
        let n = sizes.len() - 1;
        let (w, h) = sizes.last();
        let new_shelf = x + w + PADDING > width;
        let x2 = if new_shelf { PADDING as int } else { x };
        let y2 = if new_shelf { y + shelf_h + PADDING } else { y };
        assert(nplaced == placed.push((x2, y2)));
        assert(nx == x2 + w + PADDING);
        assert(ny == y2);
        assert(nshelf >= h && nshelf >= (if new_shelf { 0 } else { shelf_h }));
        assert forall|i: int| 0 <= i < n implies #[trigger] sizes[i] == init[i] by {}
        assert forall|i: int|
            0 <= i < nplaced.len() implies {
                &&& PADDING <= nplaced[i].0
                &&& PADDING <= nplaced[i].1
                &&& nplaced[i].0 + sizes[i].0 + PADDING <= width
                &&& nplaced[i].1 + sizes[i].1 + PADDING <= max_dim
                &&& ((nplaced[i].1 + sizes[i].1 + PADDING <= ny) || (nplaced[i].1 == ny
                    && nplaced[i].0 + sizes[i].0 + PADDING <= nx && sizes[i].1 <= nshelf))
            } by {
            if i < n {
                assert(nplaced[i] == placed[i]);
                assert(sizes[i] == init[i]);
            }
        }
        assert forall|i: int, j: int|
            0 <= i < nplaced.len() && 0 <= j < nplaced.len() && i != j implies apart(
                nplaced,
                sizes,
                i,
                j,
            ) by {
            if i < n && j < n {
                assert(apart(placed, init, i, j));
                assert(nplaced[i] == placed[i] && nplaced[j] == placed[j]);
                assert(sizes[i] == init[i] && sizes[j] == init[j]);
            } else if i < n {
                assert(nplaced[i] == placed[i]);
                assert(sizes[i] == init[i]);
            } else {
                assert(nplaced[j] == placed[j]);
                assert(sizes[j] == init[j]);
            }
        }
    }
}

/// A successful packing keeps every frame, with its gutter, inside the atlas
/// and clear of every other frame.
pub proof fn law_packed_frames_fit_and_do_not_overlap(
    sizes: Seq<(u32, u32)>,
    width: nat,
    max_dim: nat,
)
    requires
        spec_try_pack(sizes, width, max_dim) is Some,
    ensures
        ({
            let (height, placed) = spec_try_pack(sizes, width, max_dim)->0;
            &&& placed.len() == sizes.len()
            &&& height <= max_dim
            &&& forall|i: int|
                0 <= i < placed.len() ==> {
                    &&& PADDING <= placed[i].0
                    &&& PADDING <= placed[i].1
                    &&& placed[i].0 + sizes[i].0 + PADDING <= width
                    &&& placed[i].1 + sizes[i].1 + PADDING <= height
                }
            &&& forall|i: int, j: int|
                0 <= i < placed.len() && 0 <= j < placed.len() && i != j ==> apart(
                    placed,
                    sizes,
                    i,
                    j,
                )
        }),
{
    lemma_shelf_layout(sizes, width, max_dim);
    lemma_shelf_bounds(sizes, width, max_dim);
    let (x, y, shelf_h, placed) = shelf_state(sizes, width, max_dim)->0;
    let v = (y + shelf_h + PADDING) as nat;
    lemma_pow2_from_bound(1, v, if v > 1 { v } else { 1 });
}

// ---------------------------------------------------------------------------
// Packing order
// ---------------------------------------------------------------------------

/// Whether item `a` is packed before item `b`: taller first, then wider, and
/// in their original order when the sizes are equal (a stable sort).
pub open spec fn packs_before(sizes: Seq<(u32, u32)>, a: int, b: int) -> bool {
    ||| sizes[a].1 > sizes[b].1
    ||| (sizes[a].1 == sizes[b].1 && sizes[a].0 > sizes[b].0)
    ||| (sizes[a].1 == sizes[b].1 && sizes[a].0 == sizes[b].0 && a < b)
}

/// `order` lists every item once, in packing order.
pub open spec fn is_packing_order(sizes: Seq<(u32, u32)>, order: Seq<usize>) -> bool {
    &&& order.len() == sizes.len()
    &&& forall|i: int| 0 <= i < order.len() ==> order[i] < sizes.len()
    &&& forall|i: int, j: int|
        0 <= i < j < order.len() ==> packs_before(sizes, order[i] as int, order[j] as int)
}

/// Whether item `a` is strictly taller, or as tall and strictly wider, than
/// item `b`.
fn larger(items: &[(&str, usize, u32, u32)], a: usize, b: usize) -> (out: bool)
    requires
        a < items@.len(),
        b < items@.len(),
    ensures
        out == (sizes_of(items@)[a as int].1 > sizes_of(items@)[b as int].1 || (sizes_of(
            items@,
        )[a as int].1 == sizes_of(items@)[b as int].1 && sizes_of(items@)[a as int].0 > sizes_of(
            items@,
        )[b as int].0)),
{
    let (_, _, aw, ah) = items[a];
    let (_, _, bw, bh) = items[b];
    ah > bh || (ah == bh && aw > bw)
}

/// The indices of `items` in packing order.
pub fn packing_order(items: &[(&str, usize, u32, u32)]) -> (order: Vec<usize>)
    ensures
        is_packing_order(sizes_of(items@), order@),
{
    let ghost sizes = sizes_of(items@);
    let n = items.len();
    let mut order: Vec<usize> = Vec::new();
    let mut k: usize = 0;
    while k < n
        invariant
            n == items@.len(),
            sizes == sizes_of(items@),
            k <= n,
            order@.len() == k,
            forall|i: int| 0 <= i < order@.len() ==> order@[i] < k,
            forall|i: int, j: int|
                0 <= i < j < order@.len() ==> packs_before(sizes, order@[i] as int, order@[j] as int),
        decreases n - k,
    {
        let mut p: usize = 0;
        while p < order.len() && !larger(items, k, order[p])
            invariant
                n == items@.len(),
                sizes == sizes_of(items@),
                k < n,
                order@.len() == k,
                forall|i: int| 0 <= i < order@.len() ==> order@[i] < k,
                p <= order@.len(),
                forall|i: int| 0 <= i < p ==> packs_before(sizes, order@[i] as int, k as int),
            decreases order@.len() - p,
        {
            p = p + 1;
        }
        let ghost before = order@;
        order.insert(p, k);
        proof {
            assert forall|i: int, j: int|
                0 <= i < j < order@.len() implies packs_before(
                    sizes,
                    order@[i] as int,
                    order@[j] as int,
                ) by {
                if j < p {
                    assert(order@[i] == before[i] && order@[j] == before[j]);
                } else if j == p {
                    assert(order@[i] == before[i]);
                } else if i == p {
                    assert(order@[j] == before[j - 1]);
                    assert(packs_before(sizes, k as int, before[p as int] as int));
                    if j - 1 > p {
                        assert(packs_before(sizes, before[p as int] as int, before[j - 1] as int));
                    }
                } else if i < p {
                    assert(order@[i] == before[i] && order@[j] == before[j - 1]);
                } else {
                    assert(order@[i] == before[i - 1] && order@[j] == before[j - 1]);
                }
            }
        }
        k = k + 1;
    }
    order
}

// ---------------------------------------------------------------------------
// Choosing the atlas width
// ---------------------------------------------------------------------------

/// Every frame's area including one gutter on each axis.
pub open spec fn total_area(sizes: Seq<(u32, u32)>) -> nat
    decreases sizes.len(),
{
    if sizes.len() == 0 {
        0
    } else {
        total_area(sizes.drop_last()) + (sizes.last().0 + PADDING) as nat * (sizes.last().1
            + PADDING) as nat
    }
}

/// The widest frame's width, or 0 when there are none.
pub open spec fn widest(sizes: Seq<(u32, u32)>) -> nat
    decreases sizes.len(),
{
    if sizes.len() == 0 {
        0
    } else if sizes.last().0 > widest(sizes.drop_last()) {
        sizes.last().0 as nat
    } else {
        widest(sizes.drop_last())
    }
}

/// The square root of `area`, rounded up.
pub open spec fn ceil_sqrt_of(area: nat) -> nat {
    choose|r: nat| is_ceil_sqrt(r, area)
}

proof fn lemma_ceil_sqrt_unique(r: nat, area: nat)
    requires
        is_ceil_sqrt(r, area),
    ensures
        ceil_sqrt_of(area) == r,
{
    let c = ceil_sqrt_of(area);
    assert(is_ceil_sqrt(c, area));
    if c < r {
        assert(c * c <= (r - 1) * (r - 1)) by (nonlinear_arith)
            requires
                c <= r - 1,
                r >= 1,
        ;
    } else if r < c {
        assert(r * r <= (c - 1) * (c - 1)) by (nonlinear_arith)
            requires
                r <= c - 1,
                c >= 1,
        ;
    }
}

/// The first width tried: the square root of the total area or the widest
/// frame with its gutters, whichever is more, rounded up to a power of two and
/// held to `max_dim`.
pub open spec fn initial_width(sizes: Seq<(u32, u32)>, max_dim: nat) -> nat {
    let side = ceil_sqrt_of(total_area(sizes));
    let wide = (widest(sizes) + PADDING * 2) as nat;
    let guess = next_power_of_two(
        if side > wide {
            side
        } else {
            wide
        },
    );
    if guess > max_dim {
        max_dim
    } else {
        guess
    }
}

pub open spec fn too_big_message(max_dim: nat) -> Seq<char> {
    "sprite atlas does not fit in "@ + decimal(max_dim) + "x"@ + decimal(max_dim)
        + "px; reduce frame sizes or frame counts"@
}

/// Packing at `width`, doubling it (up to `max_dim`) until the frames fit.
pub open spec fn plan_from(sorted: Seq<(u32, u32)>, width: nat, max_dim: nat) -> Result<
    (nat, nat, Seq<(int, int)>),
    Seq<char>,
>
    decreases max_dim - width,
{
    match spec_try_pack(sorted, width, max_dim) {
        Some((height, placed)) => Ok((width, height, placed)),
        None => if width >= max_dim || width == 0 {
            Err(too_big_message(max_dim))
        } else {
            plan_from(
                sorted,
                if 2 * width > max_dim {
                    max_dim
                } else {
                    2 * width
                },
                max_dim,
            )
        },
    }
}

/// The sizes in the order `order` lists them.
pub open spec fn reordered(sizes: Seq<(u32, u32)>, order: Seq<usize>) -> Seq<(u32, u32)> {
    Seq::new(order.len(), |i: int| sizes[order[i] as int])
}

/// Where every frame goes: the atlas size, the order the frames were packed
/// in, and the corner of each frame in that order.
pub struct AtlasPlan {
    pub width: u32,
    pub height: u32,
    pub order: Vec<usize>,
    pub placements: Vec<(u32, u32)>,
}

pub open spec fn points(placements: Seq<(u32, u32)>) -> Seq<(int, int)> {
    placements.map_values(|p: (u32, u32)| (p.0 as int, p.1 as int))
}

/// What planning an atlas of at most `max_dim` on a side gives: a 1 x 1 atlas
/// with nothing in it when there are no frames, else the packing at the first
/// width that fits.
pub open spec fn spec_plan(sizes: Seq<(u32, u32)>, order: Seq<usize>, max_dim: nat) -> Result<
    (nat, nat, Seq<(int, int)>),
    Seq<char>,
> {
    if sizes.len() == 0 {
        Ok((1, 1, Seq::empty()))
    } else {
        plan_from(reordered(sizes, order), initial_width(sizes, max_dim), max_dim)
    }
}

/// Sizes whose total area the planner can add up.
pub open spec fn plan_in_range(sizes: Seq<(u32, u32)>, max_dim: nat) -> bool {
    &&& sizes_in_range(sizes)
    &&& total_area(sizes) <= 0x1000_0000_0000_0000
    &&& max_dim <= MAX_SIDE
}

proof fn lemma_area_prefix(sizes: Seq<(u32, u32)>, k: int)
    requires
        0 <= k < sizes.len(),
    ensures
        total_area(sizes.take(k + 1)) == total_area(sizes.take(k)) + (sizes[k].0 + PADDING) as nat
            * (sizes[k].1 + PADDING) as nat,
        widest(sizes.take(k + 1)) == (if sizes[k].0 > widest(sizes.take(k)) {
            sizes[k].0 as nat
        } else {
            widest(sizes.take(k))
        }),
{
    assert(sizes.take(k + 1).drop_last() =~= sizes.take(k));
}

proof fn lemma_area_grows(sizes: Seq<(u32, u32)>, k: int)
    requires
        0 <= k <= sizes.len(),
    ensures
        total_area(sizes.take(k)) <= total_area(sizes),
        widest(sizes.take(k)) <= widest(sizes),
    decreases sizes.len() - k,
{
    if k < sizes.len() {
        lemma_area_prefix(sizes, k);
        lemma_area_grows(sizes, k + 1);
    } else {
        assert(sizes.take(k) =~= sizes);
    }
}

proof fn lemma_widest_bound(sizes: Seq<(u32, u32)>)
    requires
        sizes_in_range(sizes),
    ensures
        widest(sizes) + PADDING * 2 <= MAX_SIDE,
    decreases sizes.len(),
{
    if sizes.len() > 0 {
        lemma_widest_bound(sizes.drop_last());
    }
}

/// Packs every frame of `items` (name, frame index, width, height) into one
/// atlas no larger than `max_dim` on a side.
pub fn plan_atlas(items: &[(&str, usize, u32, u32)], max_dim: u32) -> (out: Result<AtlasPlan, String>)
    requires
        plan_in_range(sizes_of(items@), max_dim as nat),
    ensures
        match out {
            Ok(plan) => {
                &&& is_packing_order(sizes_of(items@), plan.order@)
                &&& spec_plan(sizes_of(items@), plan.order@, max_dim as nat) == Ok::<
                    (nat, nat, Seq<(int, int)>),
                    Seq<char>,
                >((plan.width as nat, plan.height as nat, points(plan.placements@)))
            },
            Err(e) => exists|order: Seq<usize>|
                #![trigger is_packing_order(sizes_of(items@), order)]
                is_packing_order(sizes_of(items@), order) && spec_plan(
                    sizes_of(items@),
                    order,
                    max_dim as nat,
                ) == Err::<(nat, nat, Seq<(int, int)>), Seq<char>>(e@),
        },
{
    let ghost sizes = sizes_of(items@);
    let order = packing_order(items);
    if items.len() == 0 {
        let placements: Vec<(u32, u32)> = Vec::new();
        assert(points(placements@) =~= Seq::<(int, int)>::empty());
        return Ok(AtlasPlan { width: 1, height: 1, order, placements });
    }
    let mut sorted: Vec<(&str, usize, u32, u32)> = Vec::new();
    let mut i: usize = 0;
    while i < order.len()
        invariant
            sizes == sizes_of(items@),
            is_packing_order(sizes, order@),
            i <= order@.len(),
            sorted@.len() == i,
            forall|j: int| 0 <= j < i ==> #[trigger] sorted@[j] == items@[order@[j] as int],
        decreases order@.len() - i,
    {
        sorted.push(items[order[i]]);
        i = i + 1;
    }
    assert(sizes_of(sorted@) =~= reordered(sizes, order@));
    let mut area: u64 = 0;
    let mut wide: u32 = 0;
    let mut k: usize = 0;
    assert(sizes.take(0) =~= Seq::<(u32, u32)>::empty());
    while k < items.len()
        invariant
            sizes == sizes_of(items@),
            plan_in_range(sizes, max_dim as nat),
            k <= items@.len(),
            area == total_area(sizes.take(k as int)),
            wide == widest(sizes.take(k as int)),
        decreases items@.len() - k,
    {
        proof {
            lemma_area_prefix(sizes, k as int);
            lemma_area_grows(sizes, k + 1);
        }
        let (_, _, w, h) = items[k];
        area = area + ((w + PADDING) as u64) * ((h + PADDING) as u64);
        if w > wide {
            wide = w;
        }
        k = k + 1;
    }
    assert(sizes.take(k as int) =~= sizes);
    proof {
        lemma_widest_bound(sizes);
    }
    let side = ceil_sqrt(area);
    proof {
        lemma_ceil_sqrt_unique(side as nat, area as nat);
    }
    let span = wide + PADDING * 2;
    let base = if side > span {
        side
    } else {
        span
    };
    let guess = next_power_of_two_exec(base);
    let mut width: u32 = if guess > max_dim {
        max_dim
    } else {
        guess
    };
    assert(width == initial_width(sizes, max_dim as nat));
    loop
        invariant
            sizes_in_range(sizes_of(sorted@)),
            sizes_of(sorted@) == reordered(sizes, order@),
            max_dim <= MAX_SIDE,
            width <= max_dim,
            spec_plan(sizes, order@, max_dim as nat) == plan_from(
                sizes_of(sorted@),
                width as nat,
                max_dim as nat,
            ),
            sizes.len() > 0,
            is_packing_order(sizes, order@),
            sizes == sizes_of(items@),
        decreases max_dim - width,
    {
        match try_pack(sorted.as_slice(), width, max_dim) {
            Some((height, placements)) => {
                return Ok(AtlasPlan { width, height, order, placements });
            },
            None => {},
        }
        if width >= max_dim || width == 0 {
            let mut message = String::from_str("sprite atlas does not fit in ");
            push_decimal(&mut message, max_dim as u64);
            message.append("x");
            push_decimal(&mut message, max_dim as u64);
            message.append("px; reduce frame sizes or frame counts");
            return Err(message);
        }
        width = if width * 2 > max_dim {
            max_dim
        } else {
            width * 2
        };
    }
}

proof fn lemma_plan_from_packs(sorted: Seq<(u32, u32)>, width: nat, max_dim: nat)
    requires
        width <= max_dim,
        plan_from(sorted, width, max_dim) is Ok,
    ensures
        ({
            let (w, h, placed) = plan_from(sorted, width, max_dim)->Ok_0;
            &&& w <= max_dim
            &&& spec_try_pack(sorted, w, max_dim) == Some((h, placed))
        }),
    decreases max_dim - width,
{
    if spec_try_pack(sorted, width, max_dim) is None {
        let next = if 2 * width > max_dim {
            max_dim
        } else {
            2 * width
        };
        lemma_plan_from_packs(sorted, next, max_dim);
    }
}

// ---------------------------------------------------------------------------
// The atlas image
// ---------------------------------------------------------------------------

proof fn lemma_atlas_byte_step(frames: Seq<ImageModel>, placed: Seq<(int, int)>, k: int, px: int, py: int, c: int)
    requires
        0 <= k < frames.len(),
        placed.len() == frames.len(),
        forall|i: int, j: int|
            0 <= i < frames.len() && 0 <= j < frames.len() && i != j && #[trigger] covers(
                frames,
                placed,
                i,
                px,
                py,
            ) ==> !#[trigger] covers(frames, placed, j, px, py),
    ensures
        atlas_byte(frames.take(k + 1), placed.take(k + 1), px, py, c) == if covers(
            frames,
            placed,
            k,
            px,
            py,
        ) {
            frames[k].byte(px - placed[k].0, py - placed[k].1, c)
        } else {
            atlas_byte(frames.take(k), placed.take(k), px, py, c)
        },
{
    let f1 = frames.take(k + 1);
    let p1 = placed.take(k + 1);
    let f0 = frames.take(k);
    let p0 = placed.take(k);
    assert forall|j: int| 0 <= j < f1.len() implies #[trigger] covers(f1, p1, j, px, py) == covers(
        frames,
        placed,
        j,
        px,
        py,
    ) by {}
    assert forall|j: int| 0 <= j < f0.len() implies #[trigger] covers(f0, p0, j, px, py) == covers(
        frames,
        placed,
        j,
        px,
        py,
    ) by {}
    if covers(frames, placed, k, px, py) {
        assert(covers(f1, p1, k, px, py));
        let j = choose|j: int| 0 <= j < f1.len() && #[trigger] covers(f1, p1, j, px, py);
        assert(j == k);
    } else {
        if exists|j: int| 0 <= j < f1.len() && #[trigger] covers(f1, p1, j, px, py) {
            let j = choose|j: int| 0 <= j < f1.len() && #[trigger] covers(f1, p1, j, px, py);
            assert(j < k);
            assert(covers(f0, p0, j, px, py));
            let i = choose|i: int| 0 <= i < f0.len() && #[trigger] covers(f0, p0, i, px, py);
            assert(i == j);
        } else {
            if exists|j: int| 0 <= j < f0.len() && #[trigger] covers(f0, p0, j, px, py) {
                let j = choose|j: int| 0 <= j < f0.len() && #[trigger] covers(f0, p0, j, px, py);
                assert(covers(f1, p1, j, px, py));
            }
        }
    }
}

proof fn lemma_apart_disjoint(
    frames: Seq<ImageModel>,
    placed: Seq<(int, int)>,
    sizes: Seq<(u32, u32)>,
    px: int,
    py: int,
)
    requires
        placed.len() == frames.len(),
        sizes.len() == frames.len(),
        forall|j: int|
            0 <= j < frames.len() ==> #[trigger] sizes[j].0 == frames[j].width && sizes[j].1
                == frames[j].height,
        forall|i: int, j: int|
            0 <= i < placed.len() && 0 <= j < placed.len() && i != j ==> apart(placed, sizes, i, j),
    ensures
        forall|i: int, j: int|
            0 <= i < frames.len() && 0 <= j < frames.len() && i != j && #[trigger] covers(
                frames,
                placed,
                i,
                px,
                py,
            ) ==> !#[trigger] covers(frames, placed, j, px, py),
{
    assert forall|i: int, j: int|
        0 <= i < frames.len() && 0 <= j < frames.len() && i != j && #[trigger] covers(
            frames,
            placed,
            i,
            px,
            py,
        ) implies !#[trigger] covers(frames, placed, j, px, py) by {
        assert(apart(placed, sizes, i, j));
        assert(sizes[i].0 == frames[i].width);
        assert(sizes[i].1 == frames[i].height);
        assert(sizes[j].0 == frames[j].width);
        assert(sizes[j].1 == frames[j].height);
    }
}

/// Each asset's frames.
pub open spec fn frame_parts(assets: Seq<(String, Vec<Image>)>) -> Seq<Seq<ImageModel>> {
    Seq::new(assets.len(), |a: int| frames_model(assets[a].1))
}

/// Every frame of every asset, asset after asset.
pub open spec fn frame_list(assets: Seq<(String, Vec<Image>)>) -> Seq<ImageModel> {
    joined(frame_parts(assets))
}

/// The sizes of `frames`, in order.
pub open spec fn frame_sizes(frames: Seq<ImageModel>) -> Seq<(u32, u32)> {
    frames.map_values(|frame: ImageModel| (frame.width as u32, frame.height as u32))
}

/// Whether frame `j`, cornered at `placed[j]`, covers pixel `(px, py)`.
pub open spec fn covers(frames: Seq<ImageModel>, placed: Seq<(int, int)>, j: int, px: int, py: int) -> bool {
    ImageModel::in_rect(px, py, placed[j].0, placed[j].1, frames[j].width, frames[j].height)
}

/// Channel `c` of atlas pixel `(px, py)`: that of the frame placed over it,
/// or zero (transparent) where no frame is.
pub open spec fn atlas_byte(frames: Seq<ImageModel>, placed: Seq<(int, int)>, px: int, py: int, c: int) -> u8 {
    if exists|j: int| 0 <= j < frames.len() && #[trigger] covers(frames, placed, j, px, py) {
        let j = choose|j: int| 0 <= j < frames.len() && #[trigger] covers(frames, placed, j, px, py);
        frames[j].byte(px - placed[j].0, py - placed[j].1, c)
    } else {
        0
    }
}

proof fn lemma_joined_prefix_len<A>(parts: Seq<Seq<A>>, k: int)
    requires
        0 <= k <= parts.len(),
    ensures
        joined(parts.take(k)).len() <= joined(parts).len(),
    decreases parts.len() - k,
{
    if k < parts.len() {
        lemma_joined_prefix_len(parts, k + 1);
        assert(parts.take(k + 1) =~= parts.take(k).push(parts[k]));
        lemma_joined_push(parts.take(k), parts[k]);
    } else {
        assert(parts.take(k) =~= parts);
    }
}

proof fn lemma_packing_order_distinct(sizes: Seq<(u32, u32)>, order: Seq<usize>)
    requires
        is_packing_order(sizes, order),
    ensures
        forall|i: int, j: int| 0 <= i < order.len() && 0 <= j < order.len() && i != j ==> order[i] != order[j],
{
    assert forall|i: int, j: int| 0 <= i < order.len() && 0 <= j < order.len() && i != j implies order[i] != order[j] by {
        if i < j {
            assert(packs_before(sizes, order[i] as int, order[j] as int));
        } else {
            assert(packs_before(sizes, order[j] as int, order[i] as int));
        }
    }
}

/// A successful plan puts every frame, in packing order, inside the atlas and
/// clear of the others.
proof fn lemma_plan_fits(sizes: Seq<(u32, u32)>, order: Seq<usize>, max_dim: nat)
    requires
        plan_in_range(sizes, max_dim),
        sizes.len() > 0,
        is_packing_order(sizes, order),
        spec_plan(sizes, order, max_dim) is Ok,
    ensures
        ({
            let (w, h, placed) = spec_plan(sizes, order, max_dim)->Ok_0;
            let sorted = reordered(sizes, order);
            &&& w <= max_dim
            &&& h <= max_dim
            &&& placed.len() == sizes.len()
            &&& forall|i: int|
                0 <= i < placed.len() ==> {
                    &&& 0 <= placed[i].0
                    &&& 0 <= placed[i].1
                    &&& placed[i].0 + sorted[i].0 <= w
                    &&& placed[i].1 + sorted[i].1 <= h
                }
            &&& forall|i: int, j: int|
                0 <= i < placed.len() && 0 <= j < placed.len() && i != j ==> apart(placed, sorted, i, j)
        }),
{
    let sorted = reordered(sizes, order);
    lemma_plan_from_packs(sorted, initial_width(sizes, max_dim), max_dim);
    let (w, h, placed) = spec_plan(sizes, order, max_dim)->Ok_0;
    assert(sizes_in_range(sorted)) by {
        assert forall|i: int| 0 <= i < sorted.len() implies sorted[i].0 + PADDING * 2 <= MAX_SIDE
            && sorted[i].1 + PADDING * 2 <= MAX_SIDE by {
            assert(sorted[i] == sizes[order[i] as int]);
        }
    }
    law_packed_frames_fit_and_do_not_overlap(sorted, w, max_dim);
}

/// The frames of `assets` as planner items (name, frame index, width,
/// height), asset after asset, with the asset and frame each came from.
fn collect_items<'a>(assets: &'a Vec<(String, Vec<Image>)>) -> (out: (
    Vec<(&'a str, usize, u32, u32)>,
    Vec<(usize, usize)>,
))
    ensures
        out.0@.len() == frame_list(assets@).len(),
        out.1@.len() == frame_list(assets@).len(),
        sizes_of(out.0@) == frame_sizes(frame_list(assets@)),
        forall|t: int|
            0 <= t < out.1@.len() ==> {
                let (a, f) = #[trigger] out.1@[t];
                &&& a < assets@.len()
                &&& f < assets@[a as int].1@.len()
                &&& assets@[a as int].1@[f as int]@ == frame_list(assets@)[t]
            },
{
    let mut items: Vec<(&'a str, usize, u32, u32)> = Vec::new();
    let mut origin: Vec<(usize, usize)> = Vec::new();
    let ghost parts = Seq::new(assets@.len(), |a: int| frames_model(assets@[a].1));
    let ghost mut flat: Seq<ImageModel> = Seq::empty();
    let mut a: usize = 0;
    proof {
        assert(Seq::new(0, |b: int| frames_model(assets@[b].1)) =~= Seq::<Seq<ImageModel>>::empty());
    }
    while a < assets.len()
        invariant
            a <= assets@.len(),
            parts == Seq::new(assets@.len(), |b: int| frames_model(assets@[b].1)),
            flat == joined(parts.take(a as int)),
            items@.len() == flat.len(),
            origin@.len() == flat.len(),
            forall|t: int|
                0 <= t < items@.len() ==> (#[trigger] items@[t]).2 == flat[t].width && items@[t].3
                    == flat[t].height,
            forall|t: int|
                0 <= t < origin@.len() ==> {
                    let (b, f) = #[trigger] origin@[t];
                    &&& b < assets@.len()
                    &&& f < assets@[b as int].1@.len()
                    &&& assets@[b as int].1@[f as int]@ == flat[t]
                },
        decreases assets@.len() - a,
    {
        let frames = &assets[a].1;
        let ghost start = flat;
        let mut f: usize = 0;
        while f < frames.len()
            invariant
                a < assets@.len(),
                *frames == assets@[a as int].1,
                f <= frames@.len(),
                flat == start + frames_model(*frames).take(f as int),
                items@.len() == flat.len(),
                origin@.len() == flat.len(),
                forall|t: int|
                    0 <= t < items@.len() ==> (#[trigger] items@[t]).2 == flat[t].width
                        && items@[t].3 == flat[t].height,
                forall|t: int|
                    0 <= t < origin@.len() ==> {
                        let (b, g) = #[trigger] origin@[t];
                        &&& b < assets@.len()
                        &&& g < assets@[b as int].1@.len()
                        &&& assets@[b as int].1@[g as int]@ == flat[t]
                    },
            decreases frames@.len() - f,
        {
            let frame = &frames[f];
            items.push((assets[a].0.as_str(), f, frame.width(), frame.height()));
            origin.push((a, f));
            proof {
                let old_flat = flat;
                flat = flat.push(frame@);
                assert(flat =~= start + frames_model(*frames).take(f + 1)) by {
                    assert(frames_model(*frames).take(f + 1) =~= frames_model(*frames).take(
                        f as int,
                    ).push(frame@));
                }
                assert forall|t: int| 0 <= t < items@.len() implies (#[trigger] items@[t]).2
                    == flat[t].width && items@[t].3 == flat[t].height by {
                    if t < old_flat.len() {
                        assert(flat[t] == old_flat[t]);
                    }
                }
                assert forall|t: int| 0 <= t < origin@.len() implies {
                    let (b, g) = #[trigger] origin@[t];
                    &&& b < assets@.len()
                    &&& g < assets@[b as int].1@.len()
                    &&& assets@[b as int].1@[g as int]@ == flat[t]
                } by {
                    if t < old_flat.len() {
                        assert(flat[t] == old_flat[t]);
                    }
                }
            }
            f = f + 1;
        }
        proof {
            assert(frames_model(*frames).take(frames@.len() as int) =~= frames_model(*frames));
            assert(parts.take(a + 1) =~= parts.take(a as int).push(frames_model(*frames)));
            lemma_joined_push(parts.take(a as int), frames_model(*frames));
        }
        a = a + 1;
    }
    proof {
        assert(parts.take(assets@.len() as int) =~= parts);
        assert(sizes_of(items@) =~= frame_sizes(flat));
    }
    (items, origin)
}

/// Every frame of every loaded asset in one image, and where each one is.
#[derive(Debug)]
pub struct Atlas {
    pub image: Image,
    /// Asset name and each frame's rectangle in pixels, `[x0, y0, x1, y1]`,
    /// indexed as the asset's frames are.
    pub rects: Vec<(String, Vec<[u32; 4]>)>,
}

impl Atlas {
    /// Every frame's rectangle, asset after asset.
    pub open spec fn rect_list(self) -> Seq<Seq<u32>> {
        joined(
            Seq::new(
                self.rects@.len(),
                |a: int| self.rects@[a].1@.map_values(|r: [u32; 4]| r@),
            ),
        )
    }

    /// What `build` makes of `assets`: the frames packed in packing order at
    /// the first width that fits, drawn into an image of the packed size, and
    /// each frame's rectangle recorded under its asset.
    pub open spec fn drawn_from(
        self,
        assets: Seq<(String, Vec<Image>)>,
        order: Seq<usize>,
        width: nat,
        height: nat,
        placed: Seq<(int, int)>,
    ) -> bool {
        let frames = frame_list(assets);
        let sorted = Seq::new(order.len(), |j: int| frames[order[j] as int]);
        &&& self.image.wf()
        &&& self.image@.width == width
        &&& self.image@.height == height
        &&& forall|px: int, py: int, c: int|
            0 <= px < width && 0 <= py < height && 0 <= c < 4 ==> #[trigger] self.image@.byte(
                px,
                py,
                c,
            ) == atlas_byte(sorted, placed, px, py, c)
        &&& self.rects@.len() == assets.len()
        &&& forall|a: int|
            0 <= a < assets.len() ==> (#[trigger] self.rects@[a]).0@ == assets[a].0@
                && self.rects@[a].1@.len() == assets[a].1@.len()
        &&& self.rect_list().len() == frames.len()
        &&& forall|j: int|
            0 <= j < order.len() ==> #[trigger] self.rect_list()[order[j] as int] == seq![
                placed[j].0 as u32,
                placed[j].1 as u32,
                (placed[j].0 + frames[order[j] as int].width) as u32,
                (placed[j].1 + frames[order[j] as int].height) as u32,
            ]
    }

    /// Packs every frame of `assets` into one image no larger than `max_dim`
    /// on a side; with no frames at all, a 1 x 1 transparent image and no
    /// rectangles.
    pub fn build(assets: &Vec<(String, Vec<Image>)>, max_dim: u32) -> (out: Result<Atlas, String>)
        requires
            forall|a: int, f: int|
                0 <= a < assets@.len() && 0 <= f < assets@[a].1@.len() ==> (
                #[trigger] assets@[a].1@[f]).wf(),
            plan_in_range(frame_sizes(frame_list(assets@)), max_dim as nat),
            max_dim * max_dim * 4 <= usize::MAX,
        ensures
            frame_list(assets@).len() == 0 ==> (out matches Ok(atlas) && atlas.image.wf()
                && atlas.image@ == blank(1, 1) && atlas.rects@.len() == 0),
            frame_list(assets@).len() > 0 ==> match out {
                Ok(atlas) => exists|order: Seq<usize>|
                    #![trigger is_packing_order(frame_sizes(frame_list(assets@)), order)]
                    is_packing_order(frame_sizes(frame_list(assets@)), order) && (spec_plan(
                        frame_sizes(frame_list(assets@)),
                        order,
                        max_dim as nat,
                    ) matches Ok((w, h, placed)) && atlas.drawn_from(assets@, order, w, h, placed)),
                Err(e) => exists|order: Seq<usize>|
                    #![trigger is_packing_order(frame_sizes(frame_list(assets@)), order)]
                    is_packing_order(frame_sizes(frame_list(assets@)), order) && spec_plan(
                        frame_sizes(frame_list(assets@)),
                        order,
                        max_dim as nat,
                    ) == Err::<(nat, nat, Seq<(int, int)>), Seq<char>>(e@),
            },
    {
        let (items, origin) = collect_items(assets);
        if items.len() == 0 {
            let image = Image::new(1, 1);
            assert(image@.pixels =~= blank(1, 1).pixels);
            return Ok(Atlas { image, rects: Vec::new() });
        }
        let plan = match plan_atlas(items.as_slice(), max_dim) {
            Ok(plan) => plan,
            Err(e) => {
                return Err(e);
            },
        };
        let ghost sizes = frame_sizes(frame_list(assets@));
        proof {
            lemma_plan_fits(sizes, plan.order@, max_dim as nat);
            assert(plan.width * plan.height * 4 <= usize::MAX) by (nonlinear_arith)
                requires
                    plan.width <= max_dim,
                    plan.height <= max_dim,
                    max_dim * max_dim * 4 <= usize::MAX,
            ;
        }
        let (image, item_rects) = Self::render(assets, &items, &origin, &plan, Ghost(max_dim as nat));
        let rects = Self::group_rects(assets, &item_rects);
        let atlas = Atlas { image, rects };
        proof {
            assert(is_packing_order(sizes, plan.order@));
        }
        Ok(atlas)
    }

    /// Draws each frame at its place in the plan, and notes its rectangle by
    /// its position among all the frames.
    fn render(
        assets: &Vec<(String, Vec<Image>)>,
        items: &Vec<(&str, usize, u32, u32)>,
        origin: &Vec<(usize, usize)>,
        plan: &AtlasPlan,
        Ghost(max_dim): Ghost<nat>,
    ) -> (out: (Image, Vec<[u32; 4]>))
        requires
            forall|a: int, f: int|
                0 <= a < assets@.len() && 0 <= f < assets@[a].1@.len() ==> (
                #[trigger] assets@[a].1@[f]).wf(),
            items@.len() == frame_list(assets@).len(),
            origin@.len() == frame_list(assets@).len(),
            sizes_of(items@) == frame_sizes(frame_list(assets@)),
            forall|t: int|
                0 <= t < origin@.len() ==> {
                    let (a, f) = #[trigger] origin@[t];
                    &&& a < assets@.len()
                    &&& f < assets@[a as int].1@.len()
                    &&& assets@[a as int].1@[f as int]@ == frame_list(assets@)[t]
                },
            frame_list(assets@).len() > 0,
            plan_in_range(frame_sizes(frame_list(assets@)), max_dim),
            is_packing_order(frame_sizes(frame_list(assets@)), plan.order@),
            spec_plan(frame_sizes(frame_list(assets@)), plan.order@, max_dim) == Ok::<
                (nat, nat, Seq<(int, int)>),
                Seq<char>,
            >((plan.width as nat, plan.height as nat, points(plan.placements@))),
            plan.width * plan.height * 4 <= usize::MAX,
        ensures
            ({
                let frames = frame_list(assets@);
                let order = plan.order@;
                let placed = points(plan.placements@);
                let sorted = Seq::new(order.len(), |j: int| frames[order[j] as int]);
                &&& out.0.wf()
                &&& out.0@.width == plan.width
                &&& out.0@.height == plan.height
                &&& forall|px: int, py: int, c: int|
                    0 <= px < plan.width && 0 <= py < plan.height && 0 <= c < 4
                        ==> #[trigger] out.0@.byte(px, py, c) == atlas_byte(sorted, placed, px, py, c)
                &&& out.1@.len() == frames.len()
                &&& forall|j: int|
                    0 <= j < order.len() ==> (#[trigger] out.1@[order[j] as int])@ == seq![
                        placed[j].0 as u32,
                        placed[j].1 as u32,
                        (placed[j].0 + frames[order[j] as int].width) as u32,
                        (placed[j].1 + frames[order[j] as int].height) as u32,
                    ]
            }),
    {
        let ghost frames = frame_list(assets@);
        let ghost sizes = frame_sizes(frames);
        let ghost order = plan.order@;
        let ghost placed = points(plan.placements@);
        let ghost sorted = Seq::new(order.len(), |j: int| frames[order[j] as int]);
        proof {
            lemma_plan_fits(sizes, order, max_dim);
            lemma_packing_order_distinct(sizes, order);
            assert forall|j: int| 0 <= j < sorted.len() implies #[trigger] reordered(sizes, order)[j].0
                == sorted[j].width && reordered(sizes, order)[j].1 == sorted[j].height by {
                let t = order[j] as int;
                assert(reordered(sizes, order)[j] == sizes[t]);
                let (a, f) = origin@[t];
                lemma_image_sides(&assets@[a as int].1@[f as int]);
                assert(sorted[j] == frames[t]);
            }
        }
        let n = items.len();
        let mut item_rects: Vec<[u32; 4]> = Vec::new();
        let mut t: usize = 0;
        while t < n
            invariant
                t <= n,
                item_rects@.len() == t,
            decreases n - t,
        {
            item_rects.push([0, 0, 0, 0]);
            t = t + 1;
        }
        let mut image = Image::new(plan.width, plan.height);
        proof {
            assert forall|px: int, py: int, c: int|
                0 <= px < plan.width && 0 <= py < plan.height && 0 <= c < 4
                    implies #[trigger] image@.byte(px, py, c) == atlas_byte(
                    sorted.take(0),
                    placed.take(0),
                    px,
                    py,
                    c,
                ) by {
                lemma_offset_in_bounds(image@.width, image@.height, px, py);
            }
        }
        let mut j: usize = 0;
        while j < plan.order.len()
            invariant
                forall|a: int, f: int|
                    0 <= a < assets@.len() && 0 <= f < assets@[a].1@.len() ==> (
                    #[trigger] assets@[a].1@[f]).wf(),
                frames == frame_list(assets@),
                sizes == frame_sizes(frames),
                order == plan.order@,
                placed == points(plan.placements@),
                sorted == Seq::new(order.len(), |j: int| frames[order[j] as int]),
                n == frames.len(),
                order.len() == n,
                origin@.len() == n,
                forall|t: int|
                    0 <= t < origin@.len() ==> {
                        let (a, f) = #[trigger] origin@[t];
                        &&& a < assets@.len()
                        &&& f < assets@[a as int].1@.len()
                        &&& assets@[a as int].1@[f as int]@ == frames[t]
                    },
                forall|i: int| 0 <= i < order.len() ==> order[i] < n,
                forall|i: int, k: int| 0 <= i < order.len() && 0 <= k < order.len() && i != k ==> order[i] != order[k],
                placed.len() == n,
                forall|i: int|
                    0 <= i < placed.len() ==> {
                        &&& 0 <= placed[i].0
                        &&& 0 <= placed[i].1
                        &&& placed[i].0 + sorted[i].width <= plan.width
                        &&& placed[i].1 + sorted[i].height <= plan.height
                    },
                forall|i: int, k: int|
                    0 <= i < placed.len() && 0 <= k < placed.len() && i != k ==> apart(
                        placed,
                        reordered(sizes, order),
                        i,
                        k,
                    ),
                forall|i: int| 0 <= i < sorted.len() ==> #[trigger] reordered(sizes, order)[i].0
                    == sorted[i].width && reordered(sizes, order)[i].1 == sorted[i].height,
                j <= n,
                image.wf(),
                image@.width == plan.width,
                image@.height == plan.height,
                forall|px: int, py: int, c: int|
                    0 <= px < plan.width && 0 <= py < plan.height && 0 <= c < 4
                        ==> #[trigger] image@.byte(px, py, c) == atlas_byte(
                        sorted.take(j as int),
                        placed.take(j as int),
                        px,
                        py,
                        c,
                    ),
                item_rects@.len() == n,
                forall|i: int|
                    0 <= i < j ==> (#[trigger] item_rects@[order[i] as int])@ == seq![
                        placed[i].0 as u32,
                        placed[i].1 as u32,
                        (placed[i].0 + frames[order[i] as int].width) as u32,
                        (placed[i].1 + frames[order[i] as int].height) as u32,
                    ],
            decreases n - j,
        {
            let t = plan.order[j];
            let (a, f) = origin[t];
            let (x, y) = plan.placements[j];
            let frame = &assets[a].1[f];
            assert(frame@ == sorted[j as int]);
            assert(placed[j as int] == (x as int, y as int));
            let ghost before = image@;
            replace(&mut image, frame, x, y);
            let rect = [x, y, x + frame.width(), y + frame.height()];
            item_rects.set(t, rect);
            proof {
                assert forall|px: int, py: int, c: int|
                    0 <= px < plan.width && 0 <= py < plan.height && 0 <= c < 4
                        implies #[trigger] image@.byte(px, py, c) == atlas_byte(
                        sorted.take(j + 1),
                        placed.take(j + 1),
                        px,
                        py,
                        c,
                    ) by {
                    lemma_apart_disjoint(sorted, placed, reordered(sizes, order), px, py);
                    lemma_atlas_byte_step(sorted, placed, j as int, px, py, c);
                    assert(before.byte(px, py, c) == atlas_byte(
                        sorted.take(j as int),
                        placed.take(j as int),
                        px,
                        py,
                        c,
                    ));
                }
                assert forall|i: int| 0 <= i < j + 1 implies (#[trigger] item_rects@[order[i] as int])@
                    == seq![
                    placed[i].0 as u32,
                    placed[i].1 as u32,
                    (placed[i].0 + frames[order[i] as int].width) as u32,
                    (placed[i].1 + frames[order[i] as int].height) as u32,
                ] by {
                    if i == j {
                        assert(rect@ =~= seq![x, y, (x + frame@.width) as u32, (y + frame@.height) as u32]);
                    } else {
                        assert(order[i] != order[j as int]);
                    }
                }
            }
            j = j + 1;
        }
        proof {
            assert(sorted.take(n as int) =~= sorted);
            assert(placed.take(n as int) =~= placed);
        }
        (image, item_rects)
    }

    /// The rectangles of all the frames, by position among all the frames,
    /// regrouped under the asset each frame belongs to.
    fn group_rects(assets: &Vec<(String, Vec<Image>)>, item_rects: &Vec<[u32; 4]>) -> (rects: Vec<
        (String, Vec<[u32; 4]>),
    >)
        requires
            item_rects@.len() == frame_list(assets@).len(),
        ensures
            rects@.len() == assets@.len(),
            forall|a: int|
                0 <= a < assets@.len() ==> (#[trigger] rects@[a]).0@ == assets@[a].0@
                    && rects@[a].1@.len() == assets@[a].1@.len(),
            joined(Seq::new(rects@.len(), |a: int| rects@[a].1@.map_values(|r: [u32; 4]| r@)))
                == item_rects@.map_values(|r: [u32; 4]| r@),
    {
        let ghost parts = Seq::new(assets@.len(), |a: int| frames_model(assets@[a].1));
        let ghost all = item_rects@.map_values(|r: [u32; 4]| r@);
        let mut rects: Vec<(String, Vec<[u32; 4]>)> = Vec::new();
        let total = item_rects.len();
        let mut base: usize = 0;
        let mut a: usize = 0;
        proof {
            assert(Seq::new(0, |b: int| frames_model(assets@[b].1)) =~= Seq::<Seq<ImageModel>>::empty());
            assert(parts.take(0) =~= Seq::<Seq<ImageModel>>::empty());
            assert(Seq::new(0, |b: int| rects@[b].1@.map_values(|r: [u32; 4]| r@)) =~= Seq::<Seq<Seq<u32>>>::empty());
            assert(all.take(0) =~= Seq::<Seq<u32>>::empty());
        }
        while a < assets.len()
            invariant
                a <= assets@.len(),
                parts == Seq::new(assets@.len(), |b: int| frames_model(assets@[b].1)),
                all == item_rects@.map_values(|r: [u32; 4]| r@),
                total == item_rects@.len(),
                item_rects@.len() == joined(parts).len(),
                base == joined(parts.take(a as int)).len(),
                rects@.len() == a,
                forall|b: int|
                    0 <= b < a ==> (#[trigger] rects@[b]).0@ == assets@[b].0@ && rects@[b].1@.len()
                        == assets@[b].1@.len(),
                joined(Seq::new(rects@.len(), |b: int| rects@[b].1@.map_values(|r: [u32; 4]| r@)))
                    == all.take(base as int),
            decreases assets@.len() - a,
        {
            let len = assets[a].1.len();
            proof {
                assert(parts[a as int].len() == len);
                assert(parts.take(a + 1) =~= parts.take(a as int).push(parts[a as int]));
                lemma_joined_push(parts.take(a as int), parts[a as int]);
                lemma_joined_prefix_len(parts, a + 1);
            }
            let mut chunk: Vec<[u32; 4]> = Vec::new();
            let mut f: usize = 0;
            while f < len
                invariant
                    f <= len,
                    total == item_rects@.len(),
                    base + len <= item_rects@.len(),
                    chunk@.len() == f,
                    forall|g: int| 0 <= g < f ==> #[trigger] chunk@[g] == item_rects@[base + g],
                decreases len - f,
            {
                chunk.push(item_rects[base + f]);
                f = f + 1;
            }
            let ghost old_rects = rects@;
            let ghost piece = chunk@.map_values(|r: [u32; 4]| r@);
            rects.push((assets[a].0.clone(), chunk));
            proof {
                let old_parts = Seq::new(old_rects.len(), |b: int| old_rects[b].1@.map_values(|r: [u32; 4]| r@));
                let new_parts = Seq::new(rects@.len(), |b: int| rects@[b].1@.map_values(|r: [u32; 4]| r@));
                assert(new_parts =~= old_parts.push(piece));
                lemma_joined_push(old_parts, piece);
                assert(all.take(base + len) =~= all.take(base as int) + piece);
                assert forall|b: int| 0 <= b < a + 1 implies (#[trigger] rects@[b]).0@ == assets@[b].0@
                    && rects@[b].1@.len() == assets@[b].1@.len() by {
                    if b < a {
                        assert(rects@[b] == old_rects[b]);
                    }
                }
            }
            base = base + len;
            a = a + 1;
        }
        proof {
            assert(parts.take(assets@.len() as int) =~= parts);
            assert(all.take(base as int) =~= all);
        }
        rects
    }

    pub fn width(&self) -> (width: u32)
        requires
            self.image.wf(),
        ensures
            width == self.image@.width,
    {
        self.image.width()
    }

    pub fn height(&self) -> (height: u32)
        requires
            self.image.wf(),
        ensures
            height == self.image@.height,
    {
        self.image.height()
    }

    /// The rectangle drawn for `frame` of `asset`, wrapping the frame index
    /// around the asset's frames, mirrored by swapping its x bounds when
    /// `flip_x` is set; none for an unknown asset or one without frames.
    pub open spec fn rect_of(self, asset: Seq<char>, frame: int, flip_x: bool) -> Option<Seq<u32>> {
        if self.has_asset(asset) {
            let frames = self.rects@[self.asset_index(asset)].1@;
            if frames.len() == 0 {
                None
            } else {
                let r = frames[frame % (frames.len() as int)]@;
                Some(if flip_x { seq![r[2], r[1], r[0], r[3]] } else { r })
            }
        } else {
            None
        }
    }

    /// Whether some entry is named `asset`.
    pub open spec fn has_asset(self, asset: Seq<char>) -> bool {
        exists|a: int| 0 <= a < self.rects@.len() && #[trigger] self.rects@[a].0@ == asset
    }

    /// Where the entry named `asset` stands.
    pub open spec fn asset_index(self, asset: Seq<char>) -> int {
        choose|a: int| 0 <= a < self.rects@.len() && #[trigger] self.rects@[a].0@ == asset
    }

    /// The pixel rectangle for one frame; see `rect_of`. Names are unique in
    /// an atlas built from a set of assets.
    pub fn rect(&self, asset: &str, frame: usize, flip_x: bool) -> (found: Option<[u32; 4]>)
        requires
            forall|a: int, b: int|
                0 <= a < b < self.rects@.len() ==> (#[trigger] self.rects@[a]).0@ != (
                #[trigger] self.rects@[b]).0@,
        ensures
            match found {
                Some(r) => self.rect_of(asset@, frame as int, flip_x) == Some(r@),
                None => self.rect_of(asset@, frame as int, flip_x) is None,
            },
    {
        let mut a: usize = 0;
        while a < self.rects.len()
            invariant
                a <= self.rects@.len(),
                forall|b: int| 0 <= b < a ==> (#[trigger] self.rects@[b]).0@ != asset@,
                forall|x: int, y: int|
                    0 <= x < y < self.rects@.len() ==> (#[trigger] self.rects@[x]).0@ != (
                    #[trigger] self.rects@[y]).0@,
            decreases self.rects@.len() - a,
        {
            if same_text(self.rects[a].0.as_str(), asset) {
                proof {
                    let c = self.asset_index(asset@);
                    if c != a {
                        if c < a {
                            assert(self.rects@[c].0@ != asset@);
                        } else {
                            assert(self.rects@[a as int].0@ != self.rects@[c].0@);
                        }
                    }
                }
                let frames = &self.rects[a].1;
                if frames.len() == 0 {
                    return None;
                }
                let r = frames[frame % frames.len()];
                if flip_x {
                    let flipped = [r[2], r[1], r[0], r[3]];
                    assert(flipped@ =~= seq![r@[2], r@[1], r@[0], r@[3]]);
                    return Some(flipped);
                }
                return Some(r);
            }
            a = a + 1;
        }
        None
    }
}

proof fn lemma_frame_list_sides(assets: Seq<(String, Vec<Image>)>, k: int)
    requires
        0 <= k <= assets.len(),
    ensures
        forall|t: int|
            0 <= t < joined(frame_parts(assets).take(k)).len() ==> #[trigger] joined(
                frame_parts(assets).take(k),
            )[t].width <= u32::MAX && joined(frame_parts(assets).take(k))[t].height <= u32::MAX,
    decreases k,
{
    let parts = frame_parts(assets);
    if k == 0 {
        assert(parts.take(0) =~= Seq::<Seq<ImageModel>>::empty());
    } else {
        lemma_frame_list_sides(assets, k - 1);
        assert(parts.take(k) =~= parts.take(k - 1).push(parts[k - 1]));
        lemma_joined_push(parts.take(k - 1), parts[k - 1]);
        let before = joined(parts.take(k - 1));
        assert forall|t: int| 0 <= t < joined(parts.take(k)).len() implies #[trigger] joined(
            parts.take(k),
        )[t].width <= u32::MAX && joined(parts.take(k))[t].height <= u32::MAX by {
            if t >= before.len() {
                let f = t - before.len();
                lemma_image_sides(&assets[k - 1].1@[f]);
                assert(joined(parts.take(k))[t] == assets[k - 1].1@[f]@);
            } else {
                assert(joined(parts.take(k))[t] == before[t]);
            }
        }
    }
}

/// Each frame's rectangle in a built atlas holds exactly that frame's
/// pixels, so drawing the rectangle draws the frame.
pub proof fn law_each_rect_holds_its_frame(
    atlas: Atlas,
    assets: Seq<(String, Vec<Image>)>,
    order: Seq<usize>,
    width: nat,
    height: nat,
    placed: Seq<(int, int)>,
    max_dim: nat,
)
    requires
        plan_in_range(frame_sizes(frame_list(assets)), max_dim),
        frame_list(assets).len() > 0,
        is_packing_order(frame_sizes(frame_list(assets)), order),
        spec_plan(frame_sizes(frame_list(assets)), order, max_dim) == Ok::<
            (nat, nat, Seq<(int, int)>),
            Seq<char>,
        >((width, height, placed)),
        atlas.drawn_from(assets, order, width, height, placed),
    ensures
        forall|j: int, i: int, k: int, c: int|
            0 <= j < order.len() && 0 <= i < frame_list(assets)[order[j] as int].width && 0 <= k
                < frame_list(assets)[order[j] as int].height && 0 <= c < 4 ==> #[trigger] atlas.image@.byte(
                placed[j].0 + i,
                placed[j].1 + k,
                c,
            ) == frame_list(assets)[order[j] as int].byte(i, k, c),
{
    let frames = frame_list(assets);
    let sizes = frame_sizes(frames);
    let sorted = Seq::new(order.len(), |j: int| frames[order[j] as int]);
    lemma_plan_fits(sizes, order, max_dim);
    lemma_frame_list_sides(assets, assets.len() as int);
    assert(frame_parts(assets).take(assets.len() as int) =~= frame_parts(assets));
    assert forall|j: int| 0 <= j < sorted.len() implies #[trigger] reordered(sizes, order)[j].0
        == sorted[j].width && reordered(sizes, order)[j].1 == sorted[j].height by {
        assert(reordered(sizes, order)[j] == sizes[order[j] as int]);
        assert(frames[order[j] as int].width <= u32::MAX);
        assert(frames[order[j] as int].height <= u32::MAX);
    }
    assert forall|j: int, i: int, k: int, c: int|
        0 <= j < order.len() && 0 <= i < frames[order[j] as int].width && 0 <= k
            < frames[order[j] as int].height && 0 <= c < 4 implies #[trigger] atlas.image@.byte(
            placed[j].0 + i,
            placed[j].1 + k,
            c,
        ) == frames[order[j] as int].byte(i, k, c) by {
        let px = placed[j].0 + i;
        let py = placed[j].1 + k;
        assert(sorted[j] == frames[order[j] as int]);
        assert(covers(sorted, placed, j, px, py));
        lemma_apart_disjoint(sorted, placed, reordered(sizes, order), px, py);
        let chosen = choose|q: int| 0 <= q < sorted.len() && #[trigger] covers(sorted, placed, q, px, py);
        assert(chosen == j);
        assert(atlas.image@.byte(px, py, c) == atlas_byte(sorted, placed, px, py, c));
    }
}

/// A frame index past the end wraps around the asset's frames rather than
/// finding no rectangle.
pub proof fn law_atlas_frame_index_wraps(atlas: Atlas, asset: Seq<char>, frame: int, flip_x: bool, a: int)
    requires
        forall|x: int, y: int|
            0 <= x < y < atlas.rects@.len() ==> (#[trigger] atlas.rects@[x]).0@ != (
            #[trigger] atlas.rects@[y]).0@,
        0 <= frame,
        0 <= a < atlas.rects@.len(),
        atlas.rects@[a].0@ == asset,
    ensures
        atlas.rect_of(asset, frame + atlas.rects@[a].1@.len(), flip_x) == atlas.rect_of(
            asset,
            frame,
            flip_x,
        ),
{
    let c = atlas.asset_index(asset);
    assert(atlas.has_asset(asset));
    if c != a {
        if c < a {
            assert(atlas.rects@[c].0@ != atlas.rects@[a].0@);
        } else {
            assert(atlas.rects@[a].0@ != atlas.rects@[c].0@);
        }
    }
    let n = atlas.rects@[a].1@.len() as int;
    if n > 0 {
        assert((frame + n) % n == frame % n) by (nonlinear_arith)
            requires
                n > 0,
                frame >= 0,
        ;
    }
}

/// There is one packing order: taller first, then wider, and in their own
/// order when the sizes are equal.
pub proof fn law_packing_order_is_unique(sizes: Seq<(u32, u32)>, a: Seq<usize>, b: Seq<usize>)
    requires
        is_packing_order(sizes, a),
        is_packing_order(sizes, b),
    ensures
        a == b,
{
    let before = |x: int, y: int| packs_before(sizes, x, y);
    let n = sizes.len();
    assert(strict_total_on(before, n));
    assert(sorted_by(before, n, a));
    assert(sorted_by(before, n, b));
    lemma_sorted_order_unique(before, n, a, b);
}


/// Item `i` is where shelf packing gives up: the items before it are placed,
/// and it is wider than the atlas allows or its shelf would pass `max_dim`.
pub open spec fn refuses_item(sizes: Seq<(u32, u32)>, i: int, width: nat, max_dim: nat) -> bool {
    match shelf_state(sizes.take(i), width, max_dim) {
        None => false,
        Some((x, y, shelf_h, placed)) => {
            let (w, h) = sizes[i];
            let new_shelf = x + w + PADDING > width;
            let y2 = if new_shelf {
                y + shelf_h + PADDING
            } else {
                y
            };
            w + PADDING * 2 > width || y2 + h + PADDING > max_dim
        },
    }
}

proof fn lemma_refused_somewhere(sizes: Seq<(u32, u32)>, width: nat, max_dim: nat)
    requires
        shelf_state(sizes, width, max_dim) is None,
    ensures
        exists|i: int| 0 <= i < sizes.len() && #[trigger] refuses_item(sizes, i, width, max_dim),
    decreases sizes.len(),
{
    let n = sizes.len() as int;
    assert(n > 0);
    let before = sizes.drop_last();
    if shelf_state(before, width, max_dim) is None {
        lemma_refused_somewhere(before, width, max_dim);
        let i = choose|i: int| 0 <= i < before.len() && #[trigger] refuses_item(before, i, width, max_dim);
        assert(before.take(i) =~= sizes.take(i));
        assert(before[i] == sizes[i]);
        assert(refuses_item(sizes, i, width, max_dim));
    } else {
        assert(sizes.take(n - 1) =~= before);
        assert(refuses_item(sizes, n - 1, width, max_dim));
    }
}

/// Packing fails only where some item cannot be placed: one wider than the
/// atlas allows, or one whose shelf would pass `max_dim`; a packing whose
/// shelves all fit is never refused for its rounded height.
pub proof fn law_packing_fails_only_on_an_item(sizes: Seq<(u32, u32)>, width: nat, max_dim: nat)
    requires
        spec_try_pack(sizes, width, max_dim) is None,
    ensures
        exists|i: int| 0 <= i < sizes.len() && #[trigger] refuses_item(sizes, i, width, max_dim),
{
    lemma_refused_somewhere(sizes, width, max_dim);
}

} // verus!
