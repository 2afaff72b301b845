//! Cutting an imported frame out of its background.
//!
//! The background is whatever is connected to the frame's four corners: a
//! flood fill from them, through four-neighbours, that stops at any pixel too
//! far from the background colour to carry it on. Every pixel the fill reaches
//! gets a new alpha; a pixel of the background colour that the subject
//! encloses is never reached and keeps its own.
//!
//! How far a pixel is from the background colour, and the alpha that distance
//! earns, is arithmetic on fractions that the caller supplies as `classify`:
//! for a pixel it gives the new alpha and whether the fill goes on through it.

use vstd::prelude::*;
use vstd::set_lib::{lemma_int_range, lemma_len_subset, set_int_range};
use crate::raster::{offset_of, Image, ImageModel};

verus! {

pub type Pixel = (u8, u8, u8, u8);

pub open spec fn pixel_of(frame: ImageModel, x: int, y: int) -> Pixel {
    (frame.byte(x, y, 0), frame.byte(x, y, 1), frame.byte(x, y, 2), frame.byte(x, y, 3))
}

/// One of the four corner pixels of a `w` x `h` frame.
pub open spec fn is_corner(w: nat, h: nat, x: int, y: int) -> bool {
    (x == 0 || x == w - 1) && (y == 0 || y == h - 1)
}

/// Four-neighbours.
pub open spec fn adjacent(x1: int, y1: int, x2: int, y2: int) -> bool {
    ||| (x1 == x2 && (y1 - y2 == 1 || y2 - y1 == 1))
    ||| (y1 == y2 && (x1 - x2 == 1 || x2 - x1 == 1))
}

/// Whether the fill goes on through a pixel of this colour.
pub open spec fn spreads<F: Fn(Pixel) -> (u8, bool)>(classify: F, p: Pixel) -> bool {
    exists|r: (u8, bool)| call_ensures(classify, (p,), r) && r.1
}

/// The colours the fill goes on through.
pub open spec fn spread_rule<F: Fn(Pixel) -> (u8, bool)>(classify: F) -> spec_fn(Pixel) -> bool {
    |p: Pixel| spreads(classify, p)
}

/// Whether the fill reaches `(x, y)` within `k` steps from the corners,
/// going on only through colours that `goes_on` accepts.
pub open spec fn reached_within(
    goes_on: spec_fn(Pixel) -> bool,
    frame: ImageModel,
    x: int,
    y: int,
    k: nat,
) -> bool
    decreases k,
{
    &&& frame.in_bounds(x, y)
    &&& {
        ||| is_corner(frame.width, frame.height, x, y)
        ||| (k > 0 && reached_within(goes_on, frame, x, y, (k - 1) as nat))
        ||| (k > 0 && reached_within(goes_on, frame, x - 1, y, (k - 1) as nat) && goes_on(
            pixel_of(frame, x - 1, y),
        ))
        ||| (k > 0 && reached_within(goes_on, frame, x + 1, y, (k - 1) as nat) && goes_on(
            pixel_of(frame, x + 1, y),
        ))
        ||| (k > 0 && reached_within(goes_on, frame, x, y - 1, (k - 1) as nat) && goes_on(
            pixel_of(frame, x, y - 1),
        ))
        ||| (k > 0 && reached_within(goes_on, frame, x, y + 1, (k - 1) as nat) && goes_on(
            pixel_of(frame, x, y + 1),
        ))
    }
}

/// Whether the fill reaches `(x, y)` at all.
pub open spec fn reached<F: Fn(Pixel) -> (u8, bool)>(
    classify: F,
    frame: ImageModel,
    x: int,
    y: int,
) -> bool {
    exists|k: nat| reached_within(spread_rule(classify), frame, x, y, k)
}

/// `classify` always answers, and gives one answer for one colour.
pub open spec fn classifies<F: Fn(Pixel) -> (u8, bool)>(classify: F) -> bool {
    &&& forall|p: Pixel| call_requires(classify, (p,))
    &&& forall|p: Pixel, r1: (u8, bool), r2: (u8, bool)|
        call_ensures(classify, (p,), r1) && call_ensures(classify, (p,), r2) ==> r1 == r2
}

/// The four corners, as `(x, y)`.
pub fn corners(width: u32, height: u32) -> (out: [(u32, u32); 4])
    requires
        width >= 1,
        height >= 1,
    ensures
        out@ == seq![(0u32, 0u32), ((width - 1) as u32, 0u32), (0u32, (height - 1) as u32), ((width - 1) as u32, (height - 1) as u32)],
{
    [(0, 0), (width - 1, 0), (0, height - 1), (width - 1, height - 1)]
}

/// The four-neighbours of `(x, y)` inside a `width` x `height` frame: left,
/// right, above, below, as far as they exist.
pub open spec fn spec_neighbors(x: u32, y: u32, width: u32, height: u32) -> Seq<(u32, u32)> {
    (if x > 0 {
        seq![((x - 1) as u32, y)]
    } else {
        Seq::empty()
    }) + (if x + 1 < width {
        seq![((x + 1) as u32, y)]
    } else {
        Seq::empty()
    }) + (if y > 0 {
        seq![(x, (y - 1) as u32)]
    } else {
        Seq::empty()
    }) + (if y + 1 < height {
        seq![(x, (y + 1) as u32)]
    } else {
        Seq::empty()
    })
}

pub fn neighbors(x: u32, y: u32, width: u32, height: u32) -> (out: Vec<(u32, u32)>)
    requires
        x < u32::MAX,
        y < u32::MAX,
    ensures
        out@ == spec_neighbors(x, y, width, height),
{
    let mut result: Vec<(u32, u32)> = Vec::new();
    if x > 0 {
        result.push((x - 1, y));
    }
    if x + 1 < width {
        result.push((x + 1, y));
    }
    if y > 0 {
        result.push((x, y - 1));
    }
    if y + 1 < height {
        result.push((x, y + 1));
    }
    assert(result@ =~= spec_neighbors(x, y, width, height));
    result
}

proof fn lemma_neighbors(x: u32, y: u32, width: u32, height: u32)
    requires
        x < width,
        y < height,
    ensures
        forall|i: int|
            0 <= i < spec_neighbors(x, y, width, height).len() ==> {
                let n = #[trigger] spec_neighbors(x, y, width, height)[i];
                &&& n.0 < width
                &&& n.1 < height
                &&& adjacent(x as int, y as int, n.0 as int, n.1 as int)
            },
        forall|nx: int, ny: int|
            0 <= nx < width && 0 <= ny < height && adjacent(x as int, y as int, nx, ny) ==> exists|
                i: int,
            |
                0 <= i < spec_neighbors(x, y, width, height).len()
                    && #[trigger] spec_neighbors(x, y, width, height)[i] == (nx as u32, ny as u32),
{
    let a: Seq<(u32, u32)> = if x > 0 { seq![((x - 1) as u32, y)] } else { Seq::empty() };
    let b: Seq<(u32, u32)> = if x + 1 < width { seq![((x + 1) as u32, y)] } else { Seq::empty() };
    let c: Seq<(u32, u32)> = if y > 0 { seq![(x, (y - 1) as u32)] } else { Seq::empty() };
    let d: Seq<(u32, u32)> = if y + 1 < height { seq![(x, (y + 1) as u32)] } else { Seq::empty() };
    let all = spec_neighbors(x, y, width, height);
    assert(all == a + b + c + d);
    assert forall|nx: int, ny: int|
        0 <= nx < width && 0 <= ny < height && adjacent(x as int, y as int, nx, ny) implies exists|
            i: int,
        | 0 <= i < all.len() && #[trigger] all[i] == (nx as u32, ny as u32) by {
        if nx == x - 1 && ny == y {
            assert(all[0] == (nx as u32, ny as u32));
        } else if nx == x + 1 && ny == y {
            assert(all[a.len() as int] == (nx as u32, ny as u32));
        } else if nx == x && ny == y - 1 {
            assert(all[(a.len() + b.len()) as int] == (nx as u32, ny as u32));
        } else {
            assert(all[(a.len() + b.len() + c.len()) as int] == (nx as u32, ny as u32));
        }
    }
}

/// Whether the frame arrives with its background already cut out: all four
/// corners fully transparent.
pub fn is_already_cutout(frame: &Image) -> (cutout: bool)
    requires
        frame.wf(),
        frame@.width >= 1,
        frame@.height >= 1,
    ensures
        cutout == (forall|x: int, y: int|
            #![trigger frame@.byte(x, y, 3)]
            is_corner(frame@.width, frame@.height, x, y) ==> frame@.byte(x, y, 3) == 0),
{
    let width = frame.width();
    let height = frame.height();
    let points = corners(width, height);
    let mut i: usize = 0;
    while i < 4
        invariant
            i <= 4,
            frame.wf(),
            width == frame@.width,
            height == frame@.height,
            width >= 1,
            height >= 1,
            points@ == seq![(0u32, 0u32), ((width - 1) as u32, 0u32), (0u32, (height - 1) as u32), ((width - 1) as u32, (height - 1) as u32)],
            forall|j: int| 0 <= j < i ==> frame@.byte(points@[j].0 as int, points@[j].1 as int, 3)
                == 0,
        decreases 4 - i,
    {
        let (x, y) = points[i];
        let pixel = frame.get_pixel(x, y);
        if pixel[3] != 0 {
            assert(frame@.byte(x as int, y as int, 3) != 0);
            return false;
        }
        i = i + 1;
    }
    assert forall|x: int, y: int|
        #![trigger frame@.byte(x, y, 3)]
        is_corner(frame@.width, frame@.height, x, y) implies frame@.byte(x, y, 3) == 0 by {
        if x == 0 && y == 0 {
            assert(points@[0] == (0u32, 0u32));
        } else if y == 0 {
            assert(points@[1] == ((width - 1) as u32, 0u32));
        } else if x == 0 {
            assert(points@[2] == (0u32, (height - 1) as u32));
        } else {
            assert(points@[3] == ((width - 1) as u32, (height - 1) as u32));
        }
    }
    true
}

/// Where pixel `p` sits among the frame's pixels.
pub open spec fn key(width: nat, p: (u32, u32)) -> int {
    p.1 * width + p.0
}

proof fn lemma_key_in_bounds(width: nat, height: nat, p: (u32, u32))
    requires
        p.0 < width,
        p.1 < height,
    ensures
        0 <= key(width, p) < width * height,
{
    assert(p.1 * width + p.0 < width * height) by (nonlinear_arith)
        requires
            p.0 < width,
            p.1 < height,
    ;
    assert(0 <= p.1 * width) by (nonlinear_arith);
}

proof fn lemma_key_injective(width: nat, p: (u32, u32), q: (u32, u32))
    requires
        p.0 < width,
        q.0 < width,
        key(width, p) == key(width, q),
    ensures
        p == q,
{
    if p.1 < q.1 {
        assert(p.1 * width + p.0 < q.1 * width + q.0) by (nonlinear_arith)
            requires
                p.0 < width,
                p.1 < q.1,
        ;
    } else if q.1 < p.1 {
        assert(q.1 * width + q.0 < p.1 * width + p.0) by (nonlinear_arith)
            requires
                q.0 < width,
                q.1 < p.1,
        ;
    }
}

/// The state of the fill: `queue` holds every pixel found so far, in the
/// order found, and the first `head` of them have been dealt with.
pub open spec fn fill_state<F: Fn(Pixel) -> (u8, bool)>(
    classify: F,
    frame: ImageModel,
    out: ImageModel,
    visited: Seq<bool>,
    queue: Seq<(u32, u32)>,
    head: int,
) -> bool {
    let w = frame.width;
    let h = frame.height;
    &&& w <= u32::MAX
    &&& h <= u32::MAX
    &&& visited.len() == w * h
    &&& 0 <= head <= queue.len()
    &&& out.wf()
    &&& out.width == w
    &&& out.height == h
    &&& forall|i: int|
        0 <= i < queue.len() ==> {
            &&& (#[trigger] queue[i]).0 < w
            &&& queue[i].1 < h
            &&& visited[key(w, queue[i])]
            &&& reached(classify, frame, queue[i].0 as int, queue[i].1 as int)
        }
    &&& forall|k: int|
        0 <= k < w * h && #[trigger] visited[k] ==> exists|i: int|
            0 <= i < queue.len() && key(w, #[trigger] queue[i]) == k
    &&& forall|i: int, j: int|
        0 <= i < j < queue.len() ==> key(w, #[trigger] queue[i]) != key(w, #[trigger] queue[j])
    &&& forall|i: int|
        0 <= i < head ==> {
            let p = #[trigger] queue[i];
            &&& exists|s: bool|
                call_ensures(
                    classify,
                    (pixel_of(frame, p.0 as int, p.1 as int),),
                    (out.byte(p.0 as int, p.1 as int, 3), s),
                )
            &&& spreads(classify, pixel_of(frame, p.0 as int, p.1 as int)) ==> forall|
                nx: int,
                ny: int,
            |
                0 <= nx < w && 0 <= ny < h && adjacent(p.0 as int, p.1 as int, nx, ny)
                    ==> #[trigger] visited[key(w, (nx as u32, ny as u32))]
        }
    &&& forall|x: int, y: int|
        #![trigger out.byte(x, y, 3)]
        frame.in_bounds(x, y) && !(exists|i: int|
            0 <= i < head && #[trigger] queue[i] == (x as u32, y as u32)) ==> out.byte(x, y, 3)
            == frame.byte(x, y, 3)
    &&& forall|x: int, y: int, c: int|
        #![trigger out.byte(x, y, c)]
        frame.in_bounds(x, y) && 0 <= c < 3 ==> out.byte(x, y, c) == frame.byte(x, y, c)
}

proof fn lemma_queue_bound<F: Fn(Pixel) -> (u8, bool)>(
    classify: F,
    frame: ImageModel,
    out: ImageModel,
    visited: Seq<bool>,
    queue: Seq<(u32, u32)>,
    head: int,
)
    requires
        fill_state(classify, frame, out, visited, queue, head),
    ensures
        queue.len() <= frame.width * frame.height,
{
    let w = frame.width;
    let keys = queue.map_values(|p: (u32, u32)| key(w, p));
    assert(keys.no_duplicates()) by {
        assert forall|i: int, j: int| 0 <= i < keys.len() && 0 <= j < keys.len() && i != j implies keys[i]
            != keys[j] by {
            if i < j {
                assert(key(w, queue[i]) != key(w, queue[j]));
            } else {
                assert(key(w, queue[j]) != key(w, queue[i]));
            }
        }
    }
    keys.unique_seq_to_set();
    let range = set_int_range(0, (w * frame.height) as int);
    lemma_int_range(0, (w * frame.height) as int);
    assert forall|k: int| keys.to_set().contains(k) implies range.contains(k) by {
        let i = choose|i: int| 0 <= i < keys.len() && keys[i] == k;
        lemma_key_in_bounds(w, frame.height, queue[i]);
    }
    lemma_len_subset(keys.to_set(), range);
}

/// Everything the fill can reach it has found, once nothing is left to deal
/// with.
proof fn lemma_fill_complete<F: Fn(Pixel) -> (u8, bool)>(
    classify: F,
    frame: ImageModel,
    out: ImageModel,
    visited: Seq<bool>,
    queue: Seq<(u32, u32)>,
    x: int,
    y: int,
    k: nat,
)
    requires
        fill_state(classify, frame, out, visited, queue, queue.len() as int),
        forall|cx: int, cy: int|
            frame.in_bounds(cx, cy) && is_corner(frame.width, frame.height, cx, cy)
                ==> #[trigger] visited[key(frame.width, (cx as u32, cy as u32))],
        reached_within(spread_rule(classify), frame, x, y, k),
    ensures
        visited[key(frame.width, (x as u32, y as u32))],
    decreases k,
{
    let w = frame.width;
    let g = spread_rule(classify);
    if is_corner(frame.width, frame.height, x, y) {
    } else if reached_within(g, frame, x, y, (k - 1) as nat) {
        lemma_fill_complete(classify, frame, out, visited, queue, x, y, (k - 1) as nat);
    } else {
        let (qx, qy) = if reached_within(g, frame, x - 1, y, (k - 1) as nat) && g(pixel_of(frame, x - 1, y)) {
            (x - 1, y)
        } else if reached_within(g, frame, x + 1, y, (k - 1) as nat) && g(pixel_of(frame, x + 1, y)) {
            (x + 1, y)
        } else if reached_within(g, frame, x, y - 1, (k - 1) as nat) && g(pixel_of(frame, x, y - 1)) {
            (x, y - 1)
        } else {
            (x, y + 1)
        };
        assert(reached_within(g, frame, qx, qy, (k - 1) as nat) && g(pixel_of(frame, qx, qy)));
        assert(frame.in_bounds(qx, qy));
        lemma_fill_complete(classify, frame, out, visited, queue, qx, qy, (k - 1) as nat);
        let q = (qx as u32, qy as u32);
        lemma_key_in_bounds(w, frame.height, q);
        let i = choose|i: int| 0 <= i < queue.len() && key(w, #[trigger] queue[i]) == key(w, q);
        lemma_key_injective(w, queue[i], q);
        assert(queue[i] == q);
        assert(spreads(classify, pixel_of(frame, qx, qy)));
        assert(adjacent(q.0 as int, q.1 as int, x, y));
    }
}

proof fn lemma_pushed<F: Fn(Pixel) -> (u8, bool)>(
    classify: F,
    frame: ImageModel,
    out: ImageModel,
    vbefore: Seq<bool>,
    visited: Seq<bool>,
    before: Seq<(u32, u32)>,
    queue: Seq<(u32, u32)>,
    head: int,
    next: (u32, u32),
)
    requires
        fill_state(classify, frame, out, vbefore, before, head),
        0 <= head < before.len(),
        spreads(classify, pixel_of(frame, before[head].0 as int, before[head].1 as int)),
        next.0 < frame.width,
        next.1 < frame.height,
        adjacent(before[head].0 as int, before[head].1 as int, next.0 as int, next.1 as int),
        0 <= key(frame.width, next) < frame.width * frame.height,
        !vbefore[key(frame.width, next)],
        visited == vbefore.update(key(frame.width, next), true),
        queue == before.push(next),
    ensures
        fill_state(classify, frame, out, visited, queue, head),
{
    let w = frame.width;
    let p = before[head];
    let k = choose|k: nat| reached_within(spread_rule(classify), frame, p.0 as int, p.1 as int, k);
    assert(reached_within(spread_rule(classify), frame, p.0 as int, p.1 as int, k));
    assert(reached_within(spread_rule(classify), frame, p.0 as int, p.1 as int, ((k + 1) - 1) as nat));
    assert(spread_rule(classify)(pixel_of(frame, p.0 as int, p.1 as int)));
    assert(frame.in_bounds(next.0 as int, next.1 as int));
    assert(reached_within(spread_rule(classify), frame, next.0 as int, next.1 as int, k + 1));
    assert(reached(classify, frame, next.0 as int, next.1 as int));
    assert forall|i: int| 0 <= i < queue.len() implies {
        &&& (#[trigger] queue[i]).0 < w
        &&& queue[i].1 < frame.height
        &&& visited[key(w, queue[i])]
        &&& reached(classify, frame, queue[i].0 as int, queue[i].1 as int)
    } by {
        if i < before.len() {
            assert(queue[i] == before[i]);
            lemma_key_in_bounds(w, frame.height, before[i]);
        }
    }
    assert forall|kk: int|
        0 <= kk < w * frame.height && #[trigger] visited[kk] implies exists|i: int|
            0 <= i < queue.len() && key(w, #[trigger] queue[i]) == kk by {
        if kk == key(w, next) {
            assert(queue[before.len() as int] == next);
        } else {
            assert(vbefore[kk]);
            let i = choose|i: int| 0 <= i < before.len() && key(w, #[trigger] before[i]) == kk;
            assert(queue[i] == before[i]);
        }
    }
    assert forall|i: int, j: int|
        0 <= i < j < queue.len() implies key(w, #[trigger] queue[i]) != key(w, #[trigger] queue[j]) by {
        if j == before.len() {
            assert(vbefore[key(w, before[i])]);
        } else {
            assert(queue[i] == before[i] && queue[j] == before[j]);
        }
    }
    assert forall|i: int| 0 <= i < head implies {
        let q = #[trigger] queue[i];
        &&& exists|s: bool|
            call_ensures(
                classify,
                (pixel_of(frame, q.0 as int, q.1 as int),),
                (out.byte(q.0 as int, q.1 as int, 3), s),
            )
        &&& spreads(classify, pixel_of(frame, q.0 as int, q.1 as int)) ==> forall|nx: int, ny: int|
            0 <= nx < w && 0 <= ny < frame.height && adjacent(q.0 as int, q.1 as int, nx, ny)
                ==> #[trigger] visited[key(w, (nx as u32, ny as u32))]
    } by {
        assert(queue[i] == before[i]);
        let q = before[i];
        if spreads(classify, pixel_of(frame, q.0 as int, q.1 as int)) {
            assert forall|nx: int, ny: int|
                0 <= nx < w && 0 <= ny < frame.height && adjacent(q.0 as int, q.1 as int, nx, ny)
                    implies #[trigger] visited[key(w, (nx as u32, ny as u32))] by {
                lemma_key_in_bounds(w, frame.height, (nx as u32, ny as u32));
                assert(vbefore[key(w, (nx as u32, ny as u32))]);
            }
        }
    }
    assert forall|x: int, y: int|
        #![trigger out.byte(x, y, 3)]
        frame.in_bounds(x, y) && !(exists|i: int| 0 <= i < head && #[trigger] queue[i] == (x as u32, y as u32))
            implies out.byte(x, y, 3) == frame.byte(x, y, 3) by {
        if exists|i: int| 0 <= i < head && #[trigger] before[i] == (x as u32, y as u32) {
            let i = choose|i: int| 0 <= i < head && #[trigger] before[i] == (x as u32, y as u32);
            assert(queue[i] == before[i]);
        }
    }
}

proof fn lemma_processed<F: Fn(Pixel) -> (u8, bool)>(
    classify: F,
    frame: ImageModel,
    out_before: ImageModel,
    out: ImageModel,
    visited: Seq<bool>,
    queue: Seq<(u32, u32)>,
    head: int,
    alpha: u8,
    goes_on: bool,
)
    requires
        fill_state(classify, frame, out_before, visited, queue, head),
        0 <= head < queue.len(),
        call_ensures(
            classify,
            (pixel_of(frame, queue[head].0 as int, queue[head].1 as int),),
            (alpha, goes_on),
        ),
        spreads(classify, pixel_of(frame, queue[head].0 as int, queue[head].1 as int)) ==> forall|
            nx: int,
            ny: int,
        |
            0 <= nx < frame.width && 0 <= ny < frame.height && adjacent(
                queue[head].0 as int,
                queue[head].1 as int,
                nx,
                ny,
            ) ==> #[trigger] visited[key(frame.width, (nx as u32, ny as u32))],
        out.wf(),
        out.width == out_before.width,
        out.height == out_before.height,
        out.pixels == out_before.pixels.update(
            offset_of(out_before.width, queue[head].0 as int, queue[head].1 as int),
            frame.byte(queue[head].0 as int, queue[head].1 as int, 0),
        ).update(
            offset_of(out_before.width, queue[head].0 as int, queue[head].1 as int) + 1,
            frame.byte(queue[head].0 as int, queue[head].1 as int, 1),
        ).update(
            offset_of(out_before.width, queue[head].0 as int, queue[head].1 as int) + 2,
            frame.byte(queue[head].0 as int, queue[head].1 as int, 2),
        ).update(offset_of(out_before.width, queue[head].0 as int, queue[head].1 as int) + 3, alpha),
    ensures
        fill_state(classify, frame, out, visited, queue, head + 1),
{
    let w = frame.width;
    let h = frame.height;
    let p = queue[head];
    let o = offset_of(w, p.0 as int, p.1 as int);
    crate::raster::lemma_offset_in_bounds(w, h, p.0 as int, p.1 as int);
    assert forall|x: int, y: int, c: int|
        frame.in_bounds(x, y) && 0 <= c < 4 && (x != p.0 || y != p.1) implies #[trigger] out.byte(x, y, c)
            == out_before.byte(x, y, c) by {
        crate::raster::lemma_offsets_distinct(w, x, y, p.0 as int, p.1 as int);
        crate::raster::lemma_offset_in_bounds(w, h, x, y);
    }
    assert(out.byte(p.0 as int, p.1 as int, 3) == alpha);
    assert forall|x: int, y: int, c: int|
        #![trigger out.byte(x, y, c)]
        frame.in_bounds(x, y) && 0 <= c < 3 implies out.byte(x, y, c) == frame.byte(x, y, c) by {
        if x == p.0 && y == p.1 {
        } else {
            assert(out.byte(x, y, c) == out_before.byte(x, y, c));
        }
    }
    assert forall|i: int| 0 <= i < head + 1 implies {
        let q = #[trigger] queue[i];
        &&& exists|s: bool|
            call_ensures(
                classify,
                (pixel_of(frame, q.0 as int, q.1 as int),),
                (out.byte(q.0 as int, q.1 as int, 3), s),
            )
        &&& spreads(classify, pixel_of(frame, q.0 as int, q.1 as int)) ==> forall|nx: int, ny: int|
            0 <= nx < w && 0 <= ny < h && adjacent(q.0 as int, q.1 as int, nx, ny)
                ==> #[trigger] visited[key(w, (nx as u32, ny as u32))]
    } by {
        let q = queue[i];
        if i < head {
            assert(key(w, q) != key(w, p));
            assert(q != p);
            assert(out.byte(q.0 as int, q.1 as int, 3) == out_before.byte(q.0 as int, q.1 as int, 3));
        } else {
            assert(call_ensures(
                classify,
                (pixel_of(frame, q.0 as int, q.1 as int),),
                (out.byte(q.0 as int, q.1 as int, 3), goes_on),
            ));
        }
    }
    assert forall|x: int, y: int|
        #![trigger out.byte(x, y, 3)]
        frame.in_bounds(x, y) && !(exists|i: int| 0 <= i < head + 1 && #[trigger] queue[i] == (x as u32, y as u32))
            implies out.byte(x, y, 3) == frame.byte(x, y, 3) by {
        assert(queue[head] == p);
        if x == p.0 && y == p.1 {
            assert(queue[head] == (x as u32, y as u32));
        } else {
            assert(out.byte(x, y, 3) == out_before.byte(x, y, 3));
        }
    }
    assert(w <= u32::MAX && h <= u32::MAX);
    assert(visited.len() == w * h);
    assert(out.wf() && out.width == w && out.height == h);
    assert(forall|i: int|
        0 <= i < queue.len() ==> {
            &&& (#[trigger] queue[i]).0 < w
            &&& queue[i].1 < h
            &&& visited[key(w, queue[i])]
            &&& reached(classify, frame, queue[i].0 as int, queue[i].1 as int)
        });
    assert(forall|k: int|
        0 <= k < w * h && #[trigger] visited[k] ==> exists|i: int|
            0 <= i < queue.len() && key(w, #[trigger] queue[i]) == k);
    assert(forall|i: int, j: int|
        0 <= i < j < queue.len() ==> key(w, #[trigger] queue[i]) != key(w, #[trigger] queue[j]));
    assert(forall|i: int|
        0 <= i < head + 1 ==> {
            let p = #[trigger] queue[i];
            &&& exists|s: bool|
                call_ensures(
                    classify,
                    (pixel_of(frame, p.0 as int, p.1 as int),),
                    (out.byte(p.0 as int, p.1 as int, 3), s),
                )
            &&& spreads(classify, pixel_of(frame, p.0 as int, p.1 as int)) ==> forall|
                nx: int,
                ny: int,
            |
                0 <= nx < w && 0 <= ny < h && adjacent(p.0 as int, p.1 as int, nx, ny)
                    ==> #[trigger] visited[key(w, (nx as u32, ny as u32))]
        });
    assert(forall|x: int, y: int|
        #![trigger out.byte(x, y, 3)]
        frame.in_bounds(x, y) && !(exists|i: int|
            0 <= i < head + 1 && #[trigger] queue[i] == (x as u32, y as u32)) ==> out.byte(x, y, 3)
            == frame.byte(x, y, 3));
    assert(forall|x: int, y: int, c: int|
        #![trigger out.byte(x, y, c)]
        frame.in_bounds(x, y) && 0 <= c < 3 ==> out.byte(x, y, c) == frame.byte(x, y, c));
}

/// Cuts `frame` out of its background: every pixel the fill from the corners
/// reaches gets the alpha `classify` gives its colour, and the fill goes on
/// through a pixel only where `classify` says so. Colour channels are never
/// changed, and a pixel the fill does not reach keeps its alpha.
pub fn remove_background<F: Fn(Pixel) -> (u8, bool)>(frame: &Image, classify: &F) -> (out: Image)
    requires
        frame.wf(),
        frame@.width >= 1,
        frame@.height >= 1,
        frame@.width * frame@.height <= u32::MAX,
        classifies(*classify),
    ensures
        out.wf(),
        out@.width == frame@.width,
        out@.height == frame@.height,
        forall|x: int, y: int, c: int|
            #![trigger out@.byte(x, y, c)]
            frame@.in_bounds(x, y) && 0 <= c < 3 ==> out@.byte(x, y, c) == frame@.byte(x, y, c),
        forall|x: int, y: int|
            #![trigger reached(*classify, frame@, x, y)]
            frame@.in_bounds(x, y) && reached(*classify, frame@, x, y) ==> exists|s: bool|
                call_ensures(*classify, (pixel_of(frame@, x, y),), (out@.byte(x, y, 3), s)),
        forall|x: int, y: int|
            #![trigger out@.byte(x, y, 3)]
            frame@.in_bounds(x, y) && !reached(*classify, frame@, x, y) ==> out@.byte(x, y, 3)
                == frame@.byte(x, y, 3),
{
    let ghost fm = frame@;
    let width = frame.width();
    let height = frame.height();
    let mut output = frame.duplicate();
    let total = (width * height) as usize;
    let mut visited: Vec<bool> = Vec::new();
    let mut i: usize = 0;
    while i < total
        invariant
            i <= total,
            visited@.len() == i,
            forall|k: int| 0 <= k < i ==> !visited@[k],
        decreases total - i,
    {
        visited.push(false);
        i = i + 1;
    }
    let mut queue: Vec<(u32, u32)> = Vec::new();
    assert(fill_state(*classify, fm, output@, visited@, queue@, 0));
    let points = corners(width, height);
    let mut c: usize = 0;
    while c < 4
        invariant
            fm == frame@,
            frame.wf(),
            width == fm.width,
            height == fm.height,
            width >= 1,
            height >= 1,
            width * height <= u32::MAX,
            total == width * height,
            classifies(*classify),
            c <= 4,
            points@ == seq![(0u32, 0u32), ((width - 1) as u32, 0u32), (0u32, (height - 1) as u32), ((width - 1) as u32, (height - 1) as u32)],
            fill_state(*classify, fm, output@, visited@, queue@, 0),
            forall|j: int| 0 <= j < c ==> #[trigger] visited@[key(fm.width, points@[j])],
        decreases 4 - c,
    {
        let point = points[c];
        let (x, y) = point;
        proof {
            lemma_key_in_bounds(fm.width, fm.height, point);
        }
        let index = (y * width + x) as usize;
        if !visited[index] {
            let ghost before = queue@;
            let ghost vbefore = visited@;
            visited.set(index, true);
            queue.push(point);
            proof {
                assert(reached_within(spread_rule(*classify), fm, x as int, y as int, 0));
                assert forall|k: int|
                    0 <= k < fm.width * fm.height && #[trigger] visited@[k] implies exists|i: int|
                        0 <= i < queue@.len() && key(fm.width, #[trigger] queue@[i]) == k by {
                    if k == index {
                        assert(queue@[before.len() as int] == point);
                    } else {
                        assert(vbefore[k]);
                        let i = choose|i: int| 0 <= i < before.len() && key(fm.width, #[trigger] before[i]) == k;
                        assert(queue@[i] == before[i]);
                    }
                }
                assert forall|i: int, j: int|
                    0 <= i < j < queue@.len() implies key(fm.width, #[trigger] queue@[i]) != key(
                        fm.width,
                        #[trigger] queue@[j],
                    ) by {
                    if j == before.len() {
                        assert(vbefore[key(fm.width, before[i])]);
                    } else {
                        assert(queue@[i] == before[i] && queue@[j] == before[j]);
                    }
                }
                assert forall|i: int| 0 <= i < queue@.len() implies {
                    &&& (#[trigger] queue@[i]).0 < fm.width
                    &&& queue@[i].1 < fm.height
                    &&& visited@[key(fm.width, queue@[i])]
                    &&& reached(*classify, fm, queue@[i].0 as int, queue@[i].1 as int)
                } by {
                    if i < before.len() {
                        assert(queue@[i] == before[i]);
                        lemma_key_in_bounds(fm.width, fm.height, before[i]);
                    }
                }
                assert forall|j: int| 0 <= j < c + 1 implies #[trigger] visited@[key(fm.width, points@[j])] by {
                    lemma_key_in_bounds(fm.width, fm.height, points@[j]);
                    if j < c {
                        assert(vbefore[key(fm.width, points@[j])]);
                    }
                }
            }
        }
        c = c + 1;
    }
    proof {
        assert forall|cx: int, cy: int|
            fm.in_bounds(cx, cy) && is_corner(fm.width, fm.height, cx, cy)
                implies #[trigger] visited@[key(fm.width, (cx as u32, cy as u32))] by {
            if cx == 0 && cy == 0 {
                assert(points@[0] == (cx as u32, cy as u32));
            } else if cy == 0 {
                assert(points@[1] == (cx as u32, cy as u32));
            } else if cx == 0 {
                assert(points@[2] == (cx as u32, cy as u32));
            } else {
                assert(points@[3] == (cx as u32, cy as u32));
            }
        }
    }
    let mut head: usize = 0;
    while head < queue.len()
        invariant
            fm == frame@,
            frame.wf(),
            width == fm.width,
            height == fm.height,
            width >= 1,
            height >= 1,
            width * height <= u32::MAX,
            classifies(*classify),
            fill_state(*classify, fm, output@, visited@, queue@, head as int),
            forall|cx: int, cy: int|
                fm.in_bounds(cx, cy) && is_corner(fm.width, fm.height, cx, cy)
                    ==> #[trigger] visited@[key(fm.width, (cx as u32, cy as u32))],
        decreases fm.width * fm.height - head,
    {
        proof {
            lemma_queue_bound(*classify, fm, output@, visited@, queue@, head as int);
        }
        let point = queue[head];
        let (x, y) = point;
        let pixel = frame.get_pixel(x, y);
        let colour = (pixel[0], pixel[1], pixel[2], pixel[3]);
        assert(colour == pixel_of(fm, x as int, y as int));
        let (alpha, goes_on) = classify(colour);
        if goes_on {
            let around = neighbors(x, y, width, height);
            proof {
                lemma_neighbors(x, y, width, height);
            }
            let mut n: usize = 0;
            while n < around.len()
                invariant
                    fm == frame@,
                    width == fm.width,
                    height == fm.height,
                    width * height <= u32::MAX,
                    head < queue@.len(),
                    queue@[head as int] == point,
                    point == (x, y),
                    x < width,
                    y < height,
                    around@ == spec_neighbors(x, y, width, height),
                    n <= around@.len(),
                    spreads(*classify, pixel_of(fm, x as int, y as int)),
                    fill_state(*classify, fm, output@, visited@, queue@, head as int),
                    forall|j: int| 0 <= j < n ==> #[trigger] visited@[key(fm.width, around@[j])],
                    forall|cx: int, cy: int|
                        fm.in_bounds(cx, cy) && is_corner(fm.width, fm.height, cx, cy)
                            ==> #[trigger] visited@[key(fm.width, (cx as u32, cy as u32))],
                decreases around@.len() - n,
            {
                let next = around[n];
                let (nx, ny) = next;
                proof {
                    assert(around@[n as int] == next);
                    lemma_key_in_bounds(fm.width, fm.height, next);
                }
                let index = (ny * width + nx) as usize;
                if !visited[index] {
                    let ghost before = queue@;
                    let ghost vbefore = visited@;
                    visited.set(index, true);
                    queue.push(next);
                    proof {
                        lemma_pushed(*classify, fm, output@, vbefore, visited@, before, queue@, head as int, next);
                        assert(queue@[head as int] == before[head as int]);
                        assert forall|cx: int, cy: int|
                            fm.in_bounds(cx, cy) && is_corner(fm.width, fm.height, cx, cy)
                                implies #[trigger] visited@[key(fm.width, (cx as u32, cy as u32))] by {
                            lemma_key_in_bounds(fm.width, fm.height, (cx as u32, cy as u32));
                            assert(vbefore[key(fm.width, (cx as u32, cy as u32))]);
                        }
                        assert forall|j: int| 0 <= j < n + 1 implies #[trigger] visited@[key(fm.width, around@[j])] by {
                            if j < n {
                                lemma_key_in_bounds(fm.width, fm.height, around@[j]);
                                assert(vbefore[key(fm.width, around@[j])]);
                            }
                        }
                    }
                }
                n = n + 1;
            }
            proof {
                assert forall|nx: int, ny: int|
                    0 <= nx < fm.width && 0 <= ny < fm.height && adjacent(x as int, y as int, nx, ny)
                        implies #[trigger] visited@[key(fm.width, (nx as u32, ny as u32))] by {
                    let j = choose|j: int| 0 <= j < around@.len() && #[trigger] around@[j] == (nx as u32, ny as u32);
                    assert(visited@[key(fm.width, around@[j])]);
                }
            }
        } else {
            proof {
                assert(!spreads(*classify, pixel_of(fm, x as int, y as int))) by {
                    if spreads(*classify, pixel_of(fm, x as int, y as int)) {
                        let r = choose|r: (u8, bool)| call_ensures(*classify, (pixel_of(fm, x as int, y as int),), r) && r.1;
                        assert(r == (alpha, goes_on));
                    }
                }
            }
        }
        let ghost out_before = output@;
        output.put_pixel(x, y, [pixel[0], pixel[1], pixel[2], alpha]);
        proof {
            lemma_processed(*classify, fm, out_before, output@, visited@, queue@, head as int, alpha, goes_on);
        }
        head = head + 1;
    }
    proof {
        assert forall|x: int, y: int|
            #![trigger reached(*classify, frame@, x, y)]
            frame@.in_bounds(x, y) && reached(*classify, frame@, x, y) implies exists|s: bool|
                call_ensures(*classify, (pixel_of(frame@, x, y),), (output@.byte(x, y, 3), s)) by {
            let p = (x as u32, y as u32);
            lemma_key_in_bounds(fm.width, fm.height, p);
            let k = choose|k: nat| reached_within(spread_rule(*classify), fm, x, y, k);
            lemma_fill_complete(*classify, fm, output@, visited@, queue@, x, y, k);
            let i = choose|i: int| 0 <= i < queue@.len() && key(fm.width, #[trigger] queue@[i]) == key(fm.width, p);
            lemma_key_injective(fm.width, queue@[i], p);
            assert(queue@[i] == p);
        }
        assert forall|x: int, y: int|
            #![trigger output@.byte(x, y, 3)]
            frame@.in_bounds(x, y) && !reached(*classify, frame@, x, y) implies output@.byte(x, y, 3)
                == frame@.byte(x, y, 3) by {
            let p = (x as u32, y as u32);
            if exists|i: int| 0 <= i < queue@.len() && #[trigger] queue@[i] == p {
                let i = choose|i: int| 0 <= i < queue@.len() && #[trigger] queue@[i] == p;
                assert(reached(*classify, fm, queue@[i].0 as int, queue@[i].1 as int));
            }
        }
    }
    output
}

} // verus!
