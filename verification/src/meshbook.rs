//! Voxel meshes for every frame of every loaded asset, in one buffer pair.
//!
//! The 3D counterpart of the atlas: one vertex and one index buffer built when
//! the asset set changes, and a range per frame drawn out of them.

use crate::raster::{Image, ImageModel};
use crate::text::{
    lemma_text_less_irreflexive, lemma_text_less_transitive, same_text, sorted_positions,
    text_less,
};
use crate::voxel::{
    box_hi, box_lo, build as build_mesh, depth_of, law_indices_address_the_vertices,
    lemma_fit_within_frame, mesh_of,
    quad_index, spec_corner, spec_fit, spec_normal, GridModel, VoxelOptions, VoxelVertex,
};
use vstd::prelude::*;

verus! {

/// Ceiling on the geometry one book holds.
///
/// The asset set is user-supplied, so an import of a hundred wide states must
/// degrade visibly (frames left out and counted) rather than exhaust memory.
pub const MAX_VERTICES: usize = 4_000_000;

/// Where one frame's mesh lives in the shared buffers.
#[derive(Debug, Clone, Copy, PartialEq, Eq)]
pub struct MeshRange {
    pub first_index: u32,
    pub index_count: u32,
    /// The voxel grid this frame was built on: `[cols, rows, depth]`.
    pub extent: [u32; 3],
}

/// A frame the voxel builder takes: well formed, not empty, and small enough
/// that its mesh indices fit in `u32`.
pub open spec fn voxel_ready(frame: ImageModel) -> bool {
    &&& frame.wf()
    &&& frame.width > 0
    &&& frame.height > 0
    &&& frame.width * frame.height * 24 + 4 <= u32::MAX
}

/// How many quads the mesh of `frame` has.
pub open spec fn frame_quads(frame: ImageModel, options: VoxelOptions) -> nat {
    spec_fit(frame, options.max_width as nat).quads().len()
}

/// Vertices, indices and skipped frames after laying `frames` out in order:
/// a frame whose vertices would pass the ceiling is skipped, the rest are
/// appended.
pub open spec fn layout(frames: Seq<ImageModel>, options: VoxelOptions) -> (nat, nat, nat)
    decreases frames.len(),
{
    if frames.len() == 0 {
        (0, 0, 0)
    } else {
        let (v, i, s) = layout(frames.drop_last(), options);
        let q = frame_quads(frames.last(), options);
        if v + 4 * q > MAX_VERTICES {
            (v, i, s + 1)
        } else {
            (v + 4 * q, i + 6 * q, s)
        }
    }
}

/// Whether `frame`, laid out after `before`, still fits under the ceiling.
pub open spec fn fits_after(before: Seq<ImageModel>, frame: ImageModel, options: VoxelOptions) -> bool {
    layout(before, options).0 + 4 * frame_quads(frame, options) <= MAX_VERTICES
}

/// Whether `range` is where `frame` lands when laid out after `before`: its
/// own span of the index buffer, or an empty span at zero when it did not fit.
/// Either way it carries the frame's voxel grid.
pub open spec fn lands_at(
    range: MeshRange,
    before: Seq<ImageModel>,
    frame: ImageModel,
    options: VoxelOptions,
) -> bool {
    let g = spec_fit(frame, options.max_width as nat);
    &&& range.extent@ == seq![g.cols as u32, g.rows as u32, depth_of(options) as u32]
    &&& if fits_after(before, frame, options) {
        &&& range.first_index == layout(before, options).1
        &&& range.index_count == 6 * frame_quads(frame, options)
    } else {
        &&& range.first_index == 0
        &&& range.index_count == 0
    }
}

/// Whether the mesh of grid `g` sits in the shared buffers with its vertices
/// from `vb` and its indices from `ib`, each index offset by `vb`.
pub open spec fn placed_mesh(
    g: GridModel,
    depth: nat,
    vertices: Seq<VoxelVertex>,
    indices: Seq<u32>,
    vb: int,
    ib: int,
) -> bool {
    let quads = g.quads();
    &&& 0 <= vb
    &&& vb + 4 * quads.len() <= vertices.len()
    &&& 0 <= ib
    &&& ib + 6 * quads.len() <= indices.len()
    &&& forall|q: int, j: int|
        0 <= q < quads.len() && 0 <= j < 4 ==> {
            let (col, row, face) = quads[q];
            let v = #[trigger] vertices[vb + 4 * q + j];
            &&& v.position@ == spec_corner(
                face,
                box_lo(g.cols, depth, col, row),
                box_hi(g.cols, depth, col, row),
                j,
            )
            &&& v.normal@ == spec_normal(face)
            &&& v.colour@ == g.colour(col, row)
        }
    &&& forall|q: int, t: int|
        0 <= q < quads.len() && 0 <= t < 6 ==> #[trigger] indices[ib + 6 * q + t] == vb + 4 * q
            + quad_index(t)
}

/// The sequences of `parts` one after another.
pub open spec fn joined<A>(parts: Seq<Seq<A>>) -> Seq<A>
    decreases parts.len(),
{
    if parts.len() == 0 {
        Seq::empty()
    } else {
        joined(parts.drop_last()) + parts.last()
    }
}

/// An asset's frames as values.
pub open spec fn frames_model(frames: Vec<Image>) -> Seq<ImageModel> {
    frames@.map_values(|frame: Image| frame@)
}

/// No two assets share a name.
pub open spec fn names_distinct(assets: Seq<(String, Vec<Image>)>) -> bool {
    forall|i: int, j: int|
        0 <= i < assets.len() && 0 <= j < assets.len() && i != j ==> (#[trigger] assets[i]).0@
            != (#[trigger] assets[j]).0@
}

/// Every frame of every asset is one the voxel builder takes.
pub open spec fn frames_ready(assets: Seq<(String, Vec<Image>)>) -> bool {
    forall|i: int, f: int|
        0 <= i < assets.len() && 0 <= f < assets[i].1@.len() ==> voxel_ready(
            (#[trigger] assets[i].1@[f])@,
        )
}

/// The number of frames of the assets at positions `picks`.
pub open spec fn frames_at(assets: Seq<(String, Vec<Image>)>, picks: Seq<int>) -> nat
    decreases picks.len(),
{
    if picks.len() == 0 {
        0
    } else {
        frames_at(assets, picks.drop_last()) + assets[picks.last()].1@.len()
    }
}

/// The number of frames of all the assets.
pub open spec fn frame_total(assets: Seq<(String, Vec<Image>)>) -> nat {
    frames_at(assets, Seq::new(assets.len(), |i: int| i))
}

/// Where the asset named `name` stands among `assets`.
pub open spec fn index_named(assets: Seq<(String, Vec<Image>)>, name: Seq<char>) -> int {
    choose|i: int| 0 <= i < assets.len() && assets[i].0@ == name
}

/// The frames of the asset named `name`.
pub open spec fn frames_named(assets: Seq<(String, Vec<Image>)>, name: Seq<char>) -> Seq<
    ImageModel,
> {
    frames_model(assets[index_named(assets, name)].1)
}

proof fn lemma_layout_bounds(frames: Seq<ImageModel>, options: VoxelOptions)
    ensures
        layout(frames, options).0 <= MAX_VERTICES,
        2 * layout(frames, options).1 == 3 * layout(frames, options).0,
        layout(frames, options).2 <= frames.len(),
    decreases frames.len(),
{
    if frames.len() > 0 {
        lemma_layout_bounds(frames.drop_last(), options);
    }
}

proof fn lemma_layout_push(frames: Seq<ImageModel>, frame: ImageModel, options: VoxelOptions)
    ensures
        frames.push(frame).drop_last() == frames,
        frames.push(frame).last() == frame,
        layout(frames.push(frame), options) == if fits_after(frames, frame, options) {
            (
                layout(frames, options).0 + 4 * frame_quads(frame, options),
                layout(frames, options).1 + 6 * frame_quads(frame, options),
                layout(frames, options).2,
            )
        } else {
            (layout(frames, options).0, layout(frames, options).1, layout(frames, options).2 + 1)
        },
{
    assert(frames.push(frame).drop_last() =~= frames);
}

proof fn lemma_placed_mesh_extends(
    g: GridModel,
    depth: nat,
    v1: Seq<VoxelVertex>,
    i1: Seq<u32>,
    v2: Seq<VoxelVertex>,
    i2: Seq<u32>,
    vb: int,
    ib: int,
)
    requires
        placed_mesh(g, depth, v1, i1, vb, ib),
        v1.len() <= v2.len(),
        i1.len() <= i2.len(),
        forall|x: int| 0 <= x < v1.len() ==> v2[x] == v1[x],
        forall|x: int| 0 <= x < i1.len() ==> i2[x] == i1[x],
    ensures
        placed_mesh(g, depth, v2, i2, vb, ib),
{
    let quads = g.quads();
    assert forall|q: int, j: int| 0 <= q < quads.len() && 0 <= j < 4 implies #[trigger] v2[vb + 4 * q + j]
        == v1[vb + 4 * q + j] by {
        assert(vb + 4 * q + j < vb + 4 * quads.len()) by (nonlinear_arith)
            requires
                0 <= q < quads.len(),
                0 <= j < 4,
        ;
    }
    assert forall|q: int, t: int| 0 <= q < quads.len() && 0 <= t < 6 implies #[trigger] i2[ib + 6 * q + t]
        == i1[ib + 6 * q + t] by {
        assert(ib + 6 * q + t < ib + 6 * quads.len()) by (nonlinear_arith)
            requires
                0 <= q < quads.len(),
                0 <= t < 6,
        ;
    }
}

fn append_vertices(dst: &mut Vec<VoxelVertex>, src: &Vec<VoxelVertex>)
    ensures
        final(dst)@ == old(dst)@ + src@,
{
    let ghost start = dst@;
    let mut k: usize = 0;
    while k < src.len()
        invariant
            k <= src@.len(),
            dst@ == start + src@.take(k as int),
        decreases src@.len() - k,
    {
        dst.push(src[k]);
        k = k + 1;
        assert(src@.take(k as int) =~= src@.take(k - 1).push(src@[k - 1]));
    }
    assert(src@.take(k as int) =~= src@);
}

fn append_shifted(dst: &mut Vec<u32>, src: &Vec<u32>, base: u32)
    requires
        forall|x: int| 0 <= x < src@.len() ==> #[trigger] src@[x] + base <= u32::MAX,
    ensures
        final(dst)@.len() == old(dst)@.len() + src@.len(),
        forall|x: int| 0 <= x < old(dst)@.len() ==> final(dst)@[x] == old(dst)@[x],
        forall|x: int|
            0 <= x < src@.len() ==> #[trigger] final(dst)@[old(dst)@.len() + x] == src@[x] + base,
{
    let ghost start = dst@;
    let mut t: usize = 0;
    while t < src.len()
        invariant
            t <= src@.len(),
            forall|x: int| 0 <= x < src@.len() ==> #[trigger] src@[x] + base <= u32::MAX,
            dst@.len() == start.len() + t,
            forall|x: int| 0 <= x < start.len() ==> dst@[x] == start[x],
            forall|x: int| 0 <= x < t ==> #[trigger] dst@[start.len() + x] == src@[x] + base,
        decreases src@.len() - t,
    {
        dst.push(src[t] + base);
        t = t + 1;
    }
}

proof fn lemma_placed_after_append(
    g: GridModel,
    depth: nat,
    mesh_vertices: Seq<VoxelVertex>,
    mesh_indices: Seq<u32>,
    v_old: Seq<VoxelVertex>,
    i_old: Seq<u32>,
    v_new: Seq<VoxelVertex>,
    i_new: Seq<u32>,
)
    requires
        mesh_of(g, depth, g.quads(), mesh_vertices, mesh_indices),
        v_new == v_old + mesh_vertices,
        i_new.len() == i_old.len() + mesh_indices.len(),
        forall|x: int|
            0 <= x < mesh_indices.len() ==> #[trigger] i_new[i_old.len() + x] == mesh_indices[x]
                + v_old.len(),
    ensures
        placed_mesh(g, depth, v_new, i_new, v_old.len() as int, i_old.len() as int),
{
    let vb = v_old.len() as int;
    let ib = i_old.len() as int;
    let quads = g.quads();
    assert forall|q: int, j: int| 0 <= q < quads.len() && 0 <= j < 4 implies #[trigger] v_new[vb
        + 4 * q + j] == mesh_vertices[4 * q + j] by {
        assert(0 <= 4 * q + j < 4 * quads.len()) by (nonlinear_arith)
            requires
                0 <= q < quads.len(),
                0 <= j < 4,
        ;
    }
    assert forall|q: int, t: int| 0 <= q < quads.len() && 0 <= t < 6 implies #[trigger] i_new[ib
        + 6 * q + t] == vb + 4 * q + quad_index(t) by {
        assert(0 <= 6 * q + t < 6 * quads.len()) by (nonlinear_arith)
            requires
                0 <= q < quads.len(),
                0 <= t < 6,
        ;
        assert(i_new[i_old.len() + (6 * q + t)] == mesh_indices[6 * q + t] + v_old.len());
    }
}

proof fn lemma_index_named(assets: Seq<(String, Vec<Image>)>, i: int)
    requires
        names_distinct(assets),
        0 <= i < assets.len(),
    ensures
        index_named(assets, assets[i].0@) == i,
{
    let c = index_named(assets, assets[i].0@);
    assert(0 <= c < assets.len() && assets[c].0@ == assets[i].0@);
}

pub proof fn lemma_joined_push<A>(parts: Seq<Seq<A>>, part: Seq<A>)
    ensures
        joined(parts.push(part)) == joined(parts) + part,
{
    assert(parts.push(part).drop_last() =~= parts);
}

proof fn lemma_entry_pushed(
    before: Seq<(Seq<char>, Seq<MeshRange>)>,
    after: Seq<(Seq<char>, Seq<MeshRange>)>,
    name: Seq<char>,
    ranges: Seq<MeshRange>,
)
    requires
        after == before.push((name, ranges)),
    ensures
        joined(Seq::new(after.len(), |k: int| after[k].1)) == joined(
            Seq::new(before.len(), |k: int| before[k].1),
        ) + ranges,
{
    let old_parts = Seq::new(before.len(), |k: int| before[k].1);
    assert(Seq::new(after.len(), |k: int| after[k].1) =~= old_parts.push(ranges));
    lemma_joined_push(old_parts, ranges);
}

proof fn lemma_lands_after_append(
    ranges: Seq<MeshRange>,
    done: Seq<ImageModel>,
    more_ranges: Seq<MeshRange>,
    more: Seq<ImageModel>,
    options: VoxelOptions,
)
    requires
        ranges.len() == done.len(),
        forall|x: int|
            0 <= x < done.len() ==> lands_at(#[trigger] ranges[x], done.take(x), done[x], options),
        more_ranges.len() == more.len(),
        forall|y: int|
            0 <= y < more.len() ==> lands_at(#[trigger] more_ranges[y], done + more.take(y), more[y], options),
    ensures
        forall|x: int|
            0 <= x < (done + more).len() ==> lands_at(
                #[trigger] (ranges + more_ranges)[x],
                (done + more).take(x),
                (done + more)[x],
                options,
            ),
{
    assert forall|x: int| 0 <= x < (done + more).len() implies lands_at(
        #[trigger] (ranges + more_ranges)[x],
        (done + more).take(x),
        (done + more)[x],
        options,
    ) by {
        if x < done.len() {
            assert((done + more).take(x) =~= done.take(x));
            assert((ranges + more_ranges)[x] == ranges[x]);
        } else {
            let y = x - done.len();
            assert((ranges + more_ranges)[x] == more_ranges[y]);
            assert((done + more).take(x) =~= done + more.take(y));
            assert((done + more)[x] == more[y]);
        }
    }
}

proof fn lemma_holds_ignores_ranges(a: MeshBook, b: MeshBook, frames: Seq<ImageModel>)
    requires
        a.holds(frames),
        a.vertices@ == b.vertices@,
        a.indices@ == b.indices@,
        a.skipped_frames == b.skipped_frames,
        a.options == b.options,
    ensures
        b.holds(frames),
{
    reveal(MeshBook::holds);
}

#[verifier::rlimit(40)]
proof fn lemma_built(
    book: MeshBook,
    assets: Seq<(String, Vec<Image>)>,
    order: Seq<usize>,
    done: Seq<ImageModel>,
    options: VoxelOptions,
)
    requires
        names_distinct(assets),
        assets.len() <= usize::MAX,
        order.len() == assets.len(),
        forall|a: int| 0 <= a < order.len() ==> #[trigger] order[a] < assets.len(),
        forall|a: int, b: int|
            0 <= a < b < order.len() ==> text_less(assets[order[a] as int].0@, assets[order[b] as int].0@),
        forall|j: usize| j < assets.len() ==> #[trigger] order.contains(j),
        book.options == options,
        book.holds(done),
        book.ranges@.len() == order.len(),
        forall|m: int|
            0 <= m < order.len() ==> (#[trigger] book.entries()[m]).0 == assets[order[m] as int].0@
                && book.entries()[m].1.len() == assets[order[m] as int].1@.len(),
        done == joined(Seq::new(order.len(), |m: int| frames_model(assets[order[m] as int].1))),
        book.all_ranges().len() == done.len(),
        forall|x: int|
            0 <= x < done.len() ==> lands_at(#[trigger] book.all_ranges()[x], done.take(x), done[x], options),
    ensures
        book.built_from(assets, options),
{
    reveal(MeshBook::orders_names);
    reveal(MeshBook::lays_out);
    let entries = book.entries();
    assert forall|i: int| 0 <= i < assets.len() implies exists|m: int|
        0 <= m < entries.len() && #[trigger] entries[m].0 == (#[trigger] assets[i]).0@ by {
        assert(order.contains(i as usize));
        let m = choose|m: int| 0 <= m < order.len() && order[m] == i as usize;
        assert(order[m] as int == i);
        assert(entries[m].0 == assets[order[m] as int].0@);
    }
    assert forall|m: int| 0 <= m < entries.len() implies exists|i: int|
        0 <= i < assets.len() && #[trigger] entries[m].0 == (#[trigger] assets[i]).0@ by {
        assert(entries[m].0 == assets[order[m] as int].0@);
    }
    assert forall|m: int| 0 <= m < entries.len() implies frames_named(assets, entries[m].0)
        == frames_model(assets[order[m] as int].1) by {
        assert(entries[m].0 == assets[order[m] as int].0@);
        lemma_index_named(assets, order[m] as int);
    }
    assert(Seq::new(entries.len(), |m: int| frames_named(assets, entries[m].0)) =~= Seq::new(
        order.len(),
        |m: int| frames_model(assets[order[m] as int].1),
    ));
    assert forall|k: int, l: int| 0 <= k < l < entries.len() implies text_less(
        #[trigger] entries[k].0,
        #[trigger] entries[l].0,
    ) by {
        assert(entries[k].0 == assets[order[k] as int].0@);
        assert(entries[l].0 == assets[order[l] as int].0@);
    }
    assert forall|m: int| 0 <= m < entries.len() implies (#[trigger] entries[m]).1.len()
        == frames_named(assets, entries[m].0).len() by {
        assert(entries[m].0 == assets[order[m] as int].0@);
        lemma_index_named(assets, order[m] as int);
    }
}

proof fn lemma_frames_at_remove(assets: Seq<(String, Vec<Image>)>, picks: Seq<int>, p: int)
    requires
        0 <= p < picks.len(),
    ensures
        frames_at(assets, picks) == frames_at(assets, picks.remove(p)) + assets[picks[p]].1@.len(),
    decreases picks.len(),
{
    if p == picks.len() - 1 {
        assert(picks.remove(p) =~= picks.drop_last());
    } else {
        lemma_frames_at_remove(assets, picks.drop_last(), p);
        assert(picks.remove(p).drop_last() =~= picks.drop_last().remove(p));
        assert(picks.remove(p).last() == picks.last());
    }
}

/// Frames of distinct picks from `all` are no more than the frames of `all`.
proof fn lemma_frames_at_within(assets: Seq<(String, Vec<Image>)>, picks: Seq<int>, all: Seq<int>)
    requires
        picks.no_duplicates(),
        all.no_duplicates(),
        forall|x: int| 0 <= x < picks.len() ==> all.contains(#[trigger] picks[x]),
    ensures
        frames_at(assets, picks) <= frames_at(assets, all),
    decreases picks.len(),
{
    if picks.len() > 0 {
        let e = picks.last();
        assert(all.contains(picks[picks.len() - 1]));
        let p = choose|p: int| 0 <= p < all.len() && all[p] == e;
        let rest = all.remove(p);
        lemma_frames_at_remove(assets, all, p);
        assert forall|x: int| 0 <= x < picks.drop_last().len() implies rest.contains(
            #[trigger] picks.drop_last()[x],
        ) by {
            let y = picks.drop_last()[x];
            assert(y == picks[x]);
            assert(all.contains(picks[x]));
            let q = choose|q: int| 0 <= q < all.len() && all[q] == y;
            assert(q != p);
            if q < p {
                assert(rest[q] == y);
            } else {
                assert(rest[q - 1] == y);
            }
        }
        assert(rest.no_duplicates()) by {
            assert forall|a: int, b: int| 0 <= a < rest.len() && 0 <= b < rest.len() && a != b
                implies rest[a] != rest[b] by {
                let a2 = if a < p { a } else { a + 1 };
                let b2 = if b < p { b } else { b + 1 };
                assert(rest[a] == all[a2]);
                assert(rest[b] == all[b2]);
            }
        }
        assert(picks.drop_last().no_duplicates()) by {
            assert forall|a: int, b: int|
                0 <= a < picks.drop_last().len() && 0 <= b < picks.drop_last().len() && a != b
                implies picks.drop_last()[a] != picks.drop_last()[b] by {
                assert(picks.drop_last()[a] == picks[a]);
                assert(picks.drop_last()[b] == picks[b]);
            }
        }
        lemma_frames_at_within(assets, picks.drop_last(), rest);
    }
}

/// Positions of `assets` in strictly increasing order of name.
fn name_order(assets: &Vec<(String, Vec<Image>)>) -> (order: Vec<usize>)
    requires
        names_distinct(assets@),
    ensures
        order@.len() == assets@.len(),
        forall|k: int| 0 <= k < order@.len() ==> #[trigger] order@[k] < assets@.len(),
        forall|k: int, l: int|
            0 <= k < l < order@.len() ==> text_less(
                assets@[order@[k] as int].0@,
                assets@[order@[l] as int].0@,
            ),
        forall|i: usize| i < assets@.len() ==> #[trigger] order@.contains(i),
{
    let mut names: Vec<&str> = Vec::new();
    let mut k: usize = 0;
    while k < assets.len()
        invariant
            k <= assets@.len(),
            names@.len() == k,
            forall|j: int| 0 <= j < k ==> (#[trigger] names@[j])@ == assets@[j].0@,
        decreases assets@.len() - k,
    {
        names.push(assets[k].0.as_str());
        k = k + 1;
    }
    proof {
        assert forall|i: int, j: int|
            0 <= i < names@.len() && 0 <= j < names@.len() && i != j implies names@[i]@ != names@[j]@ by {
            assert(names@[i]@ == assets@[i].0@);
            assert(names@[j]@ == assets@[j].0@);
        }
    }
    let order = sorted_positions(&names);
    proof {
        assert forall|k: int, l: int| 0 <= k < l < order@.len() implies text_less(
            assets@[order@[k] as int].0@,
            assets@[order@[l] as int].0@,
        ) by {
            assert(names@[order@[k] as int]@ == assets@[order@[k] as int].0@);
            assert(names@[order@[l] as int]@ == assets@[order@[l] as int].0@);
        }
    }
    order
}

/// Voxel meshes for a set of assets, in one vertex and one index buffer.
#[derive(Debug)]
pub struct MeshBook {
    pub vertices: Vec<VoxelVertex>,
    pub indices: Vec<u32>,
    /// Asset name and per-frame ranges, by name, each name once.
    pub ranges: Vec<(String, Vec<MeshRange>)>,
    /// Frames left out because the book was full: reported rather than
    /// hidden, since a pet that silently lost its model looks like one whose
    /// art failed to load.
    pub skipped_frames: usize,
    pub options: VoxelOptions,
}

impl MeshBook {
    /// Each asset's name and its frames' ranges, in the book's order.
    pub open spec fn entries(self) -> Seq<(Seq<char>, Seq<MeshRange>)> {
        self.ranges@.map_values(|e: (String, Vec<MeshRange>)| (e.0@, e.1@))
    }

    /// Each entry's ranges.
    pub open spec fn entry_ranges(self) -> Seq<Seq<MeshRange>> {
        Seq::new(self.entries().len(), |k: int| self.entries()[k].1)
    }

    /// Each entry's frames, found among `assets` by name.
    pub open spec fn entry_frames(self, assets: Seq<(String, Vec<Image>)>) -> Seq<Seq<ImageModel>> {
        Seq::new(self.entries().len(), |k: int| frames_named(assets, self.entries()[k].0))
    }

    /// The book's frames' ranges, asset after asset.
    pub open spec fn all_ranges(self) -> Seq<MeshRange> {
        joined(self.entry_ranges())
    }

    /// The frames of `assets` in the book's order.
    pub open spec fn frames_in_order(self, assets: Seq<(String, Vec<Image>)>) -> Seq<ImageModel> {
        joined(self.entry_frames(assets))
    }

    /// Names in strictly increasing order, so each at most once.
    pub open spec fn wf(self) -> bool {
        forall|k: int, l: int|
            0 <= k < l < self.entries().len() ==> text_less(
                #[trigger] self.entries()[k].0,
                #[trigger] self.entries()[l].0,
            )
    }

    /// What `build` makes of `assets` at `options`: its entries name the
    /// assets in increasing order, and its buffers and ranges lay out their
    /// frames in that order.
    pub open spec fn built_from(self, assets: Seq<(String, Vec<Image>)>, options: VoxelOptions) -> bool {
        &&& self.orders_names(assets)
        &&& self.lays_out(assets, options)
    }

    /// One entry per asset, in increasing order of name.
    #[verifier::opaque]
    pub open spec fn orders_names(self, assets: Seq<(String, Vec<Image>)>) -> bool {
        &&& self.wf()
        &&& self.entries().len() == assets.len()
        &&& forall|i: int|
            0 <= i < assets.len() ==> exists|k: int|
                0 <= k < self.entries().len() && #[trigger] self.entries()[k].0 == (
                #[trigger] assets[i]).0@
        &&& forall|k: int|
            0 <= k < self.entries().len() ==> exists|i: int|
                0 <= i < assets.len() && #[trigger] self.entries()[k].0 == (#[trigger] assets[i]).0@
    }

    /// One range per frame, and the frames laid out in the entries' order,
    /// asset after asset, each landing where the layout puts it.
    #[verifier::opaque]
    pub open spec fn lays_out(self, assets: Seq<(String, Vec<Image>)>, options: VoxelOptions) -> bool {
        let frames = self.frames_in_order(assets);
        &&& self.options == options
        &&& forall|k: int|
            0 <= k < self.entries().len() ==> (#[trigger] self.entries()[k]).1.len()
                == frames_named(assets, self.entries()[k].0).len()
        &&& self.all_ranges().len() == frames.len()
        &&& forall|x: int|
            0 <= x < frames.len() ==> lands_at(
                #[trigger] self.all_ranges()[x],
                frames.take(x),
                frames[x],
                options,
            )
        &&& self.holds(frames)
    }

    /// The buffers hold exactly the layout of `frames`, in order, at the
    /// book's options, and every index names a vertex.
    #[verifier::opaque]
    pub open spec fn holds(self, frames: Seq<ImageModel>) -> bool {
        let (v, i, s) = layout(frames, self.options);
        &&& self.vertices@.len() == v
        &&& self.indices@.len() == i
        &&& self.skipped_frames == s
        &&& forall|x: int|
            0 <= x < frames.len() && fits_after(frames.take(x), #[trigger] frames[x], self.options)
                ==> placed_mesh(
                spec_fit(frames[x], self.options.max_width as nat),
                depth_of(self.options),
                self.vertices@,
                self.indices@,
                layout(frames.take(x), self.options).0 as int,
                layout(frames.take(x), self.options).1 as int,
            )
        &&& forall|p: int| 0 <= p < self.indices@.len() ==> #[trigger] self.indices@[p] < self.vertices@.len()
    }

    /// Extrudes every frame of every asset, assets in increasing order of
    /// name, frames in their own order.
    pub fn build(assets: &Vec<(String, Vec<Image>)>, options: VoxelOptions) -> (book: MeshBook)
        requires
            names_distinct(assets@),
            frames_ready(assets@),
            frame_total(assets@) < usize::MAX,
        ensures
            book.built_from(assets@, options),
    {
        let order = name_order(assets);
        let mut book = MeshBook {
            vertices: Vec::new(),
            indices: Vec::new(),
            ranges: Vec::new(),
            skipped_frames: 0,
            options,
        };
        let ghost n = assets@.len();
        let ghost everyone = Seq::new(n, |i: int| i);
        let ghost mut done: Seq<ImageModel> = Seq::empty();
        proof {
            assert(book.entries() =~= Seq::empty());
            assert(Seq::new(0, |k: int| book.entries()[k].1) =~= Seq::<Seq<MeshRange>>::empty());
            assert(Seq::new(0, |m: int| frames_model(assets@[order@[m] as int].1)) =~= Seq::<
                Seq<ImageModel>,
            >::empty());
            assert(Seq::new(0, |m: int| order@[m] as int) =~= Seq::<int>::empty());
            assert(everyone.no_duplicates());
            reveal(MeshBook::holds);
            assert forall|a: int, b: int| 0 <= a < b < order@.len() implies order@[a] != order@[b] by {
                if order@[a] == order@[b] {
                    lemma_text_less_irreflexive(assets@[order@[a] as int].0@);
                }
            }
        }
        let mut k: usize = 0;
        while k < order.len()
            invariant
                k <= order@.len(),
                order@.len() == n,
                n == assets@.len(),
                everyone == Seq::new(n, |i: int| i),
                forall|a: int| 0 <= a < order@.len() ==> #[trigger] order@[a] < n,
                forall|a: int, b: int|
                    0 <= a < b < order@.len() ==> text_less(
                        assets@[order@[a] as int].0@,
                        assets@[order@[b] as int].0@,
                    ),
                forall|a: int, b: int| 0 <= a < b < order@.len() ==> order@[a] != order@[b],
                forall|j: usize| j < n ==> #[trigger] order@.contains(j),
                names_distinct(assets@),
                frames_ready(assets@),
                frame_total(assets@) < usize::MAX,
                book.options == options,
                book.holds(done),
                book.ranges@.len() == k,
                forall|m: int|
                    0 <= m < k ==> (#[trigger] book.entries()[m]).0 == assets@[order@[m] as int].0@
                        && book.entries()[m].1.len() == assets@[order@[m] as int].1@.len(),
                done == joined(Seq::new(k as nat, |m: int| frames_model(assets@[order@[m] as int].1))),
                done.len() == frames_at(assets@, Seq::new(k as nat, |m: int| order@[m] as int)),
                book.all_ranges().len() == done.len(),
                forall|x: int|
                    0 <= x < done.len() ==> lands_at(
                        #[trigger] book.all_ranges()[x],
                        done.take(x),
                        done[x],
                        options,
                    ),
            decreases order@.len() - k,
        {
            let i = order[k];
            let frames = &assets[i].1;
            let ghost fm = frames_model(assets@[i as int].1);
            let ghost start = done;
            let ghost ranges_before = book.ranges@;
            let ghost entries_before = book.entries();
            let ghost picks = Seq::new((k + 1) as nat, |m: int| order@[m] as int);
            proof {
                assert(picks.drop_last() =~= Seq::new(k as nat, |m: int| order@[m] as int));
                assert(picks.no_duplicates()) by {
                    assert forall|a: int, b: int| 0 <= a < picks.len() && 0 <= b < picks.len() && a != b
                        implies picks[a] != picks[b] by {
                        if a < b {
                            assert(order@[a] != order@[b]);
                        } else {
                            assert(order@[b] != order@[a]);
                        }
                    }
                }
                assert forall|x: int| 0 <= x < picks.len() implies everyone.contains(#[trigger] picks[x]) by {
                    assert(everyone[picks[x]] == picks[x]);
                }
                lemma_frames_at_within(assets@, picks, everyone);
                assert(start.len() + fm.len() == frames_at(assets@, picks));
                assert forall|y: int| 0 <= y < frames@.len() implies voxel_ready(#[trigger] frames@[y]@) by {
                    assert(voxel_ready(assets@[i as int].1@[y]@));
                }
            }
            let frame_ranges = book.push_asset(frames, options, Ghost(start));
            let ghost filled = book;
            let name = assets[i].0.clone();
            let ghost new_ranges = frame_ranges@;
            assert(name@ == assets@[i as int].0@);
            book.ranges.push((name, frame_ranges));
            proof {
                done = start + fm;
                assert(fm == frames_model(*frames));
                lemma_holds_ignores_ranges(filled, book, done);
                assert(book.entries() =~= entries_before.push((assets@[i as int].0@, new_ranges)));
                lemma_entry_pushed(entries_before, book.entries(), assets@[i as int].0@, new_ranges);
                let old_frames = Seq::new(k as nat, |m: int| frames_model(assets@[order@[m] as int].1));
                let new_frames = Seq::new((k + 1) as nat, |m: int| frames_model(assets@[order@[m] as int].1));
                assert(new_frames =~= old_frames.push(fm));
                lemma_joined_push(old_frames, fm);
                lemma_lands_after_append(
                    joined(Seq::new(k as nat, |m: int| entries_before[m].1)),
                    start,
                    new_ranges,
                    fm,
                    options,
                );
                assert forall|m: int| 0 <= m < k + 1 implies (#[trigger] book.entries()[m]).0 == assets@[order@[m] as int].0@
                        && book.entries()[m].1.len() == assets@[order@[m] as int].1@.len() by {
                    if m < k {
                        assert(book.entries()[m] == entries_before[m]);
                    }
                }
            }
            k = k + 1;
        }
        proof {
            lemma_built(book, assets@, order@, done, options);
        }
        book
    }

    fn push_asset(
        &mut self,
        frames: &Vec<Image>,
        options: VoxelOptions,
        Ghost(start): Ghost<Seq<ImageModel>>,
    ) -> (ranges: Vec<MeshRange>)
        requires
            old(self).holds(start),
            old(self).options == options,
            forall|y: int| 0 <= y < frames@.len() ==> voxel_ready(#[trigger] frames@[y]@),
            start.len() + frames@.len() < usize::MAX,
        ensures
            final(self).holds(start + frames_model(*frames)),
            final(self).options == options,
            final(self).ranges@ == old(self).ranges@,
            ranges@.len() == frames@.len(),
            forall|y: int|
                0 <= y < frames@.len() ==> lands_at(
                    #[trigger] ranges@[y],
                    start + frames_model(*frames).take(y),
                    frames_model(*frames)[y],
                    options,
                ),
    {
        let ghost fm = frames_model(*frames);
        let ghost ranges_before = self.ranges@;
        let mut frame_ranges: Vec<MeshRange> = Vec::new();
        let mut f: usize = 0;
        while f < frames.len()
            invariant
                f <= frames@.len(),
                fm == frames_model(*frames),
                forall|y: int| 0 <= y < frames@.len() ==> voxel_ready(#[trigger] frames@[y]@),
                start.len() + frames@.len() < usize::MAX,
                self.options == options,
                self.ranges@ == ranges_before,
                self.holds(start + fm.take(f as int)),
                frame_ranges@.len() == f,
                forall|y: int|
                    0 <= y < f ==> lands_at(
                        #[trigger] frame_ranges@[y],
                        start + fm.take(y),
                        fm[y],
                        options,
                    ),
            decreases frames@.len() - f,
        {
            let ghost before = start + fm.take(f as int);
            assert(frames@[f as int]@ == fm[f as int]);
            let r = self.push_frame(&frames[f], options, Ghost(before));
            proof {
                assert(before.push(fm[f as int]) =~= start + fm.take(f + 1));
            }
            frame_ranges.push(r);
            f = f + 1;
        }
        proof {
            assert(fm.take(fm.len() as int) =~= fm);
        }
        frame_ranges
    }

    /// The range drawn for `frame` of `asset`: the frame index wraps around
    /// the asset's frames, as the atlas does, and an unknown asset or one
    /// without frames has none.
    pub open spec fn range_of(self, asset: Seq<char>, frame: int) -> Option<MeshRange> {
        if self.has_entry(asset) {
            let ranges = self.entries()[self.entry_index(asset)].1;
            if ranges.len() == 0 {
                None
            } else {
                Some(ranges[frame % (ranges.len() as int)])
            }
        } else {
            None
        }
    }

    /// Whether some entry is named `asset`.
    pub open spec fn has_entry(self, asset: Seq<char>) -> bool {
        exists|k: int| 0 <= k < self.entries().len() && #[trigger] self.entries()[k].0 == asset
    }

    /// Where the entry named `asset` stands.
    pub open spec fn entry_index(self, asset: Seq<char>) -> int {
        choose|k: int| 0 <= k < self.entries().len() && #[trigger] self.entries()[k].0 == asset
    }

    /// The range for one frame, wrapping the frame index so a manifest that
    /// points past the end draws a frame rather than nothing.
    pub fn range(&self, asset: &str, frame: usize) -> (found: Option<MeshRange>)
        requires
            self.wf(),
        ensures
            found == self.range_of(asset@, frame as int),
    {
        let mut k: usize = 0;
        while k < self.ranges.len()
            invariant
                self.wf(),
                k <= self.ranges@.len(),
                forall|m: int| 0 <= m < k ==> (#[trigger] self.entries()[m]).0 != asset@,
            decreases self.ranges@.len() - k,
        {
            if same_text(self.ranges[k].0.as_str(), asset) {
                proof {
                    let es = self.entries();
                    assert(es[k as int].0 == asset@);
                    let c = self.entry_index(asset@);
                    if c != k {
                        if c < k {
                            assert(text_less(es[c].0, es[k as int].0));
                        } else {
                            assert(text_less(es[k as int].0, es[c].0));
                        }
                        lemma_text_less_irreflexive(asset@);
                    }
                }
                let frames = &self.ranges[k].1;
                if frames.len() == 0 {
                    return None;
                }
                return Some(frames[frame % frames.len()]);
            }
            k = k + 1;
        }
        None
    }

    /// Whether the book holds no geometry at all.
    pub fn is_empty(&self) -> (empty: bool)
        ensures
            empty == (self.indices@.len() == 0),
    {
        self.indices.len() == 0
    }

    /// How many assets the book has entries for.
    pub fn asset_count(&self) -> (count: usize)
        ensures
            count == self.entries().len(),
    {
        self.ranges.len()
    }

    #[verifier::rlimit(40)]
    fn push_frame(
        &mut self,
        frame: &Image,
        options: VoxelOptions,
        Ghost(before): Ghost<Seq<ImageModel>>,
    ) -> (range: MeshRange)
        requires
            old(self).holds(before),
            old(self).options == options,
            voxel_ready(frame@),
            before.len() < usize::MAX,
        ensures
            final(self).holds(before.push(frame@)),
            final(self).options == options,
            final(self).ranges@ == old(self).ranges@,
            lands_at(range, before, frame@, options),
    {
        let ghost old_vertices = self.vertices@;
        let ghost old_indices = self.indices@;
        let ghost after = before.push(frame@);
        proof {
            reveal(MeshBook::holds);
            lemma_layout_bounds(before, options);
            lemma_layout_push(before, frame@, options);
            assert forall|x: int| 0 <= x <= before.len() implies #[trigger] after.take(x)
                == before.take(x) by {
                assert(after.take(x) =~= before.take(x));
            }
            assert(after.take(before.len() as int) =~= before);
        }
        proof {
            lemma_fit_within_frame(frame@, options.max_width as nat);
            let g = spec_fit(frame@, options.max_width as nat);
            assert(g.cols * g.rows * 24 <= frame@.width * frame@.height * 24) by (nonlinear_arith)
                requires
                    g.cols * g.rows <= frame@.width * frame@.height,
            ;
        }
        let mesh = build_mesh(frame, options);
        let ghost g = spec_fit(frame@, options.max_width as nat);
        proof {
            law_indices_address_the_vertices(
                g,
                depth_of(options),
                g.quads(),
                mesh.vertices@,
                mesh.indices@,
            );
        }
        let extent = mesh.extent;
        let nv = self.vertices.len();
        if mesh.vertices.len() > MAX_VERTICES - nv {
            self.skipped_frames = self.skipped_frames + 1;
            proof {
                assert forall|x: int|
                    0 <= x < after.len() && fits_after(after.take(x), #[trigger] after[x], options)
                        implies placed_mesh(
                    spec_fit(after[x], options.max_width as nat),
                    depth_of(options),
                    self.vertices@,
                    self.indices@,
                    layout(after.take(x), options).0 as int,
                    layout(after.take(x), options).1 as int,
                ) by {
                    if x < before.len() {
                        assert(after[x] == before[x]);
                    }
                }
            }
            return MeshRange { first_index: 0, index_count: 0, extent };
        }
        let base_vertex = nv as u32;
        let first_index = self.indices.len() as u32;
        append_vertices(&mut self.vertices, &mesh.vertices);
        append_shifted(&mut self.indices, &mesh.indices, base_vertex);
        proof {
            lemma_placed_after_append(
                g,
                depth_of(options),
                mesh.vertices@,
                mesh.indices@,
                old_vertices,
                old_indices,
                self.vertices@,
                self.indices@,
            );
            assert forall|x: int|
                0 <= x < after.len() && fits_after(after.take(x), #[trigger] after[x], options)
                    implies placed_mesh(
                spec_fit(after[x], options.max_width as nat),
                depth_of(options),
                self.vertices@,
                self.indices@,
                layout(after.take(x), options).0 as int,
                layout(after.take(x), options).1 as int,
            ) by {
                if x < before.len() {
                    assert(after[x] == before[x]);
                    lemma_placed_mesh_extends(
                        spec_fit(before[x], options.max_width as nat),
                        depth_of(options),
                        old_vertices,
                        old_indices,
                        self.vertices@,
                        self.indices@,
                        layout(before.take(x), options).0 as int,
                        layout(before.take(x), options).1 as int,
                    );
                }
            }
            assert forall|p: int| 0 <= p < self.indices@.len() implies #[trigger] self.indices@[p]
                < self.vertices@.len() by {
                if p < old_indices.len() {
                    assert(old(self).indices@[p] < old(self).vertices@.len());
                } else {
                    assert(self.indices@[old_indices.len() + (p - old_indices.len())]
                        == mesh.indices@[p - old_indices.len()] + base_vertex);
                }
            }
        }
        MeshRange { first_index, index_count: mesh.indices.len() as u32, extent }
    }
}

/// The index counts of `ranges`, summed.
pub open spec fn index_total(ranges: Seq<MeshRange>) -> nat
    decreases ranges.len(),
{
    if ranges.len() == 0 {
        0
    } else {
        index_total(ranges.drop_last()) + ranges.last().index_count as nat
    }
}

proof fn lemma_index_total_is_layout(
    ranges: Seq<MeshRange>,
    frames: Seq<ImageModel>,
    options: VoxelOptions,
    x: int,
)
    requires
        ranges.len() == frames.len(),
        forall|y: int|
            0 <= y < frames.len() ==> lands_at(#[trigger] ranges[y], frames.take(y), frames[y], options),
        0 <= x <= frames.len(),
    ensures
        index_total(ranges.take(x)) == layout(frames.take(x), options).1,
    decreases x,
{
    if x > 0 {
        lemma_index_total_is_layout(ranges, frames, options, x - 1);
        assert(ranges.take(x).drop_last() =~= ranges.take(x - 1));
        assert(frames.take(x).drop_last() =~= frames.take(x - 1));
        assert(lands_at(ranges[x - 1], frames.take(x - 1), frames[x - 1], options));
    }
}

pub proof fn lemma_joined_index<A>(parts: Seq<Seq<A>>, k: int, f: int)
    requires
        0 <= k < parts.len(),
        0 <= f < parts[k].len(),
    ensures
        joined(parts.take(k)).len() + f < joined(parts).len(),
        joined(parts)[joined(parts.take(k)).len() + f] == parts[k][f],
    decreases parts.len(),
{
    if k == parts.len() - 1 {
        assert(parts.take(k) =~= parts.drop_last());
    } else {
        lemma_joined_index(parts.drop_last(), k, f);
        assert(parts.drop_last().take(k) =~= parts.take(k));
    }
}

proof fn lemma_joined_len<A, B>(a: Seq<Seq<A>>, b: Seq<Seq<B>>)
    requires
        a.len() == b.len(),
        forall|k: int| 0 <= k < a.len() ==> (#[trigger] a[k]).len() == b[k].len(),
    ensures
        joined(a).len() == joined(b).len(),
    decreases a.len(),
{
    if a.len() > 0 {
        lemma_joined_len(a.drop_last(), b.drop_last());
    }
}

proof fn lemma_layout_ignores_depth(frames: Seq<ImageModel>, a: VoxelOptions, b: VoxelOptions)
    requires
        a.max_width == b.max_width,
    ensures
        layout(frames, a) == layout(frames, b),
    decreases frames.len(),
{
    if frames.len() > 0 {
        lemma_layout_ignores_depth(frames.drop_last(), a, b);
    }
}

proof fn lemma_sorted_names_unique(s: Seq<Seq<char>>, t: Seq<Seq<char>>)
    requires
        s.len() == t.len(),
        forall|k: int, l: int| 0 <= k < l < s.len() ==> text_less(#[trigger] s[k], #[trigger] s[l]),
        forall|k: int, l: int| 0 <= k < l < t.len() ==> text_less(#[trigger] t[k], #[trigger] t[l]),
        forall|k: int| 0 <= k < s.len() ==> #[trigger] t.contains(s[k]),
        forall|k: int| 0 <= k < t.len() ==> #[trigger] s.contains(t[k]),
    ensures
        s == t,
    decreases s.len(),
{
    if s.len() > 0 {
        assert(t.contains(s[0]));
        assert(s.contains(t[0]));
        let j = choose|j: int| 0 <= j < t.len() && t[j] == s[0];
        let i = choose|i: int| 0 <= i < s.len() && s[i] == t[0];
        if j > 0 {
            assert(text_less(t[0], t[j]));
            if i > 0 {
                assert(text_less(s[0], s[i]));
                lemma_text_less_transitive(s[0], t[0], s[0]);
            }
            lemma_text_less_irreflexive(s[0]);
        }
        assert(s[0] == t[0]);
        let s1 = s.drop_first();
        let t1 = t.drop_first();
        assert forall|k: int| 0 <= k < s1.len() implies #[trigger] t1.contains(s1[k]) by {
            assert(s1[k] == s[k + 1]);
            assert(t.contains(s[k + 1]));
            let b = choose|b: int| 0 <= b < t.len() && t[b] == s[k + 1];
            if b == 0 {
                assert(text_less(s[0], s[k + 1]));
                lemma_text_less_irreflexive(s[0]);
            }
            assert(t1[b - 1] == s1[k]);
        }
        assert forall|k: int| 0 <= k < t1.len() implies #[trigger] s1.contains(t1[k]) by {
            assert(t1[k] == t[k + 1]);
            assert(s.contains(t[k + 1]));
            let b = choose|b: int| 0 <= b < s.len() && s[b] == t[k + 1];
            if b == 0 {
                assert(text_less(t[0], t[k + 1]));
                lemma_text_less_irreflexive(t[0]);
            }
            assert(s1[b - 1] == t1[k]);
        }
        lemma_sorted_names_unique(s1, t1);
        assert(s =~= seq![s[0]] + s1);
        assert(t =~= seq![t[0]] + t1);
    }
}

/// Every index names a vertex of the shared buffer: each frame's indices are
/// offset by where its vertices start.
pub proof fn law_every_index_names_a_shared_vertex(
    book: MeshBook,
    assets: Seq<(String, Vec<Image>)>,
    options: VoxelOptions,
)
    requires
        book.built_from(assets, options),
    ensures
        forall|p: int| 0 <= p < book.indices@.len() ==> #[trigger] book.indices@[p] < book.vertices@.len(),
{
    reveal(MeshBook::lays_out);
    reveal(MeshBook::holds);
}

/// The ranges tile the index buffer: in the book's order each frame's span
/// starts where the spans before it end, and together they reach the end of
/// the buffer. A frame left out has an empty span.
pub proof fn law_spans_tile_the_index_buffer(
    book: MeshBook,
    assets: Seq<(String, Vec<Image>)>,
    options: VoxelOptions,
)
    requires
        book.built_from(assets, options),
    ensures
        forall|x: int|
            0 <= x < book.all_ranges().len() ==> (#[trigger] book.all_ranges()[x]).index_count == 0
                || book.all_ranges()[x].first_index == index_total(book.all_ranges().take(x)),
        index_total(book.all_ranges()) == book.indices@.len(),
{
    reveal(MeshBook::lays_out);
    let rs = book.all_ranges();
    let frames = book.frames_in_order(assets);
    assert forall|x: int| 0 <= x < rs.len() implies (#[trigger] rs[x]).index_count == 0
        || rs[x].first_index == index_total(rs.take(x)) by {
        lemma_index_total_is_layout(rs, frames, options, x);
        assert(frames.take(x).len() == x);
    }
    lemma_index_total_is_layout(rs, frames, options, rs.len() as int);
    assert(rs.take(rs.len() as int) =~= rs);
    assert(frames.take(frames.len() as int) =~= frames);
    reveal(MeshBook::holds);
}

/// A frame index past the end wraps around the asset's frames rather than
/// drawing nothing.
pub proof fn law_frame_index_wraps(book: MeshBook, asset: Seq<char>, frame: int, k: int)
    requires
        book.wf(),
        0 <= frame,
        0 <= k < book.entries().len(),
        book.entries()[k].0 == asset,
    ensures
        book.range_of(asset, frame + book.entries()[k].1.len()) == book.range_of(asset, frame),
{
    let es = book.entries();
    assert(es[k].0 == asset);
    let c = book.entry_index(asset);
    if c != k {
        if c < k {
            assert(text_less(es[c].0, es[k].0));
        } else {
            assert(text_less(es[k].0, es[c].0));
        }
        lemma_text_less_irreflexive(asset);
    }
    let n = es[k].1.len() as int;
    if n > 0 {
        assert((frame + n) % n == frame % n) by (nonlinear_arith)
            requires
                n > 0,
                frame >= 0,
        ;
        assert(book.range_of(asset, frame) == Some(es[k].1[frame % n]));
        assert(book.range_of(asset, frame + n) == Some(es[k].1[(frame + n) % n]));
    }
}

/// Every frame of every asset has a range, carrying the voxel grid it was
/// built on.
#[verifier::rlimit(40)]
pub proof fn law_every_frame_has_a_range(
    book: MeshBook,
    assets: Seq<(String, Vec<Image>)>,
    options: VoxelOptions,
    i: int,
    f: int,
)
    requires
        book.built_from(assets, options),
        names_distinct(assets),
        0 <= i < assets.len(),
        0 <= f < assets[i].1@.len(),
    ensures
        book.range_of(assets[i].0@, f) matches Some(range) && {
            let g = spec_fit(assets[i].1@[f]@, options.max_width as nat);
            range.extent@ == seq![g.cols as u32, g.rows as u32, depth_of(options) as u32]
        },
{
    reveal(MeshBook::orders_names);
    reveal(MeshBook::lays_out);
    let es = book.entries();
    let name = assets[i].0@;
    let k = choose|k: int| 0 <= k < es.len() && #[trigger] es[k].0 == (#[trigger] assets[i]).0@;
    assert(es[k].0 == name);
    let c = book.entry_index(name);
    if c != k {
        if c < k {
            assert(text_less(es[c].0, es[k].0));
        } else {
            assert(text_less(es[k].0, es[c].0));
        }
        lemma_text_less_irreflexive(name);
    }
    lemma_index_named(assets, i);
    let n = es[k].1.len() as int;
    assert(n == assets[i].1@.len());
    assert(f % n == f) by (nonlinear_arith)
        requires
            0 <= f < n,
    ;
    let rparts = book.entry_ranges();
    let fparts = book.entry_frames(assets);
    lemma_joined_index(rparts, k, f);
    lemma_joined_index(fparts, k, f);
    lemma_joined_len(rparts.take(k), fparts.take(k));
    let x = joined(rparts.take(k)).len() + f;
    let frames = book.frames_in_order(assets);
    assert(book.all_ranges() == joined(rparts));
    assert(frames == joined(fparts));
    assert(book.all_ranges()[x] == es[k].1[f]);
    assert(frames[x] == assets[i].1@[f]@);
    assert(0 <= x < frames.len());
    assert(lands_at(book.all_ranges()[x], frames.take(x), frames[x], options));
}

proof fn lemma_names_of_entries(book: MeshBook, assets: Seq<(String, Vec<Image>)>)
    requires
        book.orders_names(assets),
    ensures
        ({
            let s = Seq::new(book.entries().len(), |k: int| book.entries()[k].0);
            let names = Seq::new(assets.len(), |i: int| assets[i].0@);
            &&& s.len() == names.len()
            &&& forall|k: int, l: int| 0 <= k < l < s.len() ==> text_less(#[trigger] s[k], #[trigger] s[l])
            &&& forall|k: int| 0 <= k < s.len() ==> #[trigger] names.contains(s[k])
            &&& forall|i: int| 0 <= i < names.len() ==> #[trigger] s.contains(names[i])
        }),
{
    reveal(MeshBook::orders_names);
    let s = Seq::new(book.entries().len(), |k: int| book.entries()[k].0);
    let names = Seq::new(assets.len(), |i: int| assets[i].0@);
    assert forall|k: int| 0 <= k < s.len() implies #[trigger] names.contains(s[k]) by {
        let i = choose|i: int|
            0 <= i < assets.len() && #[trigger] book.entries()[k].0 == (#[trigger] assets[i]).0@;
        assert(names[i] == s[k]);
    }
    assert forall|i: int| 0 <= i < names.len() implies #[trigger] s.contains(names[i]) by {
        let k = choose|k: int|
            0 <= k < book.entries().len() && #[trigger] book.entries()[k].0 == (#[trigger] assets[i]).0@;
        assert(s[k] == names[i]);
    }
}

proof fn lemma_same_cover(s: Seq<Seq<char>>, t: Seq<Seq<char>>, names: Seq<Seq<char>>)
    requires
        s.len() == names.len(),
        t.len() == names.len(),
        forall|k: int| 0 <= k < s.len() ==> #[trigger] names.contains(s[k]),
        forall|i: int| 0 <= i < names.len() ==> #[trigger] s.contains(names[i]),
        forall|k: int| 0 <= k < t.len() ==> #[trigger] names.contains(t[k]),
        forall|i: int| 0 <= i < names.len() ==> #[trigger] t.contains(names[i]),
    ensures
        forall|k: int| 0 <= k < s.len() ==> #[trigger] t.contains(s[k]),
        forall|k: int| 0 <= k < t.len() ==> #[trigger] s.contains(t[k]),
{
    assert forall|k: int| 0 <= k < s.len() implies #[trigger] t.contains(s[k]) by {
        assert(names.contains(s[k]));
        let i = choose|i: int| 0 <= i < names.len() && names[i] == s[k];
        assert(t.contains(names[i]));
    }
    assert forall|k: int| 0 <= k < t.len() implies #[trigger] s.contains(t[k]) by {
        assert(names.contains(t[k]));
        let i = choose|i: int| 0 <= i < names.len() && names[i] == t[k];
        assert(s.contains(names[i]));
    }
}

proof fn lemma_same_order(a: MeshBook, b: MeshBook, assets: Seq<(String, Vec<Image>)>)
    requires
        a.orders_names(assets),
        b.orders_names(assets),
    ensures
        a.entries().len() == b.entries().len(),
        forall|k: int| 0 <= k < a.entries().len() ==> #[trigger] a.entries()[k].0 == b.entries()[k].0,
{
    let s = Seq::new(a.entries().len(), |k: int| a.entries()[k].0);
    let t = Seq::new(b.entries().len(), |k: int| b.entries()[k].0);
    let names = Seq::new(assets.len(), |i: int| assets[i].0@);
    lemma_names_of_entries(a, assets);
    lemma_names_of_entries(b, assets);
    lemma_same_cover(s, t, names);
    lemma_sorted_names_unique(s, t);
    assert forall|k: int| 0 <= k < a.entries().len() implies #[trigger] a.entries()[k].0
        == b.entries()[k].0 by {
        assert(s[k] == t[k]);
    }
}

proof fn lemma_same_spans(
    a: MeshBook,
    b: MeshBook,
    frames: Seq<ImageModel>,
    a_options: VoxelOptions,
    b_options: VoxelOptions,
    x: int,
)
    requires
        a_options.max_width == b_options.max_width,
        0 <= x < frames.len(),
        lands_at(a.all_ranges()[x], frames.take(x), frames[x], a_options),
        lands_at(b.all_ranges()[x], frames.take(x), frames[x], b_options),
    ensures
        ({
            let ra = a.all_ranges()[x];
            let rb = b.all_ranges()[x];
            &&& ra.first_index == rb.first_index
            &&& ra.index_count == rb.index_count
            &&& ra.extent[0] == rb.extent[0]
            &&& ra.extent[1] == rb.extent[1]
            &&& ra.extent[2] == depth_of(a_options)
            &&& rb.extent[2] == depth_of(b_options)
        }),
{
    lemma_layout_ignores_depth(frames.take(x), a_options, b_options);
    let ra = a.all_ranges()[x];
    let rb = b.all_ranges()[x];
    assert(ra.extent[0] == ra.extent@[0]);
    assert(rb.extent[0] == rb.extent@[0]);
    assert(ra.extent[1] == ra.extent@[1]);
    assert(rb.extent[1] == rb.extent@[1]);
    assert(ra.extent[2] == ra.extent@[2]);
    assert(rb.extent[2] == rb.extent@[2]);
}

/// The slab's depth is not a face count: books built at two depths from the
/// same assets and width lay out the same spans, and differ only in the depth
/// their ranges carry.
pub proof fn law_depth_is_not_a_face_count(
    thin: MeshBook,
    thick: MeshBook,
    assets: Seq<(String, Vec<Image>)>,
    thin_options: VoxelOptions,
    thick_options: VoxelOptions,
)
    requires
        thin.built_from(assets, thin_options),
        thick.built_from(assets, thick_options),
        thin_options.max_width == thick_options.max_width,
    ensures
        thin.indices@.len() == thick.indices@.len(),
        thin.vertices@.len() == thick.vertices@.len(),
        thin.skipped_frames == thick.skipped_frames,
        thin.all_ranges().len() == thick.all_ranges().len(),
        forall|x: int|
            0 <= x < thin.all_ranges().len() ==> {
                let a = #[trigger] thin.all_ranges()[x];
                let b = thick.all_ranges()[x];
                &&& a.first_index == b.first_index
                &&& a.index_count == b.index_count
                &&& a.extent[0] == b.extent[0]
                &&& a.extent[1] == b.extent[1]
                &&& a.extent[2] == depth_of(thin_options)
                &&& b.extent[2] == depth_of(thick_options)
            },
{
    lemma_same_order(thin, thick, assets);
    reveal(MeshBook::lays_out);
    let fa = thin.frames_in_order(assets);
    let fb = thick.frames_in_order(assets);
    assert(thin.entry_frames(assets) =~= thick.entry_frames(assets));
    assert(fa == fb);
    lemma_layout_ignores_depth(fa, thin_options, thick_options);
    reveal(MeshBook::holds);
    assert forall|x: int| 0 <= x < thin.all_ranges().len() implies {
        let a = #[trigger] thin.all_ranges()[x];
        let b = thick.all_ranges()[x];
        &&& a.first_index == b.first_index
        &&& a.index_count == b.index_count
        &&& a.extent[0] == b.extent[0]
        &&& a.extent[1] == b.extent[1]
        &&& a.extent[2] == depth_of(thin_options)
        &&& b.extent[2] == depth_of(thick_options)
    } by {
        assert(lands_at(thin.all_ranges()[x], fa.take(x), fa[x], thin_options));
        assert(lands_at(thick.all_ranges()[x], fa.take(x), fa[x], thick_options));
        lemma_same_spans(thin, thick, fa, thin_options, thick_options, x);
    }
}

} // verus!
