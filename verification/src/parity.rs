//! Sprite sets as text, for comparing a generator's output with a golden copy:
//! a frame becomes rows of pixels, each its RGB in hex or `------` when
//! transparent; the checks name the first way two sets differ.

use vstd::prelude::*;
use crate::raster::{Image, ImageModel};
use crate::meshbook::{joined, lemma_joined_push};
use crate::text::{lemma_split_snoc, lemma_split_whole};
use crate::text::{
    chars_of, decimal, digit_char, push_decimal, same_text, sorted_positions, split, split_chars,
    string_of, text_less,
};

verus! {

/// How a transparent pixel is written.
pub const TRANSPARENT: &'static str = "------";

/// A complete set of frames for one asset, with the frames each state
/// animates through.
pub struct SpriteSet {
    pub frames: Vec<Image>,
    /// State name and its indices into `frames`, each name once.
    pub layout: Vec<(String, Vec<usize>)>,
    pub width: u32,
    pub height: u32,
}

/// A layout as values.
pub open spec fn layout_model(layout: Seq<(String, Vec<usize>)>) -> Seq<(Seq<char>, Seq<usize>)> {
    layout.map_values(|e: (String, Vec<usize>)| (e.0@, e.1@))
}

impl SpriteSet {
    /// The frames a state animates through; `[0]` for a state the set does
    /// not have, so a manifest naming a missing state still draws something.
    pub fn frames_for(&self, state: &str) -> (frames: Vec<usize>)
        ensures
            (exists|k: int| 0 <= k < self.layout@.len() && #[trigger] self.layout@[k].0@ == state@)
                ==> exists|k: int|
                0 <= k < self.layout@.len() && #[trigger] self.layout@[k].0@ == state@ && frames@
                    == self.layout@[k].1@ && forall|j: int|
                    0 <= j < k ==> self.layout@[j].0@ != state@,
            !(exists|k: int| 0 <= k < self.layout@.len() && #[trigger] self.layout@[k].0@ == state@)
                ==> frames@ == seq![0usize],
    {
        let mut k: usize = 0;
        while k < self.layout.len()
            invariant
                k <= self.layout@.len(),
                forall|j: int| 0 <= j < k ==> (#[trigger] self.layout@[j]).0@ != state@,
            decreases self.layout@.len() - k,
        {
            if same_text(self.layout[k].0.as_str(), state) {
                return self.layout[k].1.clone();
            }
            k = k + 1;
        }
        vec![0]
    }
}

/// A hexadecimal digit, lower case.
pub open spec fn hex_digit(d: nat) -> char {
    if d < 10 {
        digit_char(d)
    } else {
        ((d + 87) as u32) as char
    }
}

/// A byte as two hexadecimal digits.
pub open spec fn hex_pair(b: u8) -> Seq<char> {
    seq![hex_digit((b / 16) as nat), hex_digit((b % 16) as nat)]
}

/// A pixel as its RGB in hex, or `------` when it is fully transparent.
pub open spec fn pixel_text(p: Seq<u8>) -> Seq<char> {
    if p[3] == 0 {
        "------"@
    } else {
        hex_pair(p[0]) + hex_pair(p[1]) + hex_pair(p[2])
    }
}

/// The first `n` pixels of row `y`, with `,` between them.
pub open spec fn row_text(frame: ImageModel, y: int, n: nat) -> Seq<char>
    decreases n,
{
    if n == 0 {
        Seq::empty()
    } else if n == 1 {
        pixel_text(frame.pixel(0, y))
    } else {
        row_text(frame, y, (n - 1) as nat) + ","@ + pixel_text(frame.pixel(n - 1, y))
    }
}

/// The first `rows` rows of a frame, `width` pixels each, with `;` between
/// them.
pub open spec fn frame_text(frame: ImageModel, width: nat, rows: nat) -> Seq<char>
    decreases rows,
{
    if rows == 0 {
        Seq::empty()
    } else if rows == 1 {
        row_text(frame, 0, width)
    } else {
        frame_text(frame, width, (rows - 1) as nat) + ";"@ + row_text(frame, rows - 1, width)
    }
}

fn hex_digit_text(d: u8) -> (out: &'static str)
    requires
        d < 16,
    ensures
        out@ == seq![hex_digit(d as nat)],
{
    proof {
        reveal_strlit("0");
        reveal_strlit("1");
        reveal_strlit("2");
        reveal_strlit("3");
        reveal_strlit("4");
        reveal_strlit("5");
        reveal_strlit("6");
        reveal_strlit("7");
        reveal_strlit("8");
        reveal_strlit("9");
        reveal_strlit("a");
        reveal_strlit("b");
        reveal_strlit("c");
        reveal_strlit("d");
        reveal_strlit("e");
        reveal_strlit("f");
    }
    if d == 0 {
        "0"
    } else if d == 1 {
        "1"
    } else if d == 2 {
        "2"
    } else if d == 3 {
        "3"
    } else if d == 4 {
        "4"
    } else if d == 5 {
        "5"
    } else if d == 6 {
        "6"
    } else if d == 7 {
        "7"
    } else if d == 8 {
        "8"
    } else if d == 9 {
        "9"
    } else if d == 10 {
        "a"
    } else if d == 11 {
        "b"
    } else if d == 12 {
        "c"
    } else if d == 13 {
        "d"
    } else if d == 14 {
        "e"
    } else {
        "f"
    }
}

fn push_hex_pair(out: &mut String, b: u8)
    ensures
        final(out)@ == old(out)@ + hex_pair(b),
{
    out.append(hex_digit_text(b / 16));
    out.append(hex_digit_text(b % 16));
    assert(final(out)@ =~= old(out)@ + hex_pair(b));
}

fn push_pixel(out: &mut String, p: [u8; 4])
    ensures
        final(out)@ == old(out)@ + pixel_text(p@),
{
    if p[3] == 0 {
        out.append(TRANSPARENT);
    } else {
        push_hex_pair(out, p[0]);
        push_hex_pair(out, p[1]);
        push_hex_pair(out, p[2]);
        assert(final(out)@ =~= old(out)@ + pixel_text(p@));
    }
}

/// A frame's first `height` rows of `width` pixels as text.
pub fn frame_dump(frame: &Image, width: u32, height: u32) -> (text: String)
    requires
        frame.wf(),
        width <= frame@.width,
        height <= frame@.height,
    ensures
        text@ == frame_text(frame@, width as nat, height as nat),
{
    let mut text = String::from_str("");
    proof {
        reveal_strlit("");
    }
    let mut y: u32 = 0;
    while y < height
        invariant
            frame.wf(),
            width <= frame@.width,
            height <= frame@.height,
            y <= height,
            text@ == frame_text(frame@, width as nat, y as nat),
        decreases height - y,
    {
        if y > 0 {
            text.append(";");
        }
        let ghost before = text@;
        let mut x: u32 = 0;
        while x < width
            invariant
                frame.wf(),
                width <= frame@.width,
                y < frame@.height,
                x <= width,
                text@ == before + row_text(frame@, y as int, x as nat),
            decreases width - x,
        {
            if x > 0 {
                text.append(",");
            }
            let pixel = frame.get_pixel(x, y);
            push_pixel(&mut text, pixel);
            proof {
                if x == 0 {
                    assert(text@ =~= before + row_text(frame@, y as int, 1));
                } else {
                    assert(text@ =~= before + row_text(frame@, y as int, (x + 1) as nat));
                }
            }
            x = x + 1;
        }
        proof {
            if y == 0 {
                assert(text@ =~= frame_text(frame@, width as nat, 1));
            } else {
                assert(text@ =~= frame_text(frame@, width as nat, (y + 1) as nat));
            }
        }
        y = y + 1;
    }
    text
}

/// A sprite set reduced to what a parity check compares: its size, its
/// layout by state name in increasing order, and each frame as text.
pub struct AssetDump {
    pub name: String,
    pub width: u32,
    pub height: u32,
    pub layout: Vec<(String, Vec<usize>)>,
    pub frames: Vec<String>,
}

/// The set's frames that `dump` can read: each holds the set's size.
pub open spec fn dumpable(set: SpriteSet) -> bool {
    &&& forall|f: int|
        0 <= f < set.frames@.len() ==> {
            &&& (#[trigger] set.frames@[f]).wf()
            &&& set.width <= set.frames@[f]@.width
            &&& set.height <= set.frames@[f]@.height
        }
    &&& forall|i: int, j: int|
        0 <= i < set.layout@.len() && 0 <= j < set.layout@.len() && i != j ==> set.layout@[i].0@
            != set.layout@[j].0@
}

/// Reduces the set called `name` to text.
pub fn dump(name: &str, set: &SpriteSet) -> (out: AssetDump)
    requires
        dumpable(*set),
    ensures
        out.name@ == name@,
        out.width == set.width,
        out.height == set.height,
        dumps_frames(out, *set),
        out.layout@.len() == set.layout@.len(),
        forall|k: int, l: int|
            0 <= k < l < out.layout@.len() ==> text_less(
                (#[trigger] out.layout@[k]).0@,
                (#[trigger] out.layout@[l]).0@,
            ),
        forall|k: int|
            0 <= k < out.layout@.len() ==> layout_model(set.layout@).contains(
                #[trigger] layout_model(out.layout@)[k],
            ),
        forall|i: int|
            0 <= i < set.layout@.len() ==> layout_model(out.layout@).contains(
                #[trigger] layout_model(set.layout@)[i],
            ),
{
    let mut frames: Vec<String> = Vec::new();
    let mut f: usize = 0;
    while f < set.frames.len()
        invariant
            dumpable(*set),
            f <= set.frames@.len(),
            frames@.len() == f,
            forall|g: int|
                0 <= g < f ==> (#[trigger] frames@[g])@ == frame_text(
                    set.frames@[g]@,
                    set.width as nat,
                    set.height as nat,
                ),
        decreases set.frames@.len() - f,
    {
        frames.push(frame_dump(&set.frames[f], set.width, set.height));
        f = f + 1;
    }
    let mut names: Vec<&str> = Vec::new();
    let mut k: usize = 0;
    while k < set.layout.len()
        invariant
            k <= set.layout@.len(),
            names@.len() == k,
            forall|j: int| 0 <= j < k ==> (#[trigger] names@[j])@ == set.layout@[j].0@,
        decreases set.layout@.len() - k,
    {
        names.push(set.layout[k].0.as_str());
        k = k + 1;
    }
    let order = sorted_positions(&names);
    let mut layout: Vec<(String, Vec<usize>)> = Vec::new();
    let mut m: usize = 0;
    while m < order.len()
        invariant
            m <= order@.len(),
            order@.len() == set.layout@.len(),
            names@.len() == set.layout@.len(),
            forall|j: int| 0 <= j < names@.len() ==> (#[trigger] names@[j])@ == set.layout@[j].0@,
            forall|a: int| 0 <= a < order@.len() ==> #[trigger] order@[a] < names@.len(),
            layout@.len() == m,
            forall|j: int|
                0 <= j < m ==> #[trigger] layout_model(layout@)[j] == layout_model(set.layout@)[order@[j] as int],
        decreases order@.len() - m,
    {
        let i = order[m];
        let entry = (set.layout[i].0.clone(), set.layout[i].1.clone());
        assert(entry.0@ == set.layout@[i as int].0@);
        assert(entry.1@ == set.layout@[i as int].1@);
        let ghost before = layout@;
        layout.push(entry);
        proof {
            assert forall|j: int| 0 <= j < m + 1 implies #[trigger] layout_model(layout@)[j]
                == layout_model(set.layout@)[order@[j] as int] by {
                if j < m {
                    assert(layout@[j] == before[j]);
                    assert(layout_model(before)[j] == layout_model(set.layout@)[order@[j] as int]);
                } else {
                    assert(layout@[j] == entry);
                }
            }
        }
        m = m + 1;
    }
    proof {
        assert forall|k: int, l: int| 0 <= k < l < layout@.len() implies text_less(
            (#[trigger] layout@[k]).0@,
            (#[trigger] layout@[l]).0@,
        ) by {
            assert(layout_model(layout@)[k] == layout_model(set.layout@)[order@[k] as int]);
            assert(layout_model(layout@)[l] == layout_model(set.layout@)[order@[l] as int]);
            assert(names@[order@[k] as int]@ == set.layout@[order@[k] as int].0@);
            assert(names@[order@[l] as int]@ == set.layout@[order@[l] as int].0@);
        }
    }
    let out = AssetDump { name: String::from_str(name), width: set.width, height: set.height, layout, frames };
    assert forall|k: int| 0 <= k < out.layout@.len() implies layout_model(set.layout@).contains(
        #[trigger] layout_model(out.layout@)[k],
    ) by {
        let i = order@[k] as int;
        assert(layout_model(out.layout@)[k] == layout_model(set.layout@)[i]);
    }
    assert forall|i: int| 0 <= i < set.layout@.len() implies layout_model(out.layout@).contains(
        #[trigger] layout_model(set.layout@)[i],
    ) by {
        assert(order@.contains(i as usize));
        let k = choose|k: int| 0 <= k < order@.len() && order@[k] == i as usize;
        assert(layout_model(out.layout@)[k] == layout_model(set.layout@)[i]);
    }
    out
}

/// The first position below `n` where `w` and `g` differ.
pub open spec fn first_diff<A>(w: Seq<A>, g: Seq<A>, n: nat) -> Option<int>
    decreases n,
{
    if n == 0 {
        None
    } else {
        match first_diff(w, g, (n - 1) as nat) {
            Some(p) => Some(p),
            None => if w[n - 1] != g[n - 1] {
                Some(n - 1)
            } else {
                None
            },
        }
    }
}

pub open spec fn min_len(a: nat, b: nat) -> nat {
    if a < b {
        a
    } else {
        b
    }
}

/// The frames' texts as values.
pub open spec fn frame_texts(dump: AssetDump) -> Seq<Seq<char>> {
    dump.frames@.map_values(|f: String| f@)
}

/// What disagrees first between two dumps' shapes: width, height, layout,
/// then the number of frames.
pub open spec fn shape_mismatch(name: Seq<char>, expected: AssetDump, actual: AssetDump) -> Option<
    Seq<char>,
> {
    if expected.width != actual.width {
        Some(
            name + ": golden is "@ + decimal(expected.width as nat) + " wide, generator produced "@
                + decimal(actual.width as nat),
        )
    } else if expected.height != actual.height {
        Some(
            name + ": golden is "@ + decimal(expected.height as nat) + " tall, generator produced "@
                + decimal(actual.height as nat),
        )
    } else if layout_model(expected.layout@) != layout_model(actual.layout@) {
        Some(name + ": the state-to-frame layout changed"@)
    } else if expected.frames@.len() != actual.frames@.len() {
        Some(
            name + ": golden has "@ + decimal(expected.frames@.len()) + " frames, generator produced "@
                + decimal(actual.frames@.len()),
        )
    } else {
        None
    }
}

fn same_indices(a: &Vec<usize>, b: &Vec<usize>) -> (same: bool)
    ensures
        same == (a@ == b@),
{
    if a.len() != b.len() {
        return false;
    }
    let mut i: usize = 0;
    while i < a.len()
        invariant
            a@.len() == b@.len(),
            i <= a@.len(),
            forall|j: int| 0 <= j < i ==> a@[j] == b@[j],
        decreases a@.len() - i,
    {
        if a[i] != b[i] {
            return false;
        }
        i = i + 1;
    }
    assert(a@ =~= b@);
    true
}

fn same_layout(a: &Vec<(String, Vec<usize>)>, b: &Vec<(String, Vec<usize>)>) -> (same: bool)
    ensures
        same == (layout_model(a@) == layout_model(b@)),
{
    if a.len() != b.len() {
        assert(layout_model(a@).len() != layout_model(b@).len());
        return false;
    }
    let mut i: usize = 0;
    while i < a.len()
        invariant
            a@.len() == b@.len(),
            i <= a@.len(),
            forall|j: int| 0 <= j < i ==> #[trigger] layout_model(a@)[j] == layout_model(b@)[j],
        decreases a@.len() - i,
    {
        if !same_text(a[i].0.as_str(), b[i].0.as_str()) || !same_indices(&a[i].1, &b[i].1) {
            assert(layout_model(a@)[i as int] != layout_model(b@)[i as int]);
            return false;
        }
        assert(layout_model(a@)[i as int] == layout_model(b@)[i as int]);
        i = i + 1;
    }
    assert(layout_model(a@) =~= layout_model(b@));
    true
}

/// Checks that two dumps have the same size, layout and frame count; the
/// error names the first thing that differs.
pub fn assert_shape(name: &str, expected: &AssetDump, actual: &AssetDump) -> (out: Result<(), String>)
    ensures
        match shape_mismatch(name@, *expected, *actual) {
            None => out is Ok,
            Some(message) => out matches Err(e) && e@ == message,
        },
{
    let mut message = String::from_str(name);
    if expected.width != actual.width {
        message.append(": golden is ");
        push_decimal(&mut message, expected.width as u64);
        message.append(" wide, generator produced ");
        push_decimal(&mut message, actual.width as u64);
        return Err(message);
    }
    if expected.height != actual.height {
        message.append(": golden is ");
        push_decimal(&mut message, expected.height as u64);
        message.append(" tall, generator produced ");
        push_decimal(&mut message, actual.height as u64);
        return Err(message);
    }
    if !same_layout(&expected.layout, &actual.layout) {
        message.append(": the state-to-frame layout changed");
        return Err(message);
    }
    if expected.frames.len() != actual.frames.len() {
        message.append(": golden has ");
        push_decimal(&mut message, expected.frames.len() as u64);
        message.append(" frames, generator produced ");
        push_decimal(&mut message, actual.frames.len() as u64);
        return Err(message);
    }
    Ok(())
}

/// A frame's text cut at every `;` and `,`: its pixels, row after row.
pub open spec fn pixel_pieces(text: Seq<char>) -> Seq<Seq<char>> {
    let rows = split(text, ';');
    joined(Seq::new(rows.len(), |r: int| split(rows[r], ',')))
}

/// The frame pair that differs first, and the pixel in it that differs
/// first.
pub open spec fn pixel_difference(expected: AssetDump, actual: AssetDump) -> Option<(int, int)> {
    let w = frame_texts(expected);
    let g = frame_texts(actual);
    match first_diff(w, g, min_len(w.len(), g.len())) {
        None => None,
        Some(i) => {
            let wp = pixel_pieces(w[i]);
            let gp = pixel_pieces(g[i]);
            match first_diff(wp, gp, min_len(wp.len(), gp.len())) {
                None => None,
                Some(p) => Some((i, p)),
            }
        },
    }
}

/// Whether some frame pair differs but no pixel in the first such pair
/// does, which leaves no pixel to name.
pub open spec fn pixels_unnameable(expected: AssetDump, actual: AssetDump) -> bool {
    let w = frame_texts(expected);
    let g = frame_texts(actual);
    first_diff(w, g, min_len(w.len(), g.len())) is Some && pixel_difference(expected, actual) is None
}

/// The message naming pixel `p` of frame `i`, where `actual` is `width`
/// pixels wide.
pub open spec fn pixel_message(name: Seq<char>, i: int, wanted: Seq<char>, got: Seq<char>, p: int, width: u32) -> Seq<char> {
    name + " frame "@ + decimal(i as nat) + ": pixel at ("@ + decimal(((p as u32) % width) as nat)
        + ", "@ + decimal(((p as u32) / width) as nat) + ") is "@ + wanted + " in the golden and "@
        + got + " from the generator"@
}

fn pieces_of(text: &String) -> (out: Vec<Vec<char>>)
    ensures
        out@.len() == pixel_pieces(text@).len(),
        forall|k: int| 0 <= k < out@.len() ==> #[trigger] out@[k]@ == pixel_pieces(text@)[k],
{
    let chars = chars_of(text.as_str());
    let rows = split_chars(&chars, ';');
    let ghost row_views = split(text@, ';');
    let ghost parts = Seq::new(row_views.len(), |r: int| split(row_views[r], ','));
    let mut out: Vec<Vec<char>> = Vec::new();
    let mut r: usize = 0;
    proof {
        assert(parts.take(0) =~= Seq::<Seq<Seq<char>>>::empty());
        assert(out@.map_values(|v: Vec<char>| v@) =~= joined(parts.take(0)));
    }
    while r < rows.len()
        invariant
            row_views == split(text@, ';'),
            parts == Seq::new(row_views.len(), |r: int| split(row_views[r], ',')),
            rows@.len() == row_views.len(),
            forall|k: int| 0 <= k < rows@.len() ==> #[trigger] rows@[k]@ == row_views[k],
            r <= rows@.len(),
            out@.map_values(|v: Vec<char>| v@) == joined(parts.take(r as int)),
        decreases rows@.len() - r,
    {
        let cells = split_chars(&rows[r], ',');
        let ghost before = out@.map_values(|v: Vec<char>| v@);
        let mut c: usize = 0;
        while c < cells.len()
            invariant
                c <= cells@.len(),
                out@.map_values(|v: Vec<char>| v@) == before + cells@.map_values(|v: Vec<char>| v@).take(
                    c as int,
                ),
            decreases cells@.len() - c,
        {
            let cell = cells[c].clone();
            assert(cell@ == cells@[c as int]@);
            let ghost old_out = out@;
            out.push(cell);
            proof {
                assert(out@ =~= old_out.push(cell));
                assert(out@.map_values(|v: Vec<char>| v@) =~= old_out.map_values(|v: Vec<char>| v@).push(cell@));
                assert(cells@.map_values(|v: Vec<char>| v@).take(c + 1) =~= cells@.map_values(
                    |v: Vec<char>| v@,
                ).take(c as int).push(cells@[c as int]@));
                assert(out@.map_values(|v: Vec<char>| v@) =~= before + cells@.map_values(
                    |v: Vec<char>| v@,
                ).take(c + 1));
            }
            c = c + 1;
        }
        proof {
            assert(cells@.map_values(|v: Vec<char>| v@).take(cells@.len() as int) =~= split(row_views[r as int], ','));
            assert(parts.take(r + 1) =~= parts.take(r as int).push(parts[r as int]));
            lemma_joined_push(parts.take(r as int), parts[r as int]);
        }
        r = r + 1;
    }
    proof {
        assert(parts.take(rows@.len() as int) =~= parts);
    }
    out
}

fn same_chars(a: &Vec<char>, b: &Vec<char>) -> (same: bool)
    ensures
        same == (a@ == b@),
{
    if a.len() != b.len() {
        return false;
    }
    let mut i: usize = 0;
    while i < a.len()
        invariant
            a@.len() == b@.len(),
            i <= a@.len(),
            forall|j: int| 0 <= j < i ==> a@[j] == b@[j],
        decreases a@.len() - i,
    {
        if a[i] != b[i] {
            return false;
        }
        i = i + 1;
    }
    assert(a@ =~= b@);
    true
}

proof fn lemma_first_diff_step<A>(w: Seq<A>, g: Seq<A>, n: nat)
    requires
        first_diff(w, g, n) is None,
    ensures
        first_diff(w, g, n + 1) == (if w[n as int] != g[n as int] {
            Some(n as int)
        } else {
            None::<int>
        }),
{
    assert(((n + 1) - 1) as nat == n);
}

/// Checks two dumps pixel for pixel, frame pair by frame pair; the error
/// names the first pixel that differs in the first pair of frames that
/// differ, by column and row of `actual`.
pub fn assert_pixels(name: &str, expected: &AssetDump, actual: &AssetDump) -> (out: Result<(), String>)
    requires
        !pixels_unnameable(*expected, *actual),
        pixel_difference(*expected, *actual) is Some ==> actual.width > 0,
    ensures
        match pixel_difference(*expected, *actual) {
            None => out is Ok,
            Some((i, p)) => out matches Err(e) && e@ == pixel_message(
                name@,
                i,
                pixel_pieces(frame_texts(*expected)[i])[p],
                pixel_pieces(frame_texts(*actual)[i])[p],
                p,
                actual.width,
            ),
        },
{
    let ghost w = frame_texts(*expected);
    let ghost g = frame_texts(*actual);
    let n = if expected.frames.len() < actual.frames.len() {
        expected.frames.len()
    } else {
        actual.frames.len()
    };
    let mut i: usize = 0;
    while i < n
        invariant
            w == frame_texts(*expected),
            g == frame_texts(*actual),
            n == min_len(w.len(), g.len()),
            i <= n,
            first_diff(w, g, i as nat) is None,
            !pixels_unnameable(*expected, *actual),
            pixel_difference(*expected, *actual) is Some ==> actual.width > 0,
        decreases n - i,
    {
        proof {
            lemma_first_diff_step(w, g, i as nat);
        }
        if !same_text(expected.frames[i].as_str(), actual.frames[i].as_str()) {
            assert(w[i as int] == expected.frames@[i as int]@);
            assert(g[i as int] == actual.frames@[i as int]@);
            let wp = pieces_of(&expected.frames[i]);
            let gp = pieces_of(&actual.frames[i]);
            let ghost wpv = pixel_pieces(w[i as int]);
            let ghost gpv = pixel_pieces(g[i as int]);
            let m = if wp.len() < gp.len() {
                wp.len()
            } else {
                gp.len()
            };
            let mut p: usize = 0;
            while p < m
                invariant
                    w == frame_texts(*expected),
                    g == frame_texts(*actual),
                    n == min_len(w.len(), g.len()),
                    i < n,
                    first_diff(w, g, i as nat) is None,
                    w[i as int] != g[i as int],
                    !pixels_unnameable(*expected, *actual),
                    pixel_difference(*expected, *actual) is Some ==> actual.width > 0,
                    wpv == pixel_pieces(w[i as int]),
                    gpv == pixel_pieces(g[i as int]),
                    wp@.len() == wpv.len(),
                    gp@.len() == gpv.len(),
                    forall|k: int| 0 <= k < wp@.len() ==> #[trigger] wp@[k]@ == wpv[k],
                    forall|k: int| 0 <= k < gp@.len() ==> #[trigger] gp@[k]@ == gpv[k],
                    m == min_len(wpv.len(), gpv.len()),
                    p <= m,
                    first_diff(wpv, gpv, p as nat) is None,
                decreases m - p,
            {
                proof {
                    lemma_first_diff_step(wpv, gpv, p as nat);
                }
                if !same_chars(&wp[p], &gp[p]) {
                    assert(wp@[p as int]@ == wpv[p as int]);
                    assert(gp@[p as int]@ == gpv[p as int]);
                    proof {
                        lemma_first_diff_extends(wpv, gpv, (p + 1) as nat, m as nat);
                        lemma_first_diff_extends(w, g, (i + 1) as nat, n as nat);
                    }
                    let index = p as u32;
                    let column = index % actual.width;
                    let row = index / actual.width;
                    let mut message = String::from_str(name);
                    message.append(" frame ");
                    push_decimal(&mut message, i as u64);
                    message.append(": pixel at (");
                    push_decimal(&mut message, column as u64);
                    message.append(", ");
                    push_decimal(&mut message, row as u64);
                    message.append(") is ");
                    message.append(string_of(&wp[p]).as_str());
                    message.append(" in the golden and ");
                    message.append(string_of(&gp[p]).as_str());
                    message.append(" from the generator");
                    return Err(message);
                }
                p = p + 1;
            }
            proof {
                lemma_first_diff_step(w, g, i as nat);
                lemma_first_diff_extends(w, g, (i + 1) as nat, n as nat);
            }
            assert(false);
        }
        i = i + 1;
    }
    Ok(())
}

proof fn lemma_first_diff_extends<A>(w: Seq<A>, g: Seq<A>, k: nat, n: nat)
    requires
        k <= n,
        first_diff(w, g, k) is Some,
    ensures
        first_diff(w, g, n) == first_diff(w, g, k),
    decreases n - k,
{
    if k < n {
        lemma_first_diff_extends(w, g, k, (n - 1) as nat);
    }
}

/// The first of the first `n` indices that is not below `count`.
pub open spec fn first_out_of_range(indices: Seq<usize>, count: nat, n: nat) -> Option<int>
    decreases n,
{
    if n == 0 {
        None
    } else {
        match first_out_of_range(indices, count, (n - 1) as nat) {
            Some(k) => Some(k),
            None => if indices[n - 1] >= count {
                Some(n - 1)
            } else {
                None
            },
        }
    }
}

/// What is wrong with one state of a set of `count` frames: it animates
/// through no frame, or through one the set does not have.
pub open spec fn entry_problem(name: Seq<char>, state: Seq<char>, indices: Seq<usize>, count: nat) -> Option<
    Seq<char>,
> {
    if indices.len() == 0 {
        Some(name + " state "@ + state + " animates through no frames"@)
    } else {
        match first_out_of_range(indices, count, indices.len()) {
            Some(k) => Some(
                name + " state "@ + state + " indexes frame "@ + decimal(indices[k] as nat) + " of "@
                    + decimal(count),
            ),
            None => None,
        }
    }
}

/// The problem of the first of the first `n` states that has one.
pub open spec fn layout_problem(
    name: Seq<char>,
    layout: Seq<(Seq<char>, Seq<usize>)>,
    count: nat,
    n: nat,
) -> Option<Seq<char>>
    decreases n,
{
    if n == 0 {
        None
    } else {
        match layout_problem(name, layout, count, (n - 1) as nat) {
            Some(problem) => Some(problem),
            None => entry_problem(name, layout[n - 1].0, layout[n - 1].1, count),
        }
    }
}

/// What first keeps `set` from being the declared size, frame count and
/// state count, or from every state animating through frames it has.
pub open spec fn dimension_problem(
    name: Seq<char>,
    set: SpriteSet,
    width: u32,
    height: u32,
    frame_count: usize,
    state_count: usize,
) -> Option<Seq<char>> {
    if set.width != width {
        Some(name + " is not "@ + decimal(width as nat) + " sprite pixels wide"@)
    } else if set.height != height {
        Some(name + " is not "@ + decimal(height as nat) + " tall"@)
    } else if set.frames@.len() != frame_count {
        Some(name + " does not have "@ + decimal(frame_count as nat) + " frames"@)
    } else if set.layout@.len() != state_count {
        Some(name + " does not declare "@ + decimal(state_count as nat) + " states"@)
    } else {
        layout_problem(name, layout_model(set.layout@), set.frames@.len(), set.layout@.len())
    }
}

proof fn lemma_first_out_of_range_step(indices: Seq<usize>, count: nat, n: nat)
    requires
        first_out_of_range(indices, count, n) is None,
    ensures
        first_out_of_range(indices, count, n + 1) == (if indices[n as int] >= count {
            Some(n as int)
        } else {
            None::<int>
        }),
{
    assert(((n + 1) - 1) as nat == n);
}

fn check_entry(name: &str, state: &str, indices: &Vec<usize>, count: usize) -> (out: Option<String>)
    ensures
        match entry_problem(name@, state@, indices@, count as nat) {
            None => out is None,
            Some(problem) => out matches Some(e) && e@ == problem,
        },
{
    if indices.len() == 0 {
        let mut message = String::from_str(name);
        message.append(" state ");
        message.append(state);
        message.append(" animates through no frames");
        return Some(message);
    }
    let mut k: usize = 0;
    while k < indices.len()
        invariant
            k <= indices@.len(),
            first_out_of_range(indices@, count as nat, k as nat) is None,
        decreases indices@.len() - k,
    {
        proof {
            lemma_first_out_of_range_step(indices@, count as nat, k as nat);
        }
        if indices[k] >= count {
            proof {
                lemma_out_of_range_extends(indices@, count as nat, (k + 1) as nat, indices@.len());
            }
            let mut message = String::from_str(name);
            message.append(" state ");
            message.append(state);
            message.append(" indexes frame ");
            push_decimal(&mut message, indices[k] as u64);
            message.append(" of ");
            push_decimal(&mut message, count as u64);
            return Some(message);
        }
        k = k + 1;
    }
    None
}

proof fn lemma_out_of_range_extends(indices: Seq<usize>, count: nat, k: nat, n: nat)
    requires
        k <= n,
        first_out_of_range(indices, count, k) is Some,
    ensures
        first_out_of_range(indices, count, n) == first_out_of_range(indices, count, k),
    decreases n - k,
{
    if k < n {
        lemma_out_of_range_extends(indices, count, k, (n - 1) as nat);
    }
}

proof fn lemma_layout_problem_extends(
    name: Seq<char>,
    layout: Seq<(Seq<char>, Seq<usize>)>,
    count: nat,
    k: nat,
    n: nat,
)
    requires
        k <= n,
        layout_problem(name, layout, count, k) is Some,
    ensures
        layout_problem(name, layout, count, n) == layout_problem(name, layout, count, k),
    decreases n - k,
{
    if k < n {
        lemma_layout_problem_extends(name, layout, count, k, (n - 1) as nat);
    }
}

/// Checks that the set called `name` is the size, frame count and state
/// count its manifest declares, and that every state animates through
/// frames the set has; the error names the first thing that is not so,
/// states taken in the set's order.
pub fn verify_manifest_dimensions(
    name: &str,
    set: &SpriteSet,
    width: u32,
    height: u32,
    frame_count: usize,
    state_count: usize,
) -> (out: Result<(), String>)
    ensures
        match dimension_problem(name@, *set, width, height, frame_count, state_count) {
            None => out is Ok,
            Some(problem) => out matches Err(e) && e@ == problem,
        },
{
    let mut message = String::from_str(name);
    if set.width != width {
        message.append(" is not ");
        push_decimal(&mut message, width as u64);
        message.append(" sprite pixels wide");
        return Err(message);
    }
    if set.height != height {
        message.append(" is not ");
        push_decimal(&mut message, height as u64);
        message.append(" tall");
        return Err(message);
    }
    if set.frames.len() != frame_count {
        message.append(" does not have ");
        push_decimal(&mut message, frame_count as u64);
        message.append(" frames");
        return Err(message);
    }
    if set.layout.len() != state_count {
        message.append(" does not declare ");
        push_decimal(&mut message, state_count as u64);
        message.append(" states");
        return Err(message);
    }
    let ghost model = layout_model(set.layout@);
    let count = set.frames.len();
    let mut k: usize = 0;
    while k < set.layout.len()
        invariant
            set.width == width,
            set.height == height,
            set.frames@.len() == frame_count,
            set.layout@.len() == state_count,
            model == layout_model(set.layout@),
            count == set.frames@.len(),
            k <= set.layout@.len(),
            layout_problem(name@, model, count as nat, k as nat) is None,
        decreases set.layout@.len() - k,
    {
        let found = check_entry(name, set.layout[k].0.as_str(), &set.layout[k].1, count);
        proof {
            assert(((k + 1) - 1) as nat == k as nat);
            assert(model[k as int] == (set.layout@[k as int].0@, set.layout@[k as int].1@));
            assert(layout_problem(name@, model, count as nat, (k + 1) as nat) == entry_problem(
                name@,
                model[k as int].0,
                model[k as int].1,
                count as nat,
            ));
        }
        match found {
            Some(problem) => {
                proof {
                    lemma_layout_problem_extends(name@, model, count as nat, (k + 1) as nat, set.layout@.len());
                }
                return Err(problem);
            },
            None => {},
        }
        k = k + 1;
    }
    Ok(())
}

/// Whether `dump` is what `dump` makes of `set`'s frames.
pub open spec fn dumps_frames(dump: AssetDump, set: SpriteSet) -> bool {
    &&& dump.frames@.len() == set.frames@.len()
    &&& forall|f: int|
        0 <= f < set.frames@.len() ==> (#[trigger] dump.frames@[f])@ == frame_text(
            set.frames@[f]@,
            set.width as nat,
            set.height as nat,
        )
}

proof fn lemma_pixel_text_plain(p: Seq<u8>)
    requires
        p.len() == 4,
    ensures
        forall|j: int|
            0 <= j < pixel_text(p).len() ==> pixel_text(p)[j] != ',' && pixel_text(p)[j] != ';',
{
    reveal_strlit("------");
    assert forall|d: nat| d < 16 implies hex_digit(d) != ',' && hex_digit(d) != ';' by {
        if d < 10 {
            assert(digit_char(d) == ((d + 48) as u32) as char);
            vstd::utf8::char_u32_cast(',', 44u32);
        }
    }
    if p[3] != 0 {
        let t = pixel_text(p);
        assert forall|j: int| 0 <= j < t.len() implies t[j] != ',' && t[j] != ';' by {
            assert(t =~= hex_pair(p[0]) + hex_pair(p[1]) + hex_pair(p[2]));
        }
    }
}

proof fn lemma_row_plain(frame: ImageModel, y: int, n: nat)
    requires
        forall|x: int| 0 <= x < n ==> #[trigger] frame.pixel(x, y).len() == 4,
    ensures
        forall|j: int| 0 <= j < row_text(frame, y, n).len() ==> row_text(frame, y, n)[j] != ';',
    decreases n,
{
    reveal_strlit(",");
    if n == 1 {
        lemma_pixel_text_plain(frame.pixel(0, y));
    } else if n > 1 {
        lemma_row_plain(frame, y, (n - 1) as nat);
        lemma_pixel_text_plain(frame.pixel(n - 1, y));
        let a = row_text(frame, y, (n - 1) as nat);
        let b = pixel_text(frame.pixel(n - 1, y));
        assert forall|j: int| 0 <= j < row_text(frame, y, n).len() implies row_text(frame, y, n)[j]
            != ';' by {
            assert(row_text(frame, y, n) == a + ","@ + b);
            if j < a.len() {
                assert(row_text(frame, y, n)[j] == a[j]);
            } else if j == a.len() {
            } else {
                assert(row_text(frame, y, n)[j] == b[j - a.len() - 1]);
            }
        }
    }
}

proof fn lemma_row_pieces(frame: ImageModel, y: int, n: nat)
    requires
        n >= 1,
        forall|x: int| 0 <= x < n ==> #[trigger] frame.pixel(x, y).len() == 4,
    ensures
        split(row_text(frame, y, n), ',') == Seq::new(n, |x: int| pixel_text(frame.pixel(x, y))),
    decreases n,
{
    reveal_strlit(",");
    if n == 1 {
        lemma_pixel_text_plain(frame.pixel(0, y));
        lemma_split_whole(pixel_text(frame.pixel(0, y)), ',');
        assert(Seq::new(1, |x: int| pixel_text(frame.pixel(x, y))) =~= seq![pixel_text(frame.pixel(0, y))]);
    } else {
        lemma_row_pieces(frame, y, (n - 1) as nat);
        lemma_pixel_text_plain(frame.pixel(n - 1, y));
        let a = row_text(frame, y, (n - 1) as nat);
        let b = pixel_text(frame.pixel(n - 1, y));
        assert(","@ == seq![',']);
        lemma_split_snoc(a, b, ',');
        assert(Seq::new(n, |x: int| pixel_text(frame.pixel(x, y))) =~= Seq::new(
            (n - 1) as nat,
            |x: int| pixel_text(frame.pixel(x, y)),
        ).push(b));
    }
}

proof fn lemma_frame_rows(frame: ImageModel, width: nat, rows: nat)
    requires
        rows >= 1,
        forall|x: int, y: int| 0 <= x < width && 0 <= y < rows ==> #[trigger] frame.pixel(x, y).len() == 4,
    ensures
        split(frame_text(frame, width, rows), ';') == Seq::new(rows, |y: int| row_text(frame, y, width)),
    decreases rows,
{
    reveal_strlit(";");
    lemma_row_plain(frame, rows - 1, width);
    if rows == 1 {
        lemma_split_whole(row_text(frame, 0, width), ';');
        assert(Seq::new(1, |y: int| row_text(frame, y, width)) =~= seq![row_text(frame, 0, width)]);
    } else {
        lemma_frame_rows(frame, width, (rows - 1) as nat);
        let a = frame_text(frame, width, (rows - 1) as nat);
        let b = row_text(frame, rows - 1, width);
        assert(";"@ == seq![';']);
        lemma_split_snoc(a, b, ';');
        assert(Seq::new(rows, |y: int| row_text(frame, y, width)) =~= Seq::new(
            (rows - 1) as nat,
            |y: int| row_text(frame, y, width),
        ).push(b));
    }
}

proof fn lemma_uniform_joined(parts: Seq<Seq<Seq<char>>>, width: nat, k: int)
    requires
        0 <= k <= parts.len(),
        forall|y: int| 0 <= y < parts.len() ==> (#[trigger] parts[y]).len() == width,
    ensures
        joined(parts.take(k)).len() == k * width,
    decreases k,
{
    if k > 0 {
        lemma_uniform_joined(parts, width, k - 1);
        assert(parts.take(k) =~= parts.take(k - 1).push(parts[k - 1]));
        lemma_joined_push(parts.take(k - 1), parts[k - 1]);
        assert((k - 1) * width + width == k * width) by (nonlinear_arith);
    } else {
        assert(parts.take(0) =~= Seq::<Seq<Seq<char>>>::empty());
    }
}

/// A frame's pixel pieces are its pixels, row after row.
proof fn lemma_frame_pieces(frame: ImageModel, width: nat, rows: nat, x: int, y: int)
    requires
        width >= 1,
        rows >= 1,
        0 <= x < width,
        0 <= y < rows,
        forall|i: int, j: int| 0 <= i < width && 0 <= j < rows ==> #[trigger] frame.pixel(i, j).len() == 4,
    ensures
        pixel_pieces(frame_text(frame, width, rows)).len() == width * rows,
        y * width + x < width * rows,
        pixel_pieces(frame_text(frame, width, rows))[y * width + x] == pixel_text(frame.pixel(x, y)),
{
    lemma_frame_rows(frame, width, rows);
    let row_seq = split(frame_text(frame, width, rows), ';');
    let parts = Seq::new(row_seq.len(), |r: int| split(row_seq[r], ','));
    assert forall|r: int| 0 <= r < parts.len() implies (#[trigger] parts[r]) == Seq::new(
        width,
        |i: int| pixel_text(frame.pixel(i, r)),
    ) by {
        assert(row_seq[r] == row_text(frame, r, width));
        lemma_row_pieces(frame, r, width);
    }
    assert forall|r: int| 0 <= r < parts.len() implies (#[trigger] parts[r]).len() == width by {
        assert(parts[r] == Seq::new(width, |i: int| pixel_text(frame.pixel(i, r))));
    }
    lemma_uniform_joined(parts, width, rows as int);
    assert(parts.take(rows as int) =~= parts);
    crate::meshbook::lemma_joined_index(parts, y, x);
    lemma_uniform_joined(parts, width, y);
    assert(y * width + x < width * rows) by (nonlinear_arith)
        requires
            0 <= x < width,
            0 <= y < rows,
    ;
    assert(rows * width == width * rows) by (nonlinear_arith);
    assert(y * width == y * width);
}

/// Frames whose pixels read alike read alike.
proof fn lemma_same_pixels_same_text(a: ImageModel, b: ImageModel, width: nat, rows: nat)
    requires
        forall|x: int, y: int|
            0 <= x < width && 0 <= y < rows ==> pixel_text(#[trigger] a.pixel(x, y)) == pixel_text(
                b.pixel(x, y),
            ),
    ensures
        frame_text(a, width, rows) == frame_text(b, width, rows),
    decreases rows,
{
    if rows > 0 {
        lemma_same_pixels_same_text(a, b, width, (rows - 1) as nat);
        lemma_same_row(a, b, rows - 1, width);
    }
}

proof fn lemma_same_row(a: ImageModel, b: ImageModel, y: int, n: nat)
    requires
        forall|x: int| 0 <= x < n ==> pixel_text(#[trigger] a.pixel(x, y)) == pixel_text(b.pixel(x, y)),
    ensures
        row_text(a, y, n) == row_text(b, y, n),
    decreases n,
{
    if n > 1 {
        lemma_same_row(a, b, y, (n - 1) as nat);
        assert(pixel_text(a.pixel(n - 1, y)) == pixel_text(b.pixel(n - 1, y)));
    } else if n == 1 {
        assert(pixel_text(a.pixel(0, y)) == pixel_text(b.pixel(0, y)));
    }
}

proof fn lemma_first_diff_found<A>(w: Seq<A>, g: Seq<A>, n: nat, k: int)
    requires
        0 <= k < n,
        w[k] != g[k],
    ensures
        first_diff(w, g, n) is Some,
    decreases n,
{
    if k < n - 1 {
        lemma_first_diff_found(w, g, (n - 1) as nat, k);
    }
}

/// Dumps of two sets of one size always have a pixel to name when some pair
/// of their frames differs: a frame's text is its pixels, row after row, so
/// texts that differ differ at some pixel.
pub proof fn law_differing_frames_differ_at_a_pixel(
    a: SpriteSet,
    b: SpriteSet,
    da: AssetDump,
    db: AssetDump,
)
    requires
        dumpable(a),
        dumpable(b),
        a.width == b.width,
        a.height == b.height,
        dumps_frames(da, a),
        dumps_frames(db, b),
    ensures
        !pixels_unnameable(da, db),
{
    let w = frame_texts(da);
    let g = frame_texts(db);
    let n = min_len(w.len(), g.len());
    if first_diff(w, g, n) is Some {
        let i = first_diff(w, g, n)->0;
        lemma_first_diff_in_range(w, g, n);
        assert(w[i] != g[i]);
        let fa = a.frames@[i]@;
        let fb = b.frames@[i]@;
        let width = a.width as nat;
        let rows = a.height as nat;
        assert(w[i] == frame_text(fa, width, rows));
        assert(g[i] == frame_text(fb, width, rows));
        if forall|x: int, y: int|
            0 <= x < width && 0 <= y < rows ==> pixel_text(#[trigger] fa.pixel(x, y)) == pixel_text(
                fb.pixel(x, y),
            ) {
            lemma_same_pixels_same_text(fa, fb, width, rows);
        } else {
            let (x, y) = choose|x: int, y: int|
                0 <= x < width && 0 <= y < rows && pixel_text(#[trigger] fa.pixel(x, y)) != pixel_text(
                    fb.pixel(x, y),
                );
            assert(a.frames@[i].wf());
            assert(b.frames@[i].wf());
            lemma_frame_pieces(fa, width, rows, x, y);
            lemma_frame_pieces(fb, width, rows, x, y);
            let wp = pixel_pieces(w[i]);
            let gp = pixel_pieces(g[i]);
            lemma_first_diff_found(wp, gp, min_len(wp.len(), gp.len()), y * width + x);
        }
    }
}

proof fn lemma_first_diff_in_range<A>(w: Seq<A>, g: Seq<A>, n: nat)
    requires
        first_diff(w, g, n) is Some,
    ensures
        0 <= first_diff(w, g, n)->0 < n,
        w[first_diff(w, g, n)->0] != g[first_diff(w, g, n)->0],
    decreases n,
{
    if n > 0 && first_diff(w, g, (n - 1) as nat) is Some {
        lemma_first_diff_in_range(w, g, (n - 1) as nat);
    }
}

} // verus!
