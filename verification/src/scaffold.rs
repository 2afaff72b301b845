//! The animation states an imported sprite starts with: read from
//! `--states walk:0-31,idle:32-35`, or one state over every frame.

use vstd::prelude::*;
use crate::importer::Args;
use crate::text::{
    chars_of, decimal, framed, parse_unsigned, parse_unsigned_exec, push_decimal, split,
    split_chars, split_once, split_once_chars, string_of, trim, trim_chars,
};

verus! {

/// A named run of frames, `start` to `end` inclusive.
pub struct StateSpec {
    pub name: String,
    pub start: usize,
    pub end: usize,
}

pub struct StateModel {
    pub name: Seq<char>,
    pub start: usize,
    pub end: usize,
}

impl View for StateSpec {
    type V = StateModel;

    open spec fn view(&self) -> StateModel {
        StateModel { name: self.name@, start: self.start, end: self.end }
    }
}

pub open spec fn states_view(states: Seq<StateSpec>) -> Seq<StateModel> {
    states.map_values(|s: StateSpec| s@)
}

pub open spec fn range_error(name: Seq<char>, start: nat, end: nat, total: nat) -> Seq<char> {
    "state '"@ + name + "' range "@ + decimal(start) + "-"@ + decimal(end)
        + " is out of bounds for "@ + decimal(total) + " frames"@
}

/// One `name:start-end` entry, trimmed, against a sheet of `total` frames.
pub open spec fn spec_state_entry(raw_entry: Seq<char>, total: usize) -> Result<
    StateModel,
    Seq<char>,
> {
    let entry = trim(raw_entry);
    match split_once(entry, ':') {
        None => Err("'"@ + entry + "' is not name:start-end"@),
        Some((name, range)) => match split_once(range, '-') {
            None => Err("'"@ + range + "' is not start-end"@),
            Some((start_text, end_text)) => match parse_unsigned(
                trim(start_text),
                usize::MAX as nat,
            ) {
                None => Err("'"@ + start_text + "' is not a number"@),
                Some(start) => match parse_unsigned(trim(end_text), usize::MAX as nat) {
                    None => Err("'"@ + end_text + "' is not a number"@),
                    Some(end) => if end < start || end >= total {
                        Err(range_error(name, start, end, total as nat))
                    } else {
                        Ok(StateModel { name, start: start as usize, end: end as usize })
                    },
                },
            },
        },
    }
}

/// Every entry in order; the first one that does not read is the error.
pub open spec fn spec_state_entries(entries: Seq<Seq<char>>, total: usize) -> Result<
    Seq<StateModel>,
    Seq<char>,
>
    decreases entries.len(),
{
    if entries.len() == 0 {
        Ok(Seq::empty())
    } else {
        match spec_state_entry(entries[0], total) {
            Err(e) => Err(e),
            Ok(state) => match spec_state_entries(entries.drop_first(), total) {
                Ok(rest) => Ok(seq![state] + rest),
                Err(e) => Err(e),
            },
        }
    }
}

pub open spec fn spec_parse_states(raw: Seq<char>, total: usize) -> Result<
    Seq<StateModel>,
    Seq<char>,
> {
    match spec_state_entries(split(raw, ','), total) {
        Ok(states) => if states.len() == 0 {
            Err("no states parsed"@)
        } else {
            Ok(states)
        },
        Err(e) => Err(e),
    }
}

pub open spec fn states_after(prefix: Seq<StateModel>, rest: Result<Seq<StateModel>, Seq<char>>) -> Result<
    Seq<StateModel>,
    Seq<char>,
> {
    match rest {
        Ok(tail) => Ok(prefix + tail),
        Err(e) => Err(e),
    }
}

fn parse_state_entry(raw_entry: &Vec<char>, total: usize) -> (out: Result<StateSpec, String>)
    ensures
        match out {
            Ok(state) => spec_state_entry(raw_entry@, total) == Ok::<StateModel, Seq<char>>(
                state@,
            ),
            Err(e) => spec_state_entry(raw_entry@, total) == Err::<StateModel, Seq<char>>(e@),
        },
{
    let entry = trim_chars(raw_entry);
    let (name, range) = match split_once_chars(&entry, ':') {
        Some(parts) => parts,
        None => return Err(framed("'", &entry, "' is not name:start-end")),
    };
    let (start_text, end_text) = match split_once_chars(&range, '-') {
        Some(parts) => parts,
        None => return Err(framed("'", &range, "' is not start-end")),
    };
    let start = match parse_unsigned_exec(&trim_chars(&start_text), usize::MAX as u64) {
        Some(v) => v as usize,
        None => return Err(framed("'", &start_text, "' is not a number")),
    };
    let end = match parse_unsigned_exec(&trim_chars(&end_text), usize::MAX as u64) {
        Some(v) => v as usize,
        None => return Err(framed("'", &end_text, "' is not a number")),
    };
    if end < start || end >= total {
        let mut message = framed("state '", &name, "' range ");
        push_decimal(&mut message, start as u64);
        message.append("-");
        push_decimal(&mut message, end as u64);
        message.append(" is out of bounds for ");
        push_decimal(&mut message, total as u64);
        message.append(" frames");
        return Err(message);
    }
    Ok(StateSpec { name: string_of(&name), start, end })
}

/// Reads `--states`: comma-separated `name:start-end` entries, each range
/// inside a sheet of `total_frames` frames.
pub fn parse_states_arg(raw: &str, total_frames: usize) -> (out: Result<Vec<StateSpec>, String>)
    ensures
        match out {
            Ok(states) => spec_parse_states(raw@, total_frames) == Ok::<
                Seq<StateModel>,
                Seq<char>,
            >(states_view(states@)),
            Err(e) => spec_parse_states(raw@, total_frames) == Err::<Seq<StateModel>, Seq<char>>(
                e@,
            ),
        },
{
    let chars = chars_of(raw);
    let parts = split_chars(&chars, ',');
    let ghost pieces = split(raw@, ',');
    let mut states: Vec<StateSpec> = Vec::new();
    let mut i: usize = 0;
    assert(pieces.skip(0) =~= pieces);
    assert(states_view(states@) + Seq::<StateModel>::empty() =~= states_view(states@));
    while i < parts.len()
        invariant
            pieces == split(raw@, ','),
            parts@.len() == pieces.len(),
            forall|k: int| 0 <= k < parts@.len() ==> #[trigger] parts@[k]@ == pieces[k],
            i <= parts.len(),
            spec_state_entries(pieces, total_frames) == states_after(
                states_view(states@),
                spec_state_entries(pieces.skip(i as int), total_frames),
            ),
        decreases parts.len() - i,
    {
        let ghost here = pieces.skip(i as int);
        assert(here[0] == pieces[i as int]);
        assert(here.drop_first() =~= pieces.skip(i + 1));
        assert(parts@[i as int]@ == pieces[i as int]);
        match parse_state_entry(&parts[i], total_frames) {
            Err(e) => return Err(e),
            Ok(state) => {
                let ghost before = states_view(states@);
                states.push(state);
                assert(states_view(states@) =~= before.push(state@));
                proof {
                    match spec_state_entries(pieces.skip(i + 1), total_frames) {
                        Ok(tail) => {
                            assert(before + (seq![state@] + tail) =~= states_view(states@)
                                + tail);
                        },
                        Err(e) => {},
                    }
                }
                i = i + 1;
            },
        }
    }
    assert(pieces.skip(i as int) =~= Seq::<Seq<char>>::empty());
    assert(states_view(states@) + Seq::<StateModel>::empty() =~= states_view(states@));
    if states.len() == 0 {
        return Err(String::from_str("no states parsed"));
    }
    Ok(states)
}

/// One state, `default`, over every frame.
pub fn default_state(total_frames: usize) -> (out: Vec<StateSpec>)
    ensures
        out@.len() == 1,
        out@[0].name@ == "default"@,
        out@[0].start == 0,
        out@[0].end == (if total_frames == 0 {
            0
        } else {
            total_frames - 1
        }),
{
    let end = if total_frames == 0 {
        0
    } else {
        total_frames - 1
    };
    let mut out: Vec<StateSpec> = Vec::new();
    out.push(StateSpec { name: String::from_str("default"), start: 0, end });
    out
}

/// What the manifest scaffold is written from. `fps` is the playback rate as
/// the manifest writes it, with one decimal place.
pub struct ManifestParams<'a> {
    pub name: &'a str,
    pub sheet_path: &'a str,
    pub native_path: &'a str,
    pub frame_width: u32,
    pub frame_height: u32,
    pub columns: u32,
    pub rows: u32,
    pub states: &'a [StateSpec],
    pub fps: &'a str,
}

/// The frame indices `start` to `end`, with `", "` between them.
pub open spec fn frame_numbers(start: nat, end: nat) -> Seq<char>
    decreases end,
{
    if end < start {
        Seq::empty()
    } else if end == start {
        decimal(start)
    } else {
        frame_numbers(start, (end - 1) as nat) + ", "@ + decimal(end)
    }
}

/// One state's block in the scaffold.
pub open spec fn state_text(state: StateModel, fps: Seq<char>) -> Seq<char> {
    "    "@ + state.name + " = {\n      animation = { frames = { "@ + frame_numbers(
        state.start as nat,
        state.end as nat,
    ) + " }, fps = "@ + fps
        + ", loop_anim = true, flip_x = false },\n      physics = { target_vx = 2.0, target_vy = 0.0, wrap_mode = \"wrap\" }, -- placeholder: tune per asset\n      transitions = { on_event = {} },\n    },\n"@
}

/// Every state's block, in order.
pub open spec fn states_text(states: Seq<StateModel>, fps: Seq<char>) -> Seq<char>
    decreases states.len(),
{
    if states.len() == 0 {
        Seq::empty()
    } else {
        states_text(states.drop_last(), fps) + state_text(states.last(), fps)
    }
}

/// The Lua manifest scaffold for an imported sprite: its sheet, a grounded
/// locomotion, and one block per state; the first state is the initial one,
/// `default` when there are none.
pub open spec fn manifest_text(
    name: Seq<char>,
    sheet_path: Seq<char>,
    native_path: Seq<char>,
    frame_width: u32,
    frame_height: u32,
    columns: u32,
    rows: u32,
    states: Seq<StateModel>,
    fps: Seq<char>,
) -> Seq<char> {
    let initial = if states.len() == 0 {
        "default"@
    } else {
        states[0].name
    };
    "local M = {\n  name = \""@ + name + "\",\n  asset_type = \"sprite\",\n  spritesheet = {\n    path = \""@
        + sheet_path + "\",\n    native_path = \""@ + native_path + "\",\n    frame_width = "@
        + decimal(frame_width as nat) + ",\n    frame_height = "@ + decimal(frame_height as nat)
        + ",\n    columns = "@ + decimal(columns as nat) + ",\n    rows = "@ + decimal(rows as nat)
        + ",\n  },\n  anchor = \"bottom\",\n  initial_state = \""@ + initial
        + "\",\n  locomotion = \"grounded\",\n  capabilities = { locomotion = { \"grounded\" } },\n  states = {\n"@
        + states_text(states, fps) + "  },\n}\n\nreturn M\n"@
}

fn push_frame_numbers(out: &mut String, start: usize, end: usize)
    ensures
        final(out)@ == old(out)@ + frame_numbers(start as nat, end as nat),
    decreases end,
{
    if end < start {
        assert(old(out)@ + Seq::<char>::empty() =~= old(out)@);
    } else if end == start {
        push_decimal(out, start as u64);
    } else {
        push_frame_numbers(out, start, end - 1);
        out.append(", ");
        push_decimal(out, end as u64);
        assert(old(out)@ + frame_numbers(start as nat, (end - 1) as nat) + ", "@ + decimal(end as nat)
            =~= old(out)@ + frame_numbers(start as nat, end as nat));
    }
}

fn render_state(out: &mut String, state: &StateSpec, fps: &str)
    ensures
        final(out)@ == old(out)@ + state_text(state@, fps@),
{
    out.append("    ");
    out.append(state.name.as_str());
    out.append(" = {\n      animation = { frames = { ");
    push_frame_numbers(out, state.start, state.end);
    out.append(" }, fps = ");
    out.append(fps);
    out.append(", loop_anim = true, flip_x = false },\n      physics = { target_vx = 2.0, target_vy = 0.0, wrap_mode = \"wrap\" }, -- placeholder: tune per asset\n      transitions = { on_event = {} },\n    },\n");
    assert(final(out)@ =~= old(out)@ + state_text(state@, fps@));
}

/// Writes the Lua manifest scaffold for an imported sprite.
pub fn render_manifest(params: &ManifestParams) -> (text: String)
    ensures
        text@ == manifest_text(
            params.name@,
            params.sheet_path@,
            params.native_path@,
            params.frame_width,
            params.frame_height,
            params.columns,
            params.rows,
            states_view(params.states@),
            params.fps@,
        ),
{
    let mut text = String::from_str("local M = {\n  name = \"");
    text.append(params.name);
    text.append("\",\n  asset_type = \"sprite\",\n  spritesheet = {\n    path = \"");
    text.append(params.sheet_path);
    text.append("\",\n    native_path = \"");
    text.append(params.native_path);
    text.append("\",\n    frame_width = ");
    push_decimal(&mut text, params.frame_width as u64);
    text.append(",\n    frame_height = ");
    push_decimal(&mut text, params.frame_height as u64);
    text.append(",\n    columns = ");
    push_decimal(&mut text, params.columns as u64);
    text.append(",\n    rows = ");
    push_decimal(&mut text, params.rows as u64);
    text.append(",\n  },\n  anchor = \"bottom\",\n  initial_state = \"");
    if params.states.len() == 0 {
        text.append("default");
    } else {
        text.append(params.states[0].name.as_str());
    }
    text.append("\",\n  locomotion = \"grounded\",\n  capabilities = { locomotion = { \"grounded\" } },\n  states = {\n");
    let ghost head = text@;
    let ghost models = states_view(params.states@);
    let mut i: usize = 0;
    assert(models.take(0) =~= Seq::<StateModel>::empty());
    assert(head + Seq::<char>::empty() =~= head);
    while i < params.states.len()
        invariant
            i <= params.states@.len(),
            models == states_view(params.states@),
            text@ == head + states_text(models.take(i as int), params.fps@),
        decreases params.states@.len() - i,
    {
        render_state(&mut text, &params.states[i], params.fps);
        proof {
            assert(models.take(i + 1).drop_last() =~= models.take(i as int));
            assert(models.take(i + 1).last() == params.states@[i as int]@);
            assert(head + states_text(models.take(i as int), params.fps@) + state_text(
                params.states@[i as int]@,
                params.fps@,
            ) =~= head + states_text(models.take(i + 1), params.fps@));
        }
        i = i + 1;
    }
    assert(models.take(i as int) =~= models);
    text.append("  },\n}\n\nreturn M\n");
    proof {
        let initial = if models.len() == 0 {
            "default"@
        } else {
            models[0].name
        };
        assert(text@ =~= manifest_text(
            params.name@,
            params.sheet_path@,
            params.native_path@,
            params.frame_width,
            params.frame_height,
            params.columns,
            params.rows,
            models,
            params.fps@,
        ));
    }
    text
}

/// Where the packed sheet and its sidecar went, and how the sheet is laid out.
pub struct SheetLayout {
    pub frame_width: u32,
    pub frame_height: u32,
    pub frame_count: usize,
    pub columns: u32,
    pub rows: u32,
    pub sheet_path_text: String,
    pub native_path_text: String,
}

/// The states a scaffold gets: those `--states` names, or one over every
/// frame.
pub open spec fn scaffold_states(states_arg: Option<Seq<char>>, frame_count: usize) -> Result<
    Seq<StateModel>,
    Seq<char>,
> {
    match states_arg {
        Some(raw) => spec_parse_states(raw, frame_count),
        None => Ok(
            seq![StateModel { name: "default"@, start: 0, end: if frame_count == 0 { 0 } else { (frame_count - 1) as usize } }],
        ),
    }
}

/// The manifest scaffold for an import: its sheet's layout, the states from
/// `--states` (or one default state), played at `fps`.
pub fn build_manifest_text(args: &Args, layout: &SheetLayout, fps: &str) -> (out: Result<String, String>)
    ensures
        match scaffold_states(
            match args.states {
                Some(raw) => Some(raw@),
                None => None,
            },
            layout.frame_count,
        ) {
            Ok(states) => out matches Ok(text) && text@ == manifest_text(
                args.name@,
                layout.sheet_path_text@,
                layout.native_path_text@,
                layout.frame_width,
                layout.frame_height,
                layout.columns,
                layout.rows,
                states,
                fps@,
            ),
            Err(e) => out matches Err(message) && message@ == e,
        },
{
    let states = match &args.states {
        Some(raw) => match parse_states_arg(raw.as_str(), layout.frame_count) {
            Ok(states) => states,
            Err(e) => {
                return Err(e);
            },
        },
        None => {
            let states = default_state(layout.frame_count);
            assert(states_view(states@) =~= seq![
                StateModel {
                    name: "default"@,
                    start: 0,
                    end: if layout.frame_count == 0 { 0 } else { (layout.frame_count - 1) as usize },
                },
            ]);
            states
        },
    };
    let params = ManifestParams {
        name: args.name.as_str(),
        sheet_path: layout.sheet_path_text.as_str(),
        native_path: layout.native_path_text.as_str(),
        frame_width: layout.frame_width,
        frame_height: layout.frame_height,
        columns: layout.columns,
        rows: layout.rows,
        states: states.as_slice(),
        fps,
    };
    Ok(render_manifest(&params))
}


proof fn lemma_state_entries_ok(entries: Seq<Seq<char>>, total: usize)
    requires
        spec_state_entries(entries, total) is Ok,
    ensures
        ({
            let v = spec_state_entries(entries, total)->Ok_0;
            &&& v.len() == entries.len()
            &&& forall|k: int|
                0 <= k < v.len() ==> spec_state_entry(entries[k], total) == Ok::<StateModel, Seq<char>>(
                    #[trigger] v[k],
                ) && v[k].start <= v[k].end && v[k].end < total
        }),
    decreases entries.len(),
{
    if entries.len() > 0 {
        lemma_state_entries_ok(entries.drop_first(), total);
        let v = spec_state_entries(entries, total)->Ok_0;
        let rest = spec_state_entries(entries.drop_first(), total)->Ok_0;
        assert forall|k: int| 0 <= k < v.len() implies spec_state_entry(entries[k], total) == Ok::<
            StateModel,
            Seq<char>,
        >(#[trigger] v[k]) && v[k].start <= v[k].end && v[k].end < total by {
            if k > 0 {
                assert(v[k] == rest[k - 1]);
                assert(entries[k] == entries.drop_first()[k - 1]);
            }
        }
    }
}

/// A read `--states` has one range per comma-separated piece, in the order
/// written, each the piece read and inside the sheet; so with no frames at
/// all every `--states` is refused.
pub proof fn law_one_state_per_piece(raw: Seq<char>, total: usize)
    ensures
        spec_parse_states(raw, total) is Ok ==> ({
            let v = spec_parse_states(raw, total)->Ok_0;
            &&& v.len() == split(raw, ',').len()
            &&& v.len() >= 1
            &&& forall|k: int|
                0 <= k < v.len() ==> spec_state_entry(split(raw, ',')[k], total) == Ok::<
                    StateModel,
                    Seq<char>,
                >(#[trigger] v[k]) && v[k].start <= v[k].end && v[k].end < total
        }),
        total == 0 ==> spec_parse_states(raw, total) is Err,
{
    if spec_state_entries(split(raw, ','), total) is Ok {
        lemma_state_entries_ok(split(raw, ','), total);
        let v = spec_state_entries(split(raw, ','), total)->Ok_0;
        if total == 0 && v.len() > 0 {
            assert(v[0].end < total);
        }
    }
}

} // verus!
