//! The sprite importer's command line: the flags it accepts, the values they
//! carry, and what it refuses (exactly one source, and a grid exactly when the
//! source is a spritesheet).

use vstd::prelude::*;
use crate::text::{
    chars_of, float_text, framed, is_float_text, parse_unsigned, parse_unsigned_exec, same_text,
    split, split_chars,
    split_once, split_once_chars, trim, trim_chars,
};

verus! {

// ---------------------------------------------------------------------------
// --cell WxH
// ---------------------------------------------------------------------------

/// What `--cell` accepts: `W` and `H` as unsigned 32-bit numbers around the
/// first `x`, each allowed white space around it.
pub open spec fn spec_parse_cell(raw: Seq<char>) -> Result<(u32, u32), Seq<char>> {
    match split_once(raw, 'x') {
        None => Err("--cell '"@ + raw + "' is not WxH"@),
        Some((w, h)) => match parse_unsigned(trim(w), u32::MAX as nat) {
            None => Err("--cell width '"@ + w + "' is not a number"@),
            Some(width) => match parse_unsigned(trim(h), u32::MAX as nat) {
                None => Err("--cell height '"@ + h + "' is not a number"@),
                Some(height) => Ok((width as u32, height as u32)),
            },
        },
    }
}

/// Reads a `--cell` value such as `192x208`.
pub fn parse_cell(raw: &str) -> (out: Result<(u32, u32), String>)
    ensures
        match out {
            Ok(cell) => spec_parse_cell(raw@) == Ok::<(u32, u32), Seq<char>>(cell),
            Err(message) => spec_parse_cell(raw@) == Err::<(u32, u32), Seq<char>>(message@),
        },
{
    let chars = chars_of(raw);
    match split_once_chars(&chars, 'x') {
        None => Err(framed("--cell '", &chars, "' is not WxH")),
        Some((w, h)) => match parse_unsigned_exec(&trim_chars(&w), 0xffff_ffff) {
            None => Err(framed("--cell width '", &w, "' is not a number")),
            Some(width) => match parse_unsigned_exec(&trim_chars(&h), 0xffff_ffff) {
                None => Err(framed("--cell height '", &h, "' is not a number")),
                Some(height) => Ok((width as u32, height as u32)),
            },
        },
    }
}

// ---------------------------------------------------------------------------
// --row-counts a,b,c
// ---------------------------------------------------------------------------

pub open spec fn row_count_error(entry: Seq<char>) -> Seq<char> {
    "--row-counts entry '"@ + entry + "' is not a number"@
}

/// Each entry read as a `usize` after trimming; the first entry that is not a
/// number is the error.
pub open spec fn spec_row_counts_of(entries: Seq<Seq<char>>) -> Result<Seq<usize>, Seq<char>>
    decreases entries.len(),
{
    if entries.len() == 0 {
        Ok(Seq::empty())
    } else {
        match parse_unsigned(trim(entries[0]), usize::MAX as nat) {
            None => Err(row_count_error(entries[0])),
            Some(n) => match spec_row_counts_of(entries.drop_first()) {
                Ok(rest) => Ok(seq![n as usize] + rest),
                Err(e) => Err(e),
            },
        }
    }
}

pub open spec fn spec_parse_row_counts(raw: Seq<char>) -> Result<Seq<usize>, Seq<char>> {
    spec_row_counts_of(split(raw, ','))
}

pub open spec fn after_prefix(prefix: Seq<usize>, rest: Result<Seq<usize>, Seq<char>>) -> Result<
    Seq<usize>,
    Seq<char>,
> {
    match rest {
        Ok(tail) => Ok(prefix + tail),
        Err(e) => Err(e),
    }
}

/// Reads a `--row-counts` value such as `7,8,8`.
pub fn parse_row_counts(raw: &str) -> (out: Result<Vec<usize>, String>)
    ensures
        match out {
            Ok(counts) => spec_parse_row_counts(raw@) == Ok::<Seq<usize>, Seq<char>>(counts@),
            Err(message) => spec_parse_row_counts(raw@) == Err::<Seq<usize>, Seq<char>>(
                message@,
            ),
        },
{
    let chars = chars_of(raw);
    let parts = split_chars(&chars, ',');
    let ghost pieces = split(raw@, ',');
    let mut counts: Vec<usize> = Vec::new();
    let mut i: usize = 0;
    assert(pieces.skip(0) =~= pieces);
    assert(counts@ + Seq::<usize>::empty() =~= counts@);
    while i < parts.len()
        invariant
            pieces == split(raw@, ','),
            parts@.len() == pieces.len(),
            forall|k: int| 0 <= k < parts@.len() ==> #[trigger] parts@[k]@ == pieces[k],
            i <= parts.len(),
            spec_row_counts_of(pieces) == after_prefix(
                counts@,
                spec_row_counts_of(pieces.skip(i as int)),
            ),
        decreases parts.len() - i,
    {
        let ghost here = pieces.skip(i as int);
        assert(here[0] == pieces[i as int]);
        assert(here.drop_first() =~= pieces.skip(i + 1));
        assert(parts@[i as int]@ == pieces[i as int]);
        match parse_unsigned_exec(&trim_chars(&parts[i]), usize::MAX as u64) {
            None => {
                return Err(framed("--row-counts entry '", &parts[i], "' is not a number"));
            },
            Some(n) => {
                let ghost before = counts@;
                counts.push(n as usize);
                proof {
                    match spec_row_counts_of(pieces.skip(i + 1)) {
                        Ok(tail) => {
                            assert(before + (seq![n as usize] + tail) =~= counts@ + tail);
                        },
                        Err(e) => {},
                    }
                }
                i = i + 1;
            },
        }
    }
    assert(pieces.skip(i as int) =~= Seq::<Seq<char>>::empty());
    assert(counts@ + Seq::<usize>::empty() =~= counts@);
    Ok(counts)
}

// ---------------------------------------------------------------------------
// The whole command line
// ---------------------------------------------------------------------------

/// The background tolerance when `--bg-tolerance` is not given.
pub const DEFAULT_BG_TOLERANCE: &'static str = "0.12";

/// The parsed command line. Paths are kept as the text the user wrote, and
/// `--bg-tolerance` as its text too, checked to be a number: the tolerance
/// is a fraction, which the caller reads.
pub struct Args {
    pub gif: Option<String>,
    pub frames_dir: Option<String>,
    pub spritesheet: Option<String>,
    pub cell: Option<(u32, u32)>,
    pub row_counts: Option<Vec<usize>>,
    pub name: String,
    pub states: Option<String>,
    pub out: String,
    pub manifest_out: String,
    pub bg_tolerance: String,
}

pub struct ArgsModel {
    pub gif: Option<Seq<char>>,
    pub frames_dir: Option<Seq<char>>,
    pub spritesheet: Option<Seq<char>>,
    pub cell: Option<(u32, u32)>,
    pub row_counts: Option<Seq<usize>>,
    pub name: Seq<char>,
    pub states: Option<Seq<char>>,
    pub out: Seq<char>,
    pub manifest_out: Seq<char>,
    pub bg_tolerance: Seq<char>,
}

/// The flags seen so far, each the last value given for it.
pub struct FlagValues {
    pub gif: Option<Seq<char>>,
    pub frames_dir: Option<Seq<char>>,
    pub spritesheet: Option<Seq<char>>,
    pub cell: Option<(u32, u32)>,
    pub row_counts: Option<Seq<usize>>,
    pub name: Option<Seq<char>>,
    pub states: Option<Seq<char>>,
    pub out: Option<Seq<char>>,
    pub manifest_out: Option<Seq<char>>,
    pub bg_tolerance: Option<Seq<char>>,
}

pub open spec fn text_of(o: Option<String>) -> Option<Seq<char>> {
    match o {
        Some(s) => Some(s@),
        None => None,
    }
}

pub open spec fn counts_of(o: Option<Vec<usize>>) -> Option<Seq<usize>> {
    match o {
        Some(v) => Some(v@),
        None => None,
    }
}

impl View for Args {
    type V = ArgsModel;

    open spec fn view(&self) -> ArgsModel {
        ArgsModel {
            gif: text_of(self.gif),
            frames_dir: text_of(self.frames_dir),
            spritesheet: text_of(self.spritesheet),
            cell: self.cell,
            row_counts: counts_of(self.row_counts),
            name: self.name@,
            states: text_of(self.states),
            out: self.out@,
            manifest_out: self.manifest_out@,
            bg_tolerance: self.bg_tolerance@,
        }
    }
}

pub open spec fn no_flags() -> FlagValues {
    FlagValues {
        gif: None,
        frames_dir: None,
        spritesheet: None,
        cell: None,
        row_counts: None,
        name: None,
        states: None,
        out: None,
        manifest_out: None,
        bg_tolerance: None,
    }
}

/// Which flag `flag` is, in the order the grammar lists them, or -1.
pub open spec fn flag_slot(flag: Seq<char>) -> int {
    if flag == "--gif"@ {
        0
    } else if flag == "--frames"@ {
        1
    } else if flag == "--spritesheet"@ {
        2
    } else if flag == "--cell"@ {
        3
    } else if flag == "--row-counts"@ {
        4
    } else if flag == "--name"@ {
        5
    } else if flag == "--states"@ {
        6
    } else if flag == "--out"@ {
        7
    } else if flag == "--manifest-out"@ {
        8
    } else if flag == "--bg-tolerance"@ {
        9
    } else {
        -1
    }
}

/// Records the value of the flag in `slot`, reading it where the flag has a
/// grammar of its own.
pub open spec fn apply_flag(slot: int, value: Seq<char>, f: FlagValues) -> Result<
    FlagValues,
    Seq<char>,
> {
    if slot == 0 {
        Ok(FlagValues { gif: Some(value), ..f })
    } else if slot == 1 {
        Ok(FlagValues { frames_dir: Some(value), ..f })
    } else if slot == 2 {
        Ok(FlagValues { spritesheet: Some(value), ..f })
    } else if slot == 3 {
        match spec_parse_cell(value) {
            Ok(cell) => Ok(FlagValues { cell: Some(cell), ..f }),
            Err(e) => Err(e),
        }
    } else if slot == 4 {
        match spec_parse_row_counts(value) {
            Ok(counts) => Ok(FlagValues { row_counts: Some(counts), ..f }),
            Err(e) => Err(e),
        }
    } else if slot == 5 {
        Ok(FlagValues { name: Some(value), ..f })
    } else if slot == 6 {
        Ok(FlagValues { states: Some(value), ..f })
    } else if slot == 7 {
        Ok(FlagValues { out: Some(value), ..f })
    } else if slot == 8 {
        Ok(FlagValues { manifest_out: Some(value), ..f })
    } else if is_float_text(value) {
        Ok(FlagValues { bg_tolerance: Some(value), ..f })
    } else {
        Err("--bg-tolerance needs a number"@)
    }
}

/// Reads flags and their values from the front; an unknown flag, a flag with
/// no value after it, or a value its flag cannot read is the error.
pub open spec fn scan_flags(raw: Seq<Seq<char>>, f: FlagValues) -> Result<FlagValues, Seq<char>>
    decreases raw.len(),
{
    if raw.len() == 0 {
        Ok(f)
    } else if flag_slot(raw[0]) < 0 {
        Err("unknown flag '"@ + raw[0] + "'"@)
    } else if raw.len() < 2 {
        Err(raw[0] + " needs a value"@)
    } else {
        match apply_flag(flag_slot(raw[0]), raw[1], f) {
            Ok(g) => scan_flags(raw.skip(2), g),
            Err(e) => Err(e),
        }
    }
}

/// The refusal that a choice of source and grid flags earns, if any.
pub open spec fn source_choice_error(
    gif: bool,
    frames: bool,
    spritesheet: bool,
    cell: bool,
    row_counts: bool,
) -> Option<Seq<char>> {
    let count = (if gif { 1int } else { 0 }) + (if frames { 1int } else { 0 }) + (if spritesheet {
        1int
    } else {
        0
    });
    if count != 1 {
        Some("exactly one of --gif, --frames or --spritesheet is required"@)
    } else if spritesheet && !(cell && row_counts) {
        Some("--spritesheet needs both --cell and --row-counts"@)
    } else if !spritesheet && (cell || row_counts) {
        Some("--cell and --row-counts only apply to --spritesheet"@)
    } else {
        None
    }
}

pub open spec fn default_out(name: Seq<char>) -> Seq<char> {
    "assets/"@ + name
}

pub open spec fn default_manifest_out(name: Seq<char>) -> Seq<char> {
    "lua/distract/manifests/"@ + name + ".lua"@
}

/// The flags turned into arguments: a name is required, the two outputs
/// default from it, and the source choice must be one the importer can run.
pub open spec fn finish_flags(f: FlagValues) -> Result<ArgsModel, Seq<char>> {
    match f.name {
        None => Err("--name is required"@),
        Some(name) => match source_choice_error(
            f.gif is Some,
            f.frames_dir is Some,
            f.spritesheet is Some,
            f.cell is Some,
            f.row_counts is Some,
        ) {
            Some(e) => Err(e),
            None => Ok(
                ArgsModel {
                    gif: f.gif,
                    frames_dir: f.frames_dir,
                    spritesheet: f.spritesheet,
                    cell: f.cell,
                    row_counts: f.row_counts,
                    name,
                    states: f.states,
                    out: match f.out {
                        Some(o) => o,
                        None => default_out(name),
                    },
                    manifest_out: match f.manifest_out {
                        Some(o) => o,
                        None => default_manifest_out(name),
                    },
                    bg_tolerance: match f.bg_tolerance {
                        Some(t) => t,
                        None => DEFAULT_BG_TOLERANCE@,
                    },
                },
            ),
        },
    }
}

pub open spec fn spec_parse_args(raw: Seq<Seq<char>>) -> Result<ArgsModel, Seq<char>> {
    match scan_flags(raw, no_flags()) {
        Ok(f) => finish_flags(f),
        Err(e) => Err(e),
    }
}

pub open spec fn texts(raw: Seq<String>) -> Seq<Seq<char>> {
    raw.map_values(|s: String| s@)
}

/// Refuses a command line that names no source, more than one, or a grid
/// that does not go with a spritesheet.
pub fn validate_source_choice(args: &Args) -> (out: Result<(), String>)
    ensures
        match out {
            Ok(()) => source_choice_error(
                args.gif is Some,
                args.frames_dir is Some,
                args.spritesheet is Some,
                args.cell is Some,
                args.row_counts is Some,
            ) is None,
            Err(message) => source_choice_error(
                args.gif is Some,
                args.frames_dir is Some,
                args.spritesheet is Some,
                args.cell is Some,
                args.row_counts is Some,
            ) == Some(message@),
        },
{
    let mut source_count: u8 = 0;
    if args.gif.is_some() {
        source_count = source_count + 1;
    }
    if args.frames_dir.is_some() {
        source_count = source_count + 1;
    }
    if args.spritesheet.is_some() {
        source_count = source_count + 1;
    }
    if source_count != 1 {
        return Err(String::from_str("exactly one of --gif, --frames or --spritesheet is required"));
    }
    let has_grid = args.cell.is_some() && args.row_counts.is_some();
    if args.spritesheet.is_some() && !has_grid {
        return Err(String::from_str("--spritesheet needs both --cell and --row-counts"));
    }
    if args.spritesheet.is_none() && (args.cell.is_some() || args.row_counts.is_some()) {
        return Err(String::from_str("--cell and --row-counts only apply to --spritesheet"));
    }
    Ok(())
}

/// The flags read so far while walking the command line.
struct Pending {
    gif: Option<String>,
    frames_dir: Option<String>,
    spritesheet: Option<String>,
    cell: Option<(u32, u32)>,
    row_counts: Option<Vec<usize>>,
    name: Option<String>,
    states: Option<String>,
    out: Option<String>,
    manifest_out: Option<String>,
    bg_tolerance: Option<String>,
}

impl View for Pending {
    type V = FlagValues;

    closed spec fn view(&self) -> FlagValues {
        FlagValues {
            gif: text_of(self.gif),
            frames_dir: text_of(self.frames_dir),
            spritesheet: text_of(self.spritesheet),
            cell: self.cell,
            row_counts: counts_of(self.row_counts),
            name: text_of(self.name),
            states: text_of(self.states),
            out: text_of(self.out),
            manifest_out: text_of(self.manifest_out),
            bg_tolerance: text_of(self.bg_tolerance),
        }
    }
}

fn flag_slot_exec(flag: &str) -> (slot: Option<usize>)
    ensures
        match slot {
            Some(k) => k < 10 && k as int == flag_slot(flag@),
            None => flag_slot(flag@) < 0,
        },
{
    if same_text(flag, "--gif") {
        Some(0)
    } else if same_text(flag, "--frames") {
        Some(1)
    } else if same_text(flag, "--spritesheet") {
        Some(2)
    } else if same_text(flag, "--cell") {
        Some(3)
    } else if same_text(flag, "--row-counts") {
        Some(4)
    } else if same_text(flag, "--name") {
        Some(5)
    } else if same_text(flag, "--states") {
        Some(6)
    } else if same_text(flag, "--out") {
        Some(7)
    } else if same_text(flag, "--manifest-out") {
        Some(8)
    } else if same_text(flag, "--bg-tolerance") {
        Some(9)
    } else {
        None
    }
}

fn apply_flag_exec(p: &mut Pending, slot: usize, value: &String) -> (out: Result<(), String>)
    requires
        slot < 10,
    ensures
        match out {
            Ok(()) => apply_flag(slot as int, value@, old(p)@) == Ok::<FlagValues, Seq<char>>(
                final(p)@,
            ),
            Err(e) => apply_flag(slot as int, value@, old(p)@) == Err::<FlagValues, Seq<char>>(
                e@,
            ),
        },
{
    if slot == 0 {
        p.gif = Some(value.clone());
    } else if slot == 1 {
        p.frames_dir = Some(value.clone());
    } else if slot == 2 {
        p.spritesheet = Some(value.clone());
    } else if slot == 3 {
        match parse_cell(value.as_str()) {
            Ok(cell) => p.cell = Some(cell),
            Err(e) => return Err(e),
        }
    } else if slot == 4 {
        match parse_row_counts(value.as_str()) {
            Ok(counts) => p.row_counts = Some(counts),
            Err(e) => return Err(e),
        }
    } else if slot == 5 {
        p.name = Some(value.clone());
    } else if slot == 6 {
        p.states = Some(value.clone());
    } else if slot == 7 {
        p.out = Some(value.clone());
    } else if slot == 8 {
        p.manifest_out = Some(value.clone());
    } else {
        if !float_text(value.as_str()) {
            return Err(String::from_str("--bg-tolerance needs a number"));
        }
        p.bg_tolerance = Some(value.clone());
    }
    Ok(())
}

fn finish_exec(p: Pending) -> (out: Result<Args, String>)
    ensures
        match out {
            Ok(args) => finish_flags(p@) == Ok::<ArgsModel, Seq<char>>(args@),
            Err(e) => finish_flags(p@) == Err::<ArgsModel, Seq<char>>(e@),
        },
{
    let ghost flags = p@;
    let Pending {
        gif,
        frames_dir,
        spritesheet,
        cell,
        row_counts,
        name,
        states,
        out,
        manifest_out,
        bg_tolerance,
    } = p;
    let name = match name {
        Some(name) => name,
        None => return Err(String::from_str("--name is required")),
    };
    let out = match out {
        Some(o) => o,
        None => {
            let mut o = String::from_str("assets/");
            o.append(name.as_str());
            o
        },
    };
    let manifest_out = match manifest_out {
        Some(o) => o,
        None => {
            let mut o = String::from_str("lua/distract/manifests/");
            o.append(name.as_str());
            o.append(".lua");
            o
        },
    };
    let bg_tolerance = match bg_tolerance {
        Some(t) => t,
        None => String::from_str(DEFAULT_BG_TOLERANCE),
    };
    let args = Args {
        gif,
        frames_dir,
        spritesheet,
        cell,
        row_counts,
        name,
        states,
        out,
        manifest_out,
        bg_tolerance,
    };
    match validate_source_choice(&args) {
        Ok(()) => Ok(args),
        Err(e) => Err(e),
    }
}

/// Reads the importer's command line (without the program name).
pub fn parse_args_from(raw_args: Vec<String>) -> (out: Result<Args, String>)
    ensures
        match out {
            Ok(args) => spec_parse_args(texts(raw_args@)) == Ok::<ArgsModel, Seq<char>>(args@),
            Err(e) => spec_parse_args(texts(raw_args@)) == Err::<ArgsModel, Seq<char>>(e@),
        },
{
    let ghost raw = texts(raw_args@);
    let mut p = Pending {
        gif: None,
        frames_dir: None,
        spritesheet: None,
        cell: None,
        row_counts: None,
        name: None,
        states: None,
        out: None,
        manifest_out: None,
        bg_tolerance: None,
    };
    let mut i: usize = 0;
    assert(raw.skip(0) =~= raw);
    assert(p@ == no_flags());
    while i < raw_args.len()
        invariant
            raw == texts(raw_args@),
            raw.len() == raw_args@.len(),
            i <= raw_args.len(),
            scan_flags(raw, no_flags()) == scan_flags(raw.skip(i as int), p@),
        decreases raw_args.len() - i,
    {
        let ghost here = raw.skip(i as int);
        assert(here[0] == raw_args@[i as int]@);
        let flag = &raw_args[i];
        match flag_slot_exec(flag.as_str()) {
            None => {
                return Err(framed("unknown flag '", &chars_of(flag.as_str()), "'"));
            },
            Some(slot) => {
                if i + 1 >= raw_args.len() {
                    let mut message = flag.clone();
                    message.append(" needs a value");
                    return Err(message);
                }
                assert(here[1] == raw_args@[i + 1]@);
                let value = &raw_args[i + 1];
                match apply_flag_exec(&mut p, slot, value) {
                    Err(e) => return Err(e),
                    Ok(()) => {},
                }
                assert(here.skip(2) =~= raw.skip(i + 2));
                i = i + 2;
            },
        }
    }
    assert(raw.skip(i as int) =~= Seq::<Seq<char>>::empty());
    finish_exec(p)
}

} // verus!
