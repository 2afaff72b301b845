//! Where the overlay window goes, and why.
//!
//! The order is: what the user configured, then what the platform can detect,
//! then the primary display with a warning naming the config key. This module
//! holds no window-system types, so the precedence is a pure function.

use vstd::prelude::*;

use crate::text::{
    chars_of, decimal, parse_i32, parse_i32_exec, parse_unsigned, parse_unsigned_exec, push_decimal,
    same_text, split_once, split_once_chars, string_of, trim, trim_chars,
};

verus! {

/// A display's position and size in the window system's global coordinate space.
#[derive(Debug, Clone, Copy, PartialEq, Eq, Structural)]
pub struct MonitorGeometry {
    pub x: i32,
    pub y: i32,
    pub width: u32,
    pub height: u32,
}

/// `i32::saturating_add`.
pub open spec fn saturating_i32(v: int) -> i32 {
    if v > i32::MAX {
        i32::MAX
    } else if v < i32::MIN {
        i32::MIN
    } else {
        v as i32
    }
}

impl MonitorGeometry {
    /// Whether the point lies on this display. The far edges are computed the
    /// way the window system's sizes arrive: the size read as an `i32` and the
    /// sum saturated.
    pub open spec fn spec_contains(self, x: i32, y: i32) -> bool {
        &&& x >= self.x
        &&& y >= self.y
        &&& x < saturating_i32(self.x + (self.width as i32))
        &&& y < saturating_i32(self.y + (self.height as i32))
    }

    pub fn contains(&self, x: i32, y: i32) -> (inside: bool)
        ensures
            inside == self.spec_contains(x, y),
    {
        let right = saturating_add_i32(self.x, self.width as i32);
        let bottom = saturating_add_i32(self.y, self.height as i32);
        x >= self.x && y >= self.y && x < right && y < bottom
    }
}

fn saturating_add_i32(a: i32, b: i32) -> (sum: i32)
    ensures
        sum == saturating_i32(a + b),
{
    let wide = (a as i64) + (b as i64);
    if wide > i32::MAX as i64 {
        i32::MAX
    } else if wide < i32::MIN as i64 {
        i32::MIN
    } else {
        wide as i32
    }
}

/// An explicit choice from `require("distract").setup { overlay = ... }`.
#[derive(Debug, Clone, Copy, PartialEq, Eq, Structural)]
pub enum ConfiguredPlacement {
    /// Index into the window system's monitor list.
    Monitor(usize),
    /// A point in the global coordinate space.
    Position { x: i32, y: i32 },
}

#[derive(Debug, Clone, Copy, PartialEq, Eq, Structural)]
pub struct OverlayPlacement {
    pub x: i32,
    pub y: i32,
    pub width: u32,
    pub height: u32,
}

pub struct PlacementRequest<'a> {
    pub configured: Option<ConfiguredPlacement>,
    /// The display holding the focused window, when the platform can say.
    pub focused: Option<MonitorGeometry>,
    /// Every display, primary first, as the window system reports them.
    pub monitors: &'a [MonitorGeometry],
}

/// The window is never made smaller than this, even on a display that is.
pub const MIN_WIDTH: u32 = 800;

pub const MIN_HEIGHT: u32 = 600;

pub const MAX_WIDTH: u32 = 3840;

pub const MAX_HEIGHT: u32 = 2160;

/// Used only when the window system reports no displays at all.
pub const FALLBACK_WIDTH: u32 = 1920;

pub const FALLBACK_HEIGHT: u32 = 1080;

/// `clamp` onto `[lo, hi]`.
pub open spec fn clamp_u32(v: u32, lo: u32, hi: u32) -> u32 {
    if v < lo {
        lo
    } else if v > hi {
        hi
    } else {
        v
    }
}

/// The window that covers one display, kept within the size bounds.
pub open spec fn spec_placement_on(monitor: MonitorGeometry) -> OverlayPlacement {
    OverlayPlacement {
        x: monitor.x,
        y: monitor.y,
        width: clamp_u32(monitor.width, MIN_WIDTH, MAX_WIDTH),
        height: clamp_u32(monitor.height, MIN_HEIGHT, MAX_HEIGHT),
    }
}

/// The primary display's window, or a fixed one at the origin when there is
/// no display at all.
pub open spec fn spec_primary(monitors: Seq<MonitorGeometry>) -> OverlayPlacement {
    if monitors.len() > 0 {
        spec_placement_on(monitors[0])
    } else {
        OverlayPlacement { x: 0, y: 0, width: FALLBACK_WIDTH, height: FALLBACK_HEIGHT }
    }
}

/// Index of the first display holding the point, or -1.
pub open spec fn first_host(monitors: Seq<MonitorGeometry>, x: i32, y: i32) -> int
    decreases monitors.len(),
{
    if monitors.len() == 0 {
        -1
    } else if monitors[0].spec_contains(x, y) {
        0
    } else {
        let rest = first_host(monitors.drop_first(), x, y);
        if rest < 0 {
            -1
        } else {
            rest + 1
        }
    }
}

pub open spec fn hint_text() -> Seq<char> {
    "set it explicitly with require('distract').setup { overlay = { monitor = <index> } } (0 is the primary display), or overlay = { position = { x, y } }"@
}

/// The warning for a configured monitor index the system does not have.
pub open spec fn monitor_warning(index: usize, count: nat) -> Seq<char> {
    "overlay.monitor is "@ + decimal(index as nat) + " but this system reports "@ + decimal(count)
        + " display(s); falling back to the primary one. Valid indices are 0.."@ + decimal(
        if count > 0 {
            (count - 1) as nat
        } else {
            0
        },
    )
}

/// The warning for a display that could not be detected.
pub open spec fn undetected_warning() -> Seq<char> {
    "could not detect which display the terminal is on, so the overlay opened on the primary one. If that is the wrong screen, "@
        + hint_text()
}

/// Where the overlay goes, and the warning that comes with a guess.
pub open spec fn spec_resolve(
    configured: Option<ConfiguredPlacement>,
    focused: Option<MonitorGeometry>,
    monitors: Seq<MonitorGeometry>,
) -> (OverlayPlacement, Option<Seq<char>>) {
    match configured {
        Some(ConfiguredPlacement::Position { x, y }) => {
            let host = first_host(monitors, x, y);
            let sized = if host >= 0 {
                spec_placement_on(monitors[host])
            } else if monitors.len() > 0 {
                spec_placement_on(monitors[0])
            } else {
                OverlayPlacement { x, y, width: FALLBACK_WIDTH, height: FALLBACK_HEIGHT }
            };
            (OverlayPlacement { x, y, ..sized }, None)
        },
        Some(ConfiguredPlacement::Monitor(index)) => {
            if index < monitors.len() {
                (spec_placement_on(monitors[index as int]), None)
            } else {
                (spec_primary(monitors), Some(monitor_warning(index, monitors.len())))
            }
        },
        None => match focused {
            Some(monitor) => (spec_placement_on(monitor), None),
            None => (spec_primary(monitors), Some(undetected_warning())),
        },
    }
}

fn clamp_exec(v: u32, lo: u32, hi: u32) -> (out: u32)
    requires
        lo <= hi,
    ensures
        out == clamp_u32(v, lo, hi),
{
    if v < lo {
        lo
    } else if v > hi {
        hi
    } else {
        v
    }
}

pub fn placement_on(monitor: &MonitorGeometry) -> (placement: OverlayPlacement)
    ensures
        placement == spec_placement_on(*monitor),
{
    OverlayPlacement {
        x: monitor.x,
        y: monitor.y,
        width: clamp_exec(monitor.width, MIN_WIDTH, MAX_WIDTH),
        height: clamp_exec(monitor.height, MIN_HEIGHT, MAX_HEIGHT),
    }
}

fn fall_back_to_primary(request: &PlacementRequest) -> (placement: OverlayPlacement)
    ensures
        placement == spec_primary(request.monitors@),
{
    if request.monitors.len() > 0 {
        placement_on(&request.monitors[0])
    } else {
        OverlayPlacement { x: 0, y: 0, width: FALLBACK_WIDTH, height: FALLBACK_HEIGHT }
    }
}

fn find_host(monitors: &[MonitorGeometry], x: i32, y: i32) -> (found: Option<usize>)
    ensures
        match found {
            Some(i) => i as int == first_host(monitors@, x, y) && i < monitors@.len(),
            None => first_host(monitors@, x, y) < 0,
        },
{
    let mut i: usize = 0;
    assert(monitors@.skip(0) =~= monitors@);
    while i < monitors.len()
        invariant
            i <= monitors@.len(),
            first_host(monitors@, x, y) == (if first_host(monitors@.skip(i as int), x, y) < 0 {
                -1
            } else {
                first_host(monitors@.skip(i as int), x, y) + i
            }),
        decreases monitors@.len() - i,
    {
        assert(monitors@.skip(i as int).drop_first() =~= monitors@.skip(i + 1));
        if monitors[i].contains(x, y) {
            return Some(i);
        }
        i = i + 1;
    }
    None
}

fn undetected_warning_text() -> (text: String)
    ensures
        text@ == undetected_warning(),
{
    let mut text = String::from_str(
        "could not detect which display the terminal is on, so the overlay opened on the primary one. If that is the wrong screen, ",
    );
    text.append(
        "set it explicitly with require('distract').setup { overlay = { monitor = <index> } } (0 is the primary display), or overlay = { position = { x, y } }",
    );
    text
}

fn monitor_warning_text(index: usize, count: usize) -> (text: String)
    ensures
        text@ == monitor_warning(index, count as nat),
{
    let mut text = String::from_str("overlay.monitor is ");
    push_decimal(&mut text, index as u64);
    text.append(" but this system reports ");
    push_decimal(&mut text, count as u64);
    text.append(" display(s); falling back to the primary one. Valid indices are 0..");
    let last: usize = if count > 0 {
        count - 1
    } else {
        0
    };
    push_decimal(&mut text, last as u64);
    text
}

/// Resolves where the overlay goes, plus a warning when the answer was a guess.
///
/// A returned warning is not a failure: the overlay still opens. It says the
/// display was chosen for the user rather than by them.
pub fn resolve(request: &PlacementRequest) -> (out: (OverlayPlacement, Option<String>))
    ensures
        ({
            let expected = spec_resolve(request.configured, request.focused, request.monitors@);
            &&& out.0 == expected.0
            &&& match out.1 {
                Some(w) => expected.1 == Some(w@),
                None => expected.1 is None,
            }
        }),
{
    match request.configured {
        Some(ConfiguredPlacement::Position { x, y }) => {
            let sized = match find_host(request.monitors, x, y) {
                Some(i) => placement_on(&request.monitors[i]),
                None => fall_back_to_primary(request),
            };
            (OverlayPlacement { x, y, width: sized.width, height: sized.height }, None)
        },
        Some(ConfiguredPlacement::Monitor(index)) => {
            if index < request.monitors.len() {
                (placement_on(&request.monitors[index]), None)
            } else {
                let warning = monitor_warning_text(index, request.monitors.len());
                (fall_back_to_primary(request), Some(warning))
            }
        },
        None => match request.focused {
            Some(monitor) => (placement_on(&monitor), None),
            None => (fall_back_to_primary(request), Some(undetected_warning_text())),
        },
    }
}

/// The argument grammar of `--overlay-monitor <index>` and
/// `--overlay-position <x>,<y>`: the last placement flag wins, anything else
/// is skipped, and a malformed value is an error.
pub open spec fn spec_from_args(
    args: Seq<Seq<char>>,
    configured: Option<ConfiguredPlacement>,
) -> Result<Option<ConfiguredPlacement>, Seq<char>>
    decreases args.len(),
{
    if args.len() == 0 {
        Ok(configured)
    } else if args[0] == "--overlay-monitor"@ {
        if args.len() < 2 {
            Err("--overlay-monitor needs an index"@)
        } else {
            match parse_unsigned(args[1], usize::MAX as nat) {
                Some(index) => spec_from_args(
                    args.skip(2),
                    Some(ConfiguredPlacement::Monitor(index as usize)),
                ),
                None => Err("--overlay-monitor expects an index, got '"@ + args[1] + "'"@),
            }
        }
    } else if args[0] == "--overlay-position"@ {
        if args.len() < 2 {
            Err("--overlay-position needs <x>,<y>"@)
        } else {
            match split_once(args[1], ',') {
                None => Err("--overlay-position expects <x>,<y>, got '"@ + args[1] + "'"@),
                Some((xs, ys)) => match parse_i32(trim(xs)) {
                    None => Err("--overlay-position x is not a number: '"@ + xs + "'"@),
                    Some(x) => match parse_i32(trim(ys)) {
                        None => Err("--overlay-position y is not a number: '"@ + ys + "'"@),
                        Some(y) => spec_from_args(
                            args.skip(2),
                            Some(ConfiguredPlacement::Position { x: x as i32, y: y as i32 }),
                        ),
                    },
                },
            }
        }
    } else {
        spec_from_args(args.drop_first(), configured)
    }
}

/// The arguments as text.
pub open spec fn args_model(args: Seq<String>) -> Seq<Seq<char>> {
    args.map_values(|a: String| a@)
}

fn quoted_error(head: &str, body: &Vec<char>) -> (text: String)
    ensures
        text@ == head@ + body@ + "'"@,
{
    let mut text = String::from_str(head);
    let inner = string_of(body);
    text.append(inner.as_str());
    text.append("'");
    text
}

/// Parses `--overlay-monitor <index>` / `--overlay-position <x>,<y>` from argv.
///
/// Returns `Err` rather than ignoring a malformed value: a typo that silently
/// reverted to the old behaviour is the failure this whole module exists to stop.
pub fn from_args(args: Vec<String>) -> (out: Result<Option<ConfiguredPlacement>, String>)
    ensures
        match out {
            Ok(configured) => spec_from_args(args_model(args@), None) == Ok::<
                Option<ConfiguredPlacement>,
                Seq<char>,
            >(configured),
            Err(message) => spec_from_args(args_model(args@), None) == Err::<
                Option<ConfiguredPlacement>,
                Seq<char>,
            >(message@),
        },
{
    let ghost all = args_model(args@);
    let mut configured: Option<ConfiguredPlacement> = None;
    let mut i: usize = 0;
    assert(all.skip(0) =~= all);
    while i < args.len()
        invariant
            i <= args@.len(),
            all == args_model(args@),
            spec_from_args(all, None) == spec_from_args(all.skip(i as int), configured),
        decreases args@.len() - i,
    {
        let ghost rest = all.skip(i as int);
        let arg = args[i].as_str();
        assert(rest[0] == arg@);
        if same_text(arg, "--overlay-monitor") {
            if i + 1 >= args.len() {
                return Err(String::from_str("--overlay-monitor needs an index"));
            }
            let raw = chars_of(args[i + 1].as_str());
            assert(rest[1] == raw@);
            assert(rest.skip(2) =~= all.skip(i + 2));
            match parse_unsigned_exec(&raw, usize::MAX as u64) {
                Some(index) => {
                    configured = Some(ConfiguredPlacement::Monitor(index as usize));
                    i = i + 2;
                },
                None => {
                    return Err(quoted_error("--overlay-monitor expects an index, got '", &raw));
                },
            }
        } else if same_text(arg, "--overlay-position") {
            if i + 1 >= args.len() {
                return Err(String::from_str("--overlay-position needs <x>,<y>"));
            }
            let raw = chars_of(args[i + 1].as_str());
            assert(rest[1] == raw@);
            assert(rest.skip(2) =~= all.skip(i + 2));
            match split_once_chars(&raw, ',') {
                None => {
                    return Err(quoted_error("--overlay-position expects <x>,<y>, got '", &raw));
                },
                Some((xs, ys)) => {
                    let xt = trim_chars(&xs);
                    let yt = trim_chars(&ys);
                    match parse_i32_exec(&xt) {
                        None => {
                            return Err(quoted_error("--overlay-position x is not a number: '", &xs));
                        },
                        Some(x) => match parse_i32_exec(&yt) {
                            None => {
                                return Err(
                                    quoted_error("--overlay-position y is not a number: '", &ys),
                                );
                            },
                            Some(y) => {
                                configured = Some(ConfiguredPlacement::Position { x, y });
                                i = i + 2;
                            },
                        },
                    }
                },
            }
        } else {
            assert(rest.drop_first() =~= all.skip(i + 1));
            i = i + 1;
        }
    }
    assert(all.skip(args@.len() as int) =~= Seq::<Seq<char>>::empty());
    Ok(configured)
}

/// The window is never smaller than the minimum nor larger than the maximum,
/// whatever was configured, detected or reported.
pub proof fn law_resolved_size_is_bounded(
    configured: Option<ConfiguredPlacement>,
    focused: Option<MonitorGeometry>,
    monitors: Seq<MonitorGeometry>,
)
    ensures
        ({
            let placed = spec_resolve(configured, focused, monitors).0;
            &&& MIN_WIDTH <= placed.width <= MAX_WIDTH
            &&& MIN_HEIGHT <= placed.height <= MAX_HEIGHT
        }),
{
    if let Some(ConfiguredPlacement::Position { x, y }) = configured {
        lemma_first_host_bounds(monitors, x, y);
    }
}

proof fn lemma_first_host_bounds(monitors: Seq<MonitorGeometry>, x: i32, y: i32)
    ensures
        -1 <= first_host(monitors, x, y) < monitors.len(),
        first_host(monitors, x, y) >= 0 ==> monitors[first_host(monitors, x, y)].spec_contains(
            x,
            y,
        ),
        forall|j: int|
            0 <= j < monitors.len() && (first_host(monitors, x, y) < 0 || j < first_host(
                monitors,
                x,
                y,
            )) ==> !(#[trigger] monitors[j]).spec_contains(x, y),
    decreases monitors.len(),
{
    if monitors.len() > 0 && !monitors[0].spec_contains(x, y) {
        lemma_first_host_bounds(monitors.drop_first(), x, y);
        assert forall|j: int|
            0 <= j < monitors.len() && (first_host(monitors, x, y) < 0 || j < first_host(
                monitors,
                x,
                y,
            )) implies !(#[trigger] monitors[j]).spec_contains(x, y) by {
            if j > 0 {
                assert(monitors[j] == monitors.drop_first()[j - 1]);
            }
        }
    }
}

/// A configured point is the window's corner, and the window takes the size
/// of the first display holding the point (each display before it does not
/// hold it), or the primary display's size when none does.
pub proof fn law_a_configured_point_takes_its_displays_size(
    x: i32,
    y: i32,
    focused: Option<MonitorGeometry>,
    monitors: Seq<MonitorGeometry>,
)
    ensures
        ({
            let placed = spec_resolve(Some(ConfiguredPlacement::Position { x, y }), focused, monitors).0;
            let sized_by = |m: MonitorGeometry|
                {
                    &&& placed.width == (if m.width < MIN_WIDTH {
                        MIN_WIDTH
                    } else if m.width > MAX_WIDTH {
                        MAX_WIDTH
                    } else {
                        m.width
                    })
                    &&& placed.height == (if m.height < MIN_HEIGHT {
                        MIN_HEIGHT
                    } else if m.height > MAX_HEIGHT {
                        MAX_HEIGHT
                    } else {
                        m.height
                    })
                };
            &&& placed.x == x
            &&& placed.y == y
            &&& (exists|k: int| 0 <= k < monitors.len() && #[trigger] monitors[k].spec_contains(x, y))
                ==> exists|k: int|
                0 <= k < monitors.len() && #[trigger] monitors[k].spec_contains(x, y) && sized_by(
                    monitors[k],
                ) && forall|j: int| 0 <= j < k ==> !(#[trigger] monitors[j]).spec_contains(x, y)
            &&& (forall|k: int| 0 <= k < monitors.len() ==> !#[trigger] monitors[k].spec_contains(x, y))
                ==> if monitors.len() > 0 {
                sized_by(monitors[0])
            } else {
                placed.width == FALLBACK_WIDTH && placed.height == FALLBACK_HEIGHT
            }
        }),
{
    lemma_first_host_bounds(monitors, x, y);
    let h = first_host(monitors, x, y);
    if h >= 0 {
        assert(monitors[h].spec_contains(x, y));
    }
}

/// What the user configured beats detection: with a placement configured,
/// the focused display plays no part, and an explicit position is used
/// verbatim.
pub proof fn law_configuration_beats_detection(
    configured: ConfiguredPlacement,
    focused_a: Option<MonitorGeometry>,
    focused_b: Option<MonitorGeometry>,
    monitors: Seq<MonitorGeometry>,
)
    ensures
        spec_resolve(Some(configured), focused_a, monitors) == spec_resolve(
            Some(configured),
            focused_b,
            monitors,
        ),
        configured matches ConfiguredPlacement::Position { x, y } ==> spec_resolve(
            Some(configured),
            focused_a,
            monitors,
        ).0.x == x && spec_resolve(Some(configured), focused_a, monitors).0.y == y,
{
}

/// A warning comes exactly when the display was guessed: a configured index
/// the system does not have, or nothing configured and nothing detected.
pub proof fn law_warning_exactly_when_guessed(
    configured: Option<ConfiguredPlacement>,
    focused: Option<MonitorGeometry>,
    monitors: Seq<MonitorGeometry>,
)
    ensures
        spec_resolve(configured, focused, monitors).1 is Some <==> (match configured {
            Some(ConfiguredPlacement::Monitor(index)) => index >= monitors.len(),
            Some(ConfiguredPlacement::Position { .. }) => false,
            None => focused is None,
        }),
{
}


/// The overlay lands on the display it was told to, or the one it found: a
/// configured index the system has opens on that display; an index it lacks,
/// or no display detected, opens on the primary one (the first); nothing
/// configured opens on the focused display; a configured point is used as
/// the corner. The window takes its display's corner and its display's size
/// held between the bounds.
pub proof fn law_the_overlay_opens_on_the_chosen_display(
    configured: Option<ConfiguredPlacement>,
    focused: Option<MonitorGeometry>,
    monitors: Seq<MonitorGeometry>,
)
    ensures
        ({
            let placed = spec_resolve(configured, focused, monitors).0;
            let covers = |m: MonitorGeometry|
                {
                    &&& placed.x == m.x
                    &&& placed.y == m.y
                    &&& placed.width == (if m.width < MIN_WIDTH {
                        MIN_WIDTH
                    } else if m.width > MAX_WIDTH {
                        MAX_WIDTH
                    } else {
                        m.width
                    })
                    &&& placed.height == (if m.height < MIN_HEIGHT {
                        MIN_HEIGHT
                    } else if m.height > MAX_HEIGHT {
                        MAX_HEIGHT
                    } else {
                        m.height
                    })
                };
            let primary = if monitors.len() > 0 {
                covers(monitors[0])
            } else {
                placed == OverlayPlacement { x: 0, y: 0, width: FALLBACK_WIDTH, height: FALLBACK_HEIGHT }
            };
            match configured {
                Some(ConfiguredPlacement::Monitor(i)) => if i < monitors.len() {
                    covers(monitors[i as int])
                } else {
                    primary
                },
                Some(ConfiguredPlacement::Position { x, y }) => placed.x == x && placed.y == y,
                None => match focused {
                    Some(m) => covers(m),
                    None => primary,
                },
            }
        }),
{
}

} // verus!
