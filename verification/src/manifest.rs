//! The vocabulary of an asset manifest: how an entity is drawn and bounded,
//! what its states switch to, what it may do, and the defaults a manifest
//! gets for what it leaves out.

use std::collections::HashMap;
use vstd::prelude::*;
use crate::text::{lemma_text_less_asymmetric, lemma_text_less_total, same_text, text_less, text_less_exec};

verus! {

/// How an entity is drawn.
#[derive(Debug, Clone, Copy, PartialEq, Eq, Structural)]
pub enum RenderMode {
    /// One textured quad per entity, ordered by `z_index`.
    Flat,
    /// A voxel model extruded from the entity's current frame.
    Voxel,
}

impl Default for RenderMode {
    fn default() -> (mode: Self)
        ensures
            mode == RenderMode::Flat,
    {
        RenderMode::Flat
    }
}

impl RenderMode {
    pub fn is_voxel(self) -> (voxel: bool)
        ensures
            voxel == (self == RenderMode::Voxel),
    {
        match self {
            RenderMode::Voxel => true,
            RenderMode::Flat => false,
        }
    }
}

/// What happens to an entity at the edge of the viewport.
#[derive(Debug, Clone, Copy, PartialEq, Eq, Structural)]
pub enum WrapMode {
    /// It reappears at the opposite edge.
    Wrap,
    /// It turns round, reversing its velocity and its facing.
    Bounce,
    /// It is held inside the edges.
    Clamp,
    /// It is removed.
    Despawn,
    /// Nothing happens (the manifest's `none`).
    NoBoundary,
}

impl Default for WrapMode {
    fn default() -> (mode: Self)
        ensures
            mode == WrapMode::Wrap,
    {
        WrapMode::Wrap
    }
}

/// What an obstacle does to an entity that reaches it.
#[derive(Debug, Clone, Copy, PartialEq, Eq, Structural)]
pub enum ObstacleKind {
    /// A one-way floor, caught from above and walked along.
    SolidPlatform,
    /// A wall an entity turns away from.
    Hazard,
}

/// Which way an entity was pushed out of a hazard.
#[derive(Debug, Clone, Copy, PartialEq, Eq, Structural)]
pub enum PushDirection {
    /// Turned back to the left.
    Left,
    /// Turned back to the right.
    Right,
}

/// State transition rules.
#[derive(Debug, Clone)]
pub struct TransitionConfig {
    /// Editor event name to the state it switches to.
    pub on_event: HashMap<String, String>,
    /// State to switch to when a non-looping animation completes.
    pub on_finish: Option<String>,
    /// Milliseconds after which the state switches to `on_timeout`.
    pub timeout_ms: Option<u64>,
    pub on_timeout: Option<String>,
    /// States to switch to on reaching the left or right edge.
    pub on_edge_left: Option<String>,
    pub on_edge_right: Option<String>,
    /// State to switch to on the tick a ballistic entity reaches its floor.
    pub on_land: Option<String>,
}

impl Default for TransitionConfig {
    fn default() -> (config: Self)
        ensures
            config.on_event@ == Map::<String, String>::empty(),
            config.on_finish is None,
            config.timeout_ms is None,
            config.on_timeout is None,
            config.on_edge_left is None,
            config.on_edge_right is None,
            config.on_land is None,
    {
        TransitionConfig {
            on_event: HashMap::new(),
            on_finish: None,
            timeout_ms: None,
            on_timeout: None,
            on_edge_left: None,
            on_edge_right: None,
            on_land: None,
        }
    }
}

/// A custom action callable from user commands.
#[derive(Debug, Clone)]
pub struct CustomActionConfig {
    pub target_state: String,
    pub duration_ms: Option<u64>,
    pub return_state: Option<String>,
    pub is_locked: Option<bool>,
}

/// What an asset declares it is allowed to do; permissive when omitted.
#[derive(Debug, Clone)]
pub struct Capabilities {
    pub locomotion: Option<Vec<String>>,
}

impl Default for Capabilities {
    fn default() -> (capabilities: Self)
        ensures
            capabilities.locomotion is None,
    {
        Capabilities { locomotion: None }
    }
}

/// A manifest flag's default when it is left out.
pub fn default_true() -> (b: bool)
    ensures
        b,
{
    true
}

/// A manifest's `asset_type` when it is left out.
pub fn default_asset_type() -> (name: String)
    ensures
        name@ == "sprite"@,
{
    String::from_str("sprite")
}

/// A manifest's `initial_state` when it is left out.
pub fn default_initial_state() -> (name: String)
    ensures
        name@ == "idle"@,
{
    String::from_str("idle")
}

/// Whether an asset name has a built-in procedural sprite set.
pub fn is_builtin(name: &str) -> (builtin: bool)
    ensures
        builtin == (name@ == "cat"@ || name@ == "crab"@ || name@ == "sun"@),
{
    same_text(name, "cat") || same_text(name, "crab") || same_text(name, "sun")
}

/// Why the overlay cannot make its window transparent to the mouse.
#[derive(Debug)]
pub struct ClickThroughUnsupported {
    pub reason: String,
}

impl ClickThroughUnsupported {
    /// The reason, as the error's text.
    pub fn message(&self) -> (text: String)
        ensures
            text@ == self.reason@,
    {
        self.reason.clone()
    }
}

pub open spec fn click_through_reason(cause: Seq<char>) -> Seq<char> {
    "this display server does not support click-through overlays ("@ + cause
        + "). A fullscreen always-on-top window without it would capture every mouse click on your desktop, so the overlay backend refuses to start. On X11, run a compositing Wayland session, or use the default in-terminal backend: require('distract').setup({ backend = 'halfblock' })"@
}

/// The refusal when the display server cannot pass clicks through the window;
/// `cause` is the windowing layer's own error text.
pub fn click_through_refusal(cause: &str) -> (err: ClickThroughUnsupported)
    ensures
        err.reason@ == click_through_reason(cause@),
{
    let mut reason = String::from_str("this display server does not support click-through overlays (");
    reason.append(cause);
    reason.append("). A fullscreen always-on-top window without it would capture every mouse click on your desktop, so the overlay backend refuses to start. On X11, run a compositing Wayland session, or use the default in-terminal backend: require('distract').setup({ backend = 'halfblock' })");
    ClickThroughUnsupported { reason }
}

/// What the window's click-through request comes to: nothing when the
/// windowing layer accepted it, the refusal naming its error otherwise.
pub fn click_through_outcome(request: Result<(), String>) -> (out: Result<(), ClickThroughUnsupported>)
    ensures
        match request {
            Ok(()) => out is Ok,
            Err(cause) => out matches Err(e) && e.reason@ == click_through_reason(cause@),
        },
{
    match request {
        Ok(()) => Ok(()),
        Err(cause) => Err(click_through_refusal(cause.as_str())),
    }
}

/// Locomotion class names, in one place so the engine and the validator agree
/// on the spelling.
pub const GROUNDED: &'static str = "grounded";
pub const BALLISTIC: &'static str = "ballistic";
pub const OMNIDIRECTIONAL: &'static str = "omnidirectional";

/// What the capability check reads of a state's physics.
///
/// Gravity is a float in a manifest; the check only asks whether it pulls
/// (`gravity > 0`) and quotes it as the manifest writes it.
#[derive(Debug, Clone)]
pub struct PhysicsConfig {
    /// How this state moves, when it says so.
    pub locomotion: Option<String>,
    /// The positional path laid over velocity integration, if any.
    pub path_type: Option<String>,
    /// Whether the state's gravity pulls it down.
    pub falls: bool,
    /// The state's gravity as the manifest writes it.
    pub gravity: String,
}

/// What the capability check reads of one state.
#[derive(Debug, Clone)]
pub struct StateDefinition {
    pub physics: PhysicsConfig,
}

/// What the capability check reads of an asset manifest: its name, its
/// default locomotion, what it declares it may do, and its states by name.
#[derive(Debug, Clone)]
pub struct AssetManifest {
    pub name: String,
    pub locomotion: Option<String>,
    pub capabilities: Capabilities,
    pub states: Vec<(String, StateDefinition)>,
}

/// The locomotion a state derives when its manifest does not say: a floor
/// when there is gravity to fall under, free movement otherwise.
pub open spec fn spec_effective_locomotion(physics: PhysicsConfig) -> Seq<char> {
    match physics.locomotion {
        Some(explicit) => explicit@,
        None => if physics.falls {
            "grounded"@
        } else {
            "omnidirectional"@
        },
    }
}

/// The locomotion a state runs under: its own, then the asset's, then the
/// one derived from gravity.
pub open spec fn spec_locomotion_for(manifest: AssetManifest, state: StateDefinition) -> Seq<char> {
    match state.physics.locomotion {
        Some(own) => own@,
        None => match manifest.locomotion {
            Some(default) => default@,
            None => spec_effective_locomotion(state.physics),
        },
    }
}

pub open spec fn is_locomotion_class(name: Seq<char>) -> bool {
    name == "grounded"@ || name == "ballistic"@ || name == "omnidirectional"@
}

/// Paths that move y at most, and so do not need a floor-free state.
pub open spec fn is_floor_safe_path(path: Seq<char>) -> bool {
    path == "linear"@ || path == "sine"@
}

/// `names` with `", "` between them.
pub open spec fn comma_joined(names: Seq<Seq<char>>) -> Seq<char>
    decreases names.len(),
{
    if names.len() == 0 {
        Seq::empty()
    } else if names.len() == 1 {
        names[0]
    } else {
        comma_joined(names.drop_last()) + ", "@ + names.last()
    }
}

/// What is wrong with state `name` of `manifest`, if anything: the first of
/// an unknown class, a floor-free class under gravity, a path that needs a
/// floor-free class, and a class the asset does not declare.
pub open spec fn state_violation(
    manifest: AssetManifest,
    name: Seq<char>,
    state: StateDefinition,
) -> Option<Seq<char>> {
    let locomotion = spec_locomotion_for(manifest, state);
    if !is_locomotion_class(locomotion) {
        Some(
            "state '"@ + name + "' declares an unknown locomotion '"@ + locomotion
                + "'; expected one of grounded, ballistic, omnidirectional"@,
        )
    } else if locomotion == "omnidirectional"@ && state.physics.falls {
        Some(
            "state '"@ + name + "' declares 'omnidirectional' locomotion but sets gravity "@
                + state.physics.gravity@
                + "; gravity brings a floor with it, so the state would clamp to a floor it claims not to have"@,
        )
    } else if state.physics.path_type matches Some(path) && !is_floor_safe_path(path@)
        && locomotion != "omnidirectional"@ {
        Some(
            "state '"@ + name + "' uses the '"@ + state.physics.path_type.unwrap()@
                + "' path, which writes x directly and needs 'omnidirectional' locomotion, but the state is '"@
                + locomotion + "'"@,
        )
    } else if manifest.capabilities.locomotion matches Some(allowed) && !allowed@.map_values(
        |class: String| class@,
    ).contains(locomotion) {
        Some(
            "state '"@ + name + "' uses '"@ + locomotion + "' locomotion, which '"@ + manifest.name@
                + "' does not declare; capabilities.locomotion allows "@ + comma_joined(
                manifest.capabilities.locomotion.unwrap()@.map_values(|class: String| class@),
            ),
        )
    } else {
        None
    }
}

impl PhysicsConfig {
    /// This state's locomotion class, derived from gravity when the manifest
    /// omits it.
    pub fn effective_locomotion(&self) -> (name: String)
        ensures
            name@ == spec_effective_locomotion(*self),
    {
        match &self.locomotion {
            Some(explicit) => explicit.clone(),
            None => if self.falls {
                String::from_str(GROUNDED)
            } else {
                String::from_str(OMNIDIRECTIONAL)
            },
        }
    }
}

fn comma_join(names: &Vec<String>) -> (text: String)
    ensures
        text@ == comma_joined(names@.map_values(|class: String| class@)),
{
    let ghost views = names@.map_values(|class: String| class@);
    let mut text = String::from_str("");
    proof {
        reveal_strlit("");
        assert(views.take(0) =~= Seq::<Seq<char>>::empty());
    }
    let mut i: usize = 0;
    while i < names.len()
        invariant
            i <= names@.len(),
            views == names@.map_values(|class: String| class@),
            text@ == comma_joined(views.take(i as int)),
        decreases names@.len() - i,
    {
        if i > 0 {
            text.append(", ");
        }
        text.append(names[i].as_str());
        proof {
            assert(views.take(i + 1).drop_last() =~= views.take(i as int));
            if i == 0 {
                assert(views.take(1) =~= seq![views[0]]);
            }
        }
        i = i + 1;
    }
    assert(views.take(names@.len() as int) =~= views);
    text
}

fn allows(allowed: &Vec<String>, class: &str) -> (found: bool)
    ensures
        found == allowed@.map_values(|c: String| c@).contains(class@),
{
    let ghost views = allowed@.map_values(|c: String| c@);
    let mut i: usize = 0;
    while i < allowed.len()
        invariant
            i <= allowed@.len(),
            views == allowed@.map_values(|c: String| c@),
            forall|j: int| 0 <= j < i ==> views[j] != class@,
        decreases allowed@.len() - i,
    {
        if same_text(allowed[i].as_str(), class) {
            assert(views[i as int] == class@);
            return true;
        }
        i = i + 1;
    }
    false
}

impl AssetManifest {
    /// The locomotion class a state runs under: the state's own value wins,
    /// then the asset-level default, then the derivation from gravity that
    /// keeps older manifests working.
    pub fn locomotion_for(&self, state: &StateDefinition) -> (name: String)
        ensures
            name@ == spec_locomotion_for(*self, *state),
    {
        match &state.physics.locomotion {
            Some(own) => own.clone(),
            None => match &self.locomotion {
                Some(default) => default.clone(),
                None => state.physics.effective_locomotion(),
            },
        }
    }

    fn state_violation_exec(&self, name: &str, state: &StateDefinition) -> (out: Option<String>)
        ensures
            match out {
                Some(text) => state_violation(*self, name@, *state) == Some(text@),
                None => state_violation(*self, name@, *state) is None,
            },
    {
        proof {
            reveal_strlit("grounded");
            reveal_strlit("ballistic");
            reveal_strlit("omnidirectional");
            reveal_strlit("linear");
            reveal_strlit("sine");
        }
        let locomotion = self.locomotion_for(state);
        let l = locomotion.as_str();
        if !(same_text(l, GROUNDED) || same_text(l, BALLISTIC) || same_text(l, OMNIDIRECTIONAL)) {
            let mut text = String::from_str("state '");
            text.append(name);
            text.append("' declares an unknown locomotion '");
            text.append(l);
            text.append("'; expected one of grounded, ballistic, omnidirectional");
            return Some(text);
        }
        let omni = same_text(l, OMNIDIRECTIONAL);
        if omni && state.physics.falls {
            let mut text = String::from_str("state '");
            text.append(name);
            text.append("' declares 'omnidirectional' locomotion but sets gravity ");
            text.append(state.physics.gravity.as_str());
            text.append("; gravity brings a floor with it, so the state would clamp to a floor it claims not to have");
            return Some(text);
        }
        if let Some(path) = &state.physics.path_type {
            let p = path.as_str();
            if !(same_text(p, "linear") || same_text(p, "sine")) && !omni {
                let mut text = String::from_str("state '");
                text.append(name);
                text.append("' uses the '");
                text.append(p);
                text.append("' path, which writes x directly and needs 'omnidirectional' locomotion, but the state is '");
                text.append(l);
                text.append("'");
                return Some(text);
            }
        }
        if let Some(allowed) = &self.capabilities.locomotion {
            if !allows(allowed, l) {
                let mut text = String::from_str("state '");
                text.append(name);
                text.append("' uses '");
                text.append(l);
                text.append("' locomotion, which '");
                text.append(self.name.as_str());
                text.append("' does not declare; capabilities.locomotion allows ");
                let listed = comma_join(allowed);
                text.append(listed.as_str());
                return Some(text);
            }
        }
        None
    }

    /// Checks every state against this asset's declared capabilities.
    ///
    /// The states are taken in order of name, so the error names the same
    /// state on every run: the one with the least name among those that
    /// break a rule.
    pub fn validate_capabilities(&self) -> (out: Result<(), String>)
        ensures
            match out {
                Ok(()) => forall|k: int| !#[trigger] violates(*self, k),
                Err(text) => exists|k: int|
                    #[trigger] first_violation(*self, k) && state_violation(
                        *self,
                        self.states@[k].0@,
                        self.states@[k].1,
                    ) == Some(text@),
            },
    {
        let mut first: Option<(usize, String)> = None;
        let mut k: usize = 0;
        while k < self.states.len()
            invariant
                k <= self.states@.len(),
                match first {
                    None => forall|j: int|
                        0 <= j < k ==> state_violation(
                            *self,
                            (#[trigger] self.states@[j]).0@,
                            self.states@[j].1,
                        ) is None,
                    Some((b, text)) => {
                        &&& b < k
                        &&& state_violation(*self, self.states@[b as int].0@, self.states@[b as int].1)
                            == Some(text@)
                        &&& forall|j: int|
                            0 <= j < k && j != b && (state_violation(
                                *self,
                                (#[trigger] self.states@[j]).0@,
                                self.states@[j].1,
                            ) is Some) ==> !text_less(self.states@[j].0@, self.states@[b as int].0@)
                    },
                },
            decreases self.states@.len() - k,
        {
            let name = self.states[k].0.as_str();
            let found = self.state_violation_exec(name, &self.states[k].1);
            if let Some(text) = found {
                let replace = match &first {
                    None => true,
                    Some((b, _)) => text_less_exec(name, self.states[*b].0.as_str()),
                };
                if replace {
                    proof {
                        if let Some((b, _)) = first {
                            assert forall|j: int|
                                0 <= j < k + 1 && j != k && (state_violation(
                                    *self,
                                    (#[trigger] self.states@[j]).0@,
                                    self.states@[j].1,
                                ) is Some) implies !text_less(
                                self.states@[j].0@,
                                self.states@[k as int].0@,
                            ) by {
                                if j != b {
                                    lemma_text_less_total(self.states@[j].0@, self.states@[b as int].0@);
                                    if self.states@[j].0@ == self.states@[b as int].0@ {
                                        lemma_text_less_asymmetric(self.states@[k as int].0@, self.states@[b as int].0@);
                                    } else {
                                        crate::text::lemma_text_less_transitive(
                                            self.states@[k as int].0@,
                                            self.states@[b as int].0@,
                                            self.states@[j].0@,
                                        );
                                        lemma_text_less_asymmetric(self.states@[k as int].0@, self.states@[j].0@);
                                    }
                                } else {
                                    lemma_text_less_asymmetric(self.states@[k as int].0@, self.states@[b as int].0@);
                                }
                            }
                        }
                    }
                    first = Some((k, text));
                }
            }
            k = k + 1;
        }
        match first {
            None => {
                assert forall|k: int| !#[trigger] violates(*self, k) by {
                    if 0 <= k < self.states@.len() {
                        assert(state_violation(*self, self.states@[k].0@, self.states@[k].1) is None);
                    }
                }
                Ok(())
            },
            Some((b, text)) => {
                proof {
                    assert forall|j: int| #[trigger] violates(*self, j) implies !text_less(
                        self.states@[j].0@,
                        self.states@[b as int].0@,
                    ) by {
                        if j == b {
                            crate::text::lemma_text_less_irreflexive(self.states@[j].0@);
                        } else {
                            assert(state_violation(*self, self.states@[j].0@, self.states@[j].1) is Some);
                        }
                    }
                    assert(first_violation(*self, b as int));
                }
                Err(text)
            },
        }
    }
}

/// Whether state `k` of `manifest` breaks a rule.
pub open spec fn violates(manifest: AssetManifest, k: int) -> bool {
    0 <= k < manifest.states@.len() && state_violation(
        manifest,
        manifest.states@[k].0@,
        manifest.states@[k].1,
    ) is Some
}

/// Whether state `k` breaks a rule and no state with a lesser name does.
pub open spec fn first_violation(manifest: AssetManifest, k: int) -> bool {
    &&& violates(manifest, k)
    &&& forall|j: int|
        #![trigger violates(manifest, j)]
        violates(manifest, j) ==> !text_less(manifest.states@[j].0@, manifest.states@[k].0@)
}

/// No two states share a name.
pub open spec fn state_names_distinct(manifest: AssetManifest) -> bool {
    forall|i: int, j: int|
        0 <= i < manifest.states@.len() && 0 <= j < manifest.states@.len() && i != j
            ==> manifest.states@[i].0@ != manifest.states@[j].0@
}

/// Every state of `a` is a state of `b`, by name and definition.
pub open spec fn states_within(a: AssetManifest, b: AssetManifest) -> bool {
    forall|i: int|
        0 <= i < a.states@.len() ==> exists|j: int|
            0 <= j < b.states@.len() && b.states@[j].0@ == a.states@[i].0@ && #[trigger] b.states@[j].1
                == #[trigger] a.states@[i].1
}

proof fn lemma_violation_carries(a: AssetManifest, b: AssetManifest, i: int) -> (j: int)
    requires
        a.name == b.name,
        a.locomotion == b.locomotion,
        a.capabilities == b.capabilities,
        states_within(a, b),
        0 <= i < a.states@.len(),
    ensures
        0 <= j < b.states@.len(),
        b.states@[j].0@ == a.states@[i].0@,
        state_violation(b, b.states@[j].0@, b.states@[j].1) == state_violation(
            a,
            a.states@[i].0@,
            a.states@[i].1,
        ),
{
    choose|j: int|
        0 <= j < b.states@.len() && b.states@[j].0@ == a.states@[i].0@ && #[trigger] b.states@[j].1
            == #[trigger] a.states@[i].1
}

/// The capability check's verdict does not depend on the order the states
/// are listed in: a manifest's states held in any order break the same rule
/// first, by name, and so give the same error on every run.
pub proof fn law_first_violation_is_order_free(a: AssetManifest, b: AssetManifest, ka: int, kb: int)
    requires
        a.name == b.name,
        a.locomotion == b.locomotion,
        a.capabilities == b.capabilities,
        states_within(a, b),
        states_within(b, a),
        state_names_distinct(a),
        state_names_distinct(b),
        first_violation(a, ka),
        first_violation(b, kb),
    ensures
        a.states@[ka].0@ == b.states@[kb].0@,
        state_violation(a, a.states@[ka].0@, a.states@[ka].1) == state_violation(
            b,
            b.states@[kb].0@,
            b.states@[kb].1,
        ),
{
    let j = lemma_violation_carries(a, b, ka);
    let i = lemma_violation_carries(b, a, kb);
    assert(violates(b, j));
    assert(violates(a, i));
    assert(!text_less(b.states@[j].0@, b.states@[kb].0@));
    assert(!text_less(a.states@[i].0@, a.states@[ka].0@));
    lemma_text_less_total(a.states@[ka].0@, b.states@[kb].0@);
    if j != kb {
        assert(b.states@[j].0@ != b.states@[kb].0@);
    }
}

/// Whether the manifest breaks any rule at all.
pub proof fn law_some_state_breaks_a_rule_in_either_order(a: AssetManifest, b: AssetManifest, k: int)
    requires
        a.name == b.name,
        a.locomotion == b.locomotion,
        a.capabilities == b.capabilities,
        states_within(a, b),
        violates(a, k),
    ensures
        exists|j: int| #[trigger] violates(b, j),
{
    let j = lemma_violation_carries(a, b, k);
    assert(violates(b, j));
}


/// A state's own locomotion wins: whatever the asset declares, a state that
/// names its locomotion runs under it; a state that does not takes the
/// asset's, and failing both, falling means grounded and floating means
/// omnidirectional.
pub proof fn law_a_states_own_locomotion_wins(
    a: AssetManifest,
    b: AssetManifest,
    state: StateDefinition,
)
    ensures
        state.physics.locomotion is Some ==> spec_locomotion_for(a, state)
            == state.physics.locomotion->0@ && spec_locomotion_for(b, state)
            == state.physics.locomotion->0@,
        state.physics.locomotion is None && a.locomotion is Some ==> spec_locomotion_for(a, state)
            == a.locomotion->0@,
        state.physics.locomotion is None && a.locomotion is None ==> spec_locomotion_for(a, state)
            == (if state.physics.falls {
            GROUNDED@
        } else {
            OMNIDIRECTIONAL@
        }),
{
    reveal_strlit("grounded");
    reveal_strlit("omnidirectional");
}

} // verus!
