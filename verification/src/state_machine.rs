//! What makes an entity change state: an action requested by name, or an
//! editor event. These decide which entities a request applies to and what
//! state each goes to; moving the entities is the world's business.

use vstd::prelude::*;
use crate::manifest::CustomActionConfig;
use crate::text::same_text;

verus! {

/// What the state machine reads of a live entity.
#[derive(Debug)]
pub struct EntityKey {
    pub id: usize,
    pub asset_name: String,
    pub state: String,
    /// Whether an action holds the entity, so editor events pass it by.
    pub locked: bool,
}

/// An action applied to one entity: the entity, its asset, the state it
/// enters and whether it is held there.
#[derive(Debug)]
pub struct Triggered {
    pub id: usize,
    pub asset_name: String,
    pub target_state: String,
    pub locked: bool,
}

/// A triggered action as values.
pub open spec fn triggered_model(t: Triggered) -> (usize, Seq<char>, Seq<char>, bool) {
    (t.id, t.asset_name@, t.target_state@, t.locked)
}

/// The position of the first of the first `n` entries called `name`.
pub open spec fn first_named<V>(entries: Seq<(String, V)>, name: Seq<char>, n: nat) -> Option<int>
    decreases n,
{
    if n == 0 {
        None
    } else {
        match first_named(entries, name, (n - 1) as nat) {
            Some(i) => Some(i),
            None => if entries[n - 1].0@ == name {
                Some(n - 1)
            } else {
                None
            },
        }
    }
}

/// The value of the first entry called `name`, if any.
pub open spec fn lookup<V>(entries: Seq<(String, V)>, name: Seq<char>) -> Option<V> {
    match first_named(entries, name, entries.len()) {
        Some(i) => Some(entries[i].1),
        None => None,
    }
}

/// The first entry called `name`.
pub fn find_named<V>(entries: &Vec<(String, V)>, name: &str) -> (found: Option<usize>)
    ensures
        match found {
            Some(i) => i < entries@.len() && first_named(entries@, name@, entries@.len()) == Some(
                i as int,
            ),
            None => first_named(entries@, name@, entries@.len()) is None,
        },
{
    let mut k: usize = 0;
    while k < entries.len()
        invariant
            k <= entries@.len(),
            first_named(entries@, name@, k as nat) is None,
        decreases entries@.len() - k,
    {
        if same_text(entries[k].0.as_str(), name) {
            proof {
                lemma_first_named_stays(entries@, name@, (k + 1) as nat, entries@.len());
            }
            return Some(k);
        }
        k = k + 1;
    }
    None
}

/// Once found among the first `m` entries, the first entry called `name` is
/// the same among more of them.
proof fn lemma_first_named_stays<V>(entries: Seq<(String, V)>, name: Seq<char>, m: nat, n: nat)
    requires
        m <= n,
    ensures
        first_named(entries, name, m) is Some ==> first_named(entries, name, n) == first_named(
            entries,
            name,
            m,
        ),
    decreases n - m,
{
    if m < n {
        lemma_first_named_stays(entries, name, m, (n - 1) as nat);
    }
}

// ---------------------------------------------------------------------------
// Actions
// ---------------------------------------------------------------------------

/// Whether a request aimed at entity `id`, or else at every entity of
/// `asset`, or else at every entity, reaches `e`.
pub open spec fn targeted(e: EntityKey, id: Option<usize>, asset: Option<Seq<char>>) -> bool {
    match id {
        Some(t) => e.id == t,
        None => match asset {
            Some(a) => e.asset_name@ == a,
            None => true,
        },
    }
}

/// What action `action` does to entity `e`, when `e` is targeted and its
/// asset declares the action: it enters the action's state, held there unless
/// the action says otherwise.
pub open spec fn action_on(
    e: EntityKey,
    actions: Seq<(String, Vec<(String, CustomActionConfig)>)>,
    id: Option<usize>,
    asset: Option<Seq<char>>,
    action: Seq<char>,
) -> Option<(usize, Seq<char>, Seq<char>, bool)> {
    if !targeted(e, id, asset) {
        None
    } else {
        match lookup(actions, e.asset_name@) {
            None => None,
            Some(table) => match lookup(table@, action) {
                None => None,
                Some(def) => Some(
                    (
                        e.id,
                        e.asset_name@,
                        def.target_state@,
                        match def.is_locked {
                            Some(b) => b,
                            None => true,
                        },
                    ),
                ),
            },
        }
    }
}

/// The actions applied to the first `n` entities, in their order.
pub open spec fn action_hits(
    entities: Seq<EntityKey>,
    actions: Seq<(String, Vec<(String, CustomActionConfig)>)>,
    id: Option<usize>,
    asset: Option<Seq<char>>,
    action: Seq<char>,
    n: nat,
) -> Seq<(usize, Seq<char>, Seq<char>, bool)>
    decreases n,
{
    if n == 0 {
        Seq::empty()
    } else {
        let before = action_hits(entities, actions, id, asset, action, (n - 1) as nat);
        match action_on(entities[n - 1], actions, id, asset, action) {
            Some(hit) => before.push(hit),
            None => before,
        }
    }
}

/// Every targeted entity whose asset declares `action` enters its state; a
/// request that reaches none is refused.
pub open spec fn spec_plan_action(
    entities: Seq<EntityKey>,
    actions: Seq<(String, Vec<(String, CustomActionConfig)>)>,
    id: Option<usize>,
    asset: Option<Seq<char>>,
    action: Seq<char>,
) -> Result<Seq<(usize, Seq<char>, Seq<char>, bool)>, Seq<char>> {
    let hits = action_hits(entities, actions, id, asset, action, entities.len());
    if hits.len() == 0 {
        Err("Action '"@ + action + "' not found or matched no active entities"@)
    } else {
        Ok(hits)
    }
}

pub open spec fn opt_text(o: Option<&str>) -> Option<Seq<char>> {
    match o {
        Some(s) => Some(s@),
        None => None,
    }
}

/// What action `action` does to `e`, if anything.
fn action_for(
    e: &EntityKey,
    actions: &Vec<(String, Vec<(String, CustomActionConfig)>)>,
    id: Option<usize>,
    asset: Option<&str>,
    action: &str,
) -> (out: Option<Triggered>)
    ensures
        match out {
            Some(t) => action_on(*e, actions@, id, opt_text(asset), action@) == Some(
                triggered_model(t),
            ),
            None => action_on(*e, actions@, id, opt_text(asset), action@) is None,
        },
{
    match id {
        Some(t) => {
            if e.id != t {
                return None;
            }
        },
        None => match asset {
            Some(a) => {
                if !same_text(e.asset_name.as_str(), a) {
                    return None;
                }
            },
            None => {},
        },
    }
    let a = match find_named(actions, e.asset_name.as_str()) {
        Some(a) => a,
        None => return None,
    };
    let table = &actions[a].1;
    let k = match find_named(table, action) {
        Some(k) => k,
        None => return None,
    };
    let def = &table[k].1;
    let locked = match def.is_locked {
        Some(b) => b,
        None => true,
    };
    Some(
        Triggered {
            id: e.id,
            asset_name: e.asset_name.clone(),
            target_state: def.target_state.clone(),
            locked,
        },
    )
}

/// The entities an action request applies to and the state each enters:
/// the entity `id` if given, else every entity of `asset` if given, else
/// every entity, each whose asset declares `action`. Refused when none is.
pub fn plan_action(
    entities: &Vec<EntityKey>,
    actions: &Vec<(String, Vec<(String, CustomActionConfig)>)>,
    id: Option<usize>,
    asset: Option<&str>,
    action: &str,
) -> (out: Result<Vec<Triggered>, String>)
    ensures
        match out {
            Ok(v) => spec_plan_action(entities@, actions@, id, opt_text(asset), action@) == Ok::<
                Seq<(usize, Seq<char>, Seq<char>, bool)>,
                Seq<char>,
            >(v@.map_values(|t: Triggered| triggered_model(t))),
            Err(e) => spec_plan_action(entities@, actions@, id, opt_text(asset), action@) == Err::<
                Seq<(usize, Seq<char>, Seq<char>, bool)>,
                Seq<char>,
            >(e@),
        },
{
    let ghost asset_text = opt_text(asset);
    let mut hits: Vec<Triggered> = Vec::new();
    let mut k: usize = 0;
    while k < entities.len()
        invariant
            k <= entities@.len(),
            asset_text == opt_text(asset),
            hits@.map_values(|t: Triggered| triggered_model(t)) == action_hits(
                entities@,
                actions@,
                id,
                asset_text,
                action@,
                k as nat,
            ),
        decreases entities@.len() - k,
    {
        let ghost before = hits@;
        match action_for(&entities[k], actions, id, asset, action) {
            Some(t) => {
                hits.push(t);
                assert(hits@.map_values(|t: Triggered| triggered_model(t)) =~= before.map_values(
                    |t: Triggered| triggered_model(t),
                ).push(triggered_model(t)));
            },
            None => {},
        }
        k = k + 1;
    }
    if hits.len() == 0 {
        let mut message = String::from_str("Action '");
        message.append(action);
        message.append("' not found or matched no active entities");
        return Err(message);
    }
    Ok(hits)
}

// ---------------------------------------------------------------------------
// Editor events
// ---------------------------------------------------------------------------

/// Where `event` takes `e`, if anywhere: nowhere while an action holds it,
/// else to the state its current state names for the event. Also whether
/// that is a change of state.
pub open spec fn event_on(
    e: EntityKey,
    transitions: Seq<(String, Vec<(String, Vec<(String, String)>)>)>,
    event: Seq<char>,
) -> Option<(usize, Seq<char>, bool)> {
    if e.locked {
        None
    } else {
        match lookup(transitions, e.asset_name@) {
            None => None,
            Some(states) => match lookup(states@, e.state@) {
                None => None,
                Some(on_event) => match lookup(on_event@, event) {
                    None => None,
                    Some(next) => Some((e.id, next@, e.state@ != next@)),
                },
            },
        }
    }
}

/// The transitions of the first `n` entities, in their order.
pub open spec fn event_hits(
    entities: Seq<EntityKey>,
    transitions: Seq<(String, Vec<(String, Vec<(String, String)>)>)>,
    event: Seq<char>,
    n: nat,
) -> Seq<(usize, Seq<char>, bool)>
    decreases n,
{
    if n == 0 {
        Seq::empty()
    } else {
        let before = event_hits(entities, transitions, event, (n - 1) as nat);
        match event_on(entities[n - 1], transitions, event) {
            Some(hit) => before.push(hit),
            None => before,
        }
    }
}

/// A transition as values.
pub open spec fn transition_model(t: (usize, String, bool)) -> (usize, Seq<char>, bool) {
    (t.0, t.1@, t.2)
}

fn event_for(
    e: &EntityKey,
    transitions: &Vec<(String, Vec<(String, Vec<(String, String)>)>)>,
    event: &str,
) -> (out: Option<(usize, String, bool)>)
    ensures
        match out {
            Some(t) => event_on(*e, transitions@, event@) == Some(transition_model(t)),
            None => event_on(*e, transitions@, event@) is None,
        },
{
    if e.locked {
        return None;
    }
    let a = match find_named(transitions, e.asset_name.as_str()) {
        Some(a) => a,
        None => return None,
    };
    let states = &transitions[a].1;
    let s = match find_named(states, e.state.as_str()) {
        Some(s) => s,
        None => return None,
    };
    let on_event = &states[s].1;
    let n = match find_named(on_event, event) {
        Some(n) => n,
        None => return None,
    };
    let next = &on_event[n].1;
    let changed = !same_text(e.state.as_str(), next.as_str());
    Some((e.id, next.clone(), changed))
}

/// Where an editor event takes each entity it applies to: every entity not
/// held by an action whose current state names a next state for `event`,
/// with whether the state changes.
pub fn event_transitions(
    entities: &Vec<EntityKey>,
    transitions: &Vec<(String, Vec<(String, Vec<(String, String)>)>)>,
    event: &str,
) -> (out: Vec<(usize, String, bool)>)
    ensures
        out@.map_values(|t: (usize, String, bool)| transition_model(t)) == event_hits(
            entities@,
            transitions@,
            event@,
            entities@.len(),
        ),
{
    let mut hits: Vec<(usize, String, bool)> = Vec::new();
    let mut k: usize = 0;
    while k < entities.len()
        invariant
            k <= entities@.len(),
            hits@.map_values(|t: (usize, String, bool)| transition_model(t)) == event_hits(
                entities@,
                transitions@,
                event@,
                k as nat,
            ),
        decreases entities@.len() - k,
    {
        let ghost before = hits@;
        match event_for(&entities[k], transitions, event) {
            Some(t) => {
                let ghost m = transition_model(t);
                hits.push(t);
                assert(hits@.map_values(|t: (usize, String, bool)| transition_model(t))
                    =~= before.map_values(|t: (usize, String, bool)| transition_model(t)).push(m));
            },
            None => {},
        }
        k = k + 1;
    }
    hits
}

} // verus!
