//! What the world did, for the Lua plugin pipeline to observe.
//!
//! The overlay simulates in this process, so the events a plugin hook cares
//! about -- a state transition, a boundary collision -- travel back over IPC.
//! Recording is off until Neovim subscribes, and the queue is bounded: a client
//! that stops reading must not turn a 60 FPS event stream into unbounded memory.

use std::collections::{HashMap, VecDeque};

use vstd::prelude::*;

use crate::text::same_text;

verus! {

broadcast use vstd::std_specs::hash::group_hash_axioms;

/// The most events held while Neovim has not drained them. Past that the
/// oldest are dropped: a plugin reacting to a collision cares about the
/// current one.
pub const MAX_PENDING_EVENTS: usize = 256;

pub const EDGE_LEFT: &'static str = "left";

pub const EDGE_RIGHT: &'static str = "right";

pub const EDGE_TOP: &'static str = "top";

pub const EDGE_BOTTOM: &'static str = "bottom";

/// A registered obstacle rather than a screen edge.
pub const EDGE_OBSTACLE: &'static str = "obstacle";

/// One thing worth telling a plugin about.
#[derive(Debug, Clone, PartialEq, Eq)]
pub enum WorldEvent {
    StateChange { id: usize, from: String, to: String },
    Collision { id: usize, edge: String },
}

/// A world event as values.
pub enum EventModel {
    StateChange { id: usize, from: Seq<char>, to: Seq<char> },
    Collision { id: usize, edge: Seq<char> },
}

impl View for WorldEvent {
    type V = EventModel;

    open spec fn view(&self) -> EventModel {
        match self {
            WorldEvent::StateChange { id, from, to } => EventModel::StateChange {
                id: *id,
                from: from@,
                to: to@,
            },
            WorldEvent::Collision { id, edge } => EventModel::Collision { id: *id, edge: edge@ },
        }
    }
}

impl WorldEvent {
    pub fn collision(id: usize, edge: &str) -> (event: Self)
        ensures
            event@ == (EventModel::Collision { id, edge: edge@ }),
    {
        WorldEvent::Collision { id, edge: String::from_str(edge) }
    }
}

/// The journal as values: whether it records, the pending events oldest
/// first, the state last reported for each entity, and how many events were
/// dropped since the last drain.
pub struct JournalModel {
    pub enabled: bool,
    pub events: Seq<EventModel>,
    pub reported: Map<usize, Seq<char>>,
    pub dropped: nat,
}

/// What recording one event does.
pub open spec fn record_model(m: JournalModel, event: EventModel) -> JournalModel {
    if !m.enabled {
        m
    } else if m.events.len() >= MAX_PENDING_EVENTS {
        JournalModel { events: m.events.drop_first().push(event), dropped: m.dropped + 1, ..m }
    } else {
        JournalModel { events: m.events.push(event), ..m }
    }
}

/// What recording a list of events, in order, does.
pub open spec fn record_all_model(m: JournalModel, events: Seq<EventModel>) -> JournalModel
    decreases events.len(),
{
    if events.len() == 0 {
        m
    } else {
        record_model(record_all_model(m, events.drop_last()), events.last())
    }
}

/// What comparing one entity's state against the last reported one does: a
/// first sighting is remembered silently, a change is remembered and recorded.
pub open spec fn sync_step(m: JournalModel, id: usize, state: Seq<char>) -> JournalModel {
    if m.reported.contains_key(id) {
        if m.reported[id] == state {
            m
        } else {
            record_model(
                JournalModel { reported: m.reported.insert(id, state), ..m },
                EventModel::StateChange { id, from: m.reported[id], to: state },
            )
        }
    } else {
        JournalModel { reported: m.reported.insert(id, state), ..m }
    }
}

/// `sync_step` over a list of entities, in order.
pub open spec fn sync_fold(m: JournalModel, entities: Seq<(usize, Seq<char>)>) -> JournalModel
    decreases entities.len(),
{
    if entities.len() == 0 {
        m
    } else {
        let last = entities.last();
        sync_step(sync_fold(m, entities.drop_last()), last.0, last.1)
    }
}

/// The ids in a list of entities.
pub open spec fn ids_of(entities: Seq<(usize, Seq<char>)>) -> Set<usize> {
    Set::new(|id: usize| exists|k: int| 0 <= k < entities.len() && #[trigger] entities[k].0 == id)
}

/// What a whole `sync_states` does: every entity compared in order, then the
/// reported states of entities that are gone forgotten.
pub open spec fn sync_model(m: JournalModel, entities: Seq<(usize, Seq<char>)>) -> JournalModel {
    if !m.enabled {
        m
    } else {
        let after = sync_fold(m, entities);
        JournalModel { reported: after.reported.restrict(ids_of(entities)), ..after }
    }
}

/// The entities of a `sync_states` call, as values.
pub open spec fn entities_model(entities: Seq<(usize, &str)>) -> Seq<(usize, Seq<char>)> {
    entities.map_values(|e: (usize, &str)| (e.0, e.1@))
}

/// A bounded queue of world events, plus the states already reported.
#[derive(Debug)]
pub struct Journal {
    is_enabled: bool,
    events: VecDeque<WorldEvent>,
    reported_states: HashMap<usize, String>,
    dropped: usize,
}

impl View for Journal {
    type V = JournalModel;

    closed spec fn view(&self) -> JournalModel {
        JournalModel {
            enabled: self.is_enabled,
            events: self.events@.map_values(|e: WorldEvent| e@),
            reported: self.reported_states@.map_values(|s: String| s@),
            dropped: self.dropped as nat,
        }
    }
}

impl Journal {
    /// The queue never holds more than `MAX_PENDING_EVENTS`, and nothing is
    /// held while recording is off.
    pub closed spec fn wf(&self) -> bool {
        &&& self.events@.len() <= MAX_PENDING_EVENTS
        &&& !self.is_enabled ==> {
            &&& self.events@.len() == 0
            &&& self.reported_states@.len() == 0
            &&& self.dropped == 0
        }
    }

    pub fn set_enabled(&mut self, is_enabled: bool)
        requires
            old(self).wf(),
        ensures
            final(self).wf(),
            final(self)@.enabled == is_enabled,
            is_enabled ==> final(self)@ == (JournalModel { enabled: true, ..old(self)@ }),
            !is_enabled ==> final(self)@ == (JournalModel {
                enabled: false,
                events: Seq::empty(),
                reported: Map::empty(),
                dropped: 0,
            }),
    {
        if !is_enabled {
            self.events.clear();
            self.reported_states.clear();
            self.dropped = 0;
            assert(self.events@.map_values(|e: WorldEvent| e@) =~= Seq::empty());
            assert(self.reported_states@.map_values(|s: String| s@) =~= Map::empty());
        }
        self.is_enabled = is_enabled;
    }

    pub fn is_enabled(&self) -> (enabled: bool)
        ensures
            enabled == self@.enabled,
    {
        self.is_enabled
    }

    /// How many events were dropped to stay inside the queue bound.
    pub fn dropped(&self) -> (dropped: usize)
        ensures
            dropped == self@.dropped,
    {
        self.dropped
    }

    pub fn record(&mut self, event: WorldEvent)
        requires
            old(self).wf(),
            record_model(old(self)@, event@).dropped <= usize::MAX,
        ensures
            final(self).wf(),
            final(self)@ == record_model(old(self)@, event@),
            final(self)@.events.len() <= MAX_PENDING_EVENTS,
    {
        if !self.is_enabled {
            return ;
        }
        let ghost before = self.events@;
        if self.events.len() >= MAX_PENDING_EVENTS {
            self.events.pop_front();
            self.dropped = self.dropped + 1;
        }
        self.events.push_back(event);
        assert(self.events@.map_values(|e: WorldEvent| e@) =~= (if before.len() >= MAX_PENDING_EVENTS {
            before.map_values(|e: WorldEvent| e@).drop_first()
        } else {
            before.map_values(|e: WorldEvent| e@)
        }).push(event@));
    }

    pub fn record_all(&mut self, events: Vec<WorldEvent>)
        requires
            old(self).wf(),
            record_all_model(old(self)@, events@.map_values(|e: WorldEvent| e@)).dropped
                <= usize::MAX,
        ensures
            final(self).wf(),
            final(self)@ == record_all_model(old(self)@, events@.map_values(|e: WorldEvent| e@)),
            final(self)@.events.len() <= MAX_PENDING_EVENTS,
    {
        let ghost all = events@.map_values(|e: WorldEvent| e@);
        let ghost start = self@;
        let n = events.len();
        let mut rest = events;
        let mut i: usize = 0;
        proof {
            assert(all.take(0) =~= Seq::<EventModel>::empty());
        }
        while i < n
            invariant
                i <= n,
                n == all.len(),
                rest@.len() == n - i,
                forall|k: int| 0 <= k < rest@.len() ==> #[trigger] rest@[k]@ == all[k + i],
                self@ == record_all_model(start, all.take(i as int)),
                self.wf(),
                record_all_model(start, all).dropped <= usize::MAX,
            decreases n - i,
        {
            let e = rest.remove(0);
            proof {
                lemma_record_all_dropped_monotone(start, all, (i + 1) as int);
                assert(all.take(i + 1).drop_last() =~= all.take(i as int));
                assert(all.take(i + 1).last() == e@);
            }
            self.record(e);
            i = i + 1;
        }
        assert(all.take(n as int) =~= all);
    }

    /// Records a transition for every entity whose state differs from the one
    /// last reported, and forgets entities that no longer exist.
    pub fn sync_states(&mut self, entities: &[(usize, &str)])
        requires
            old(self).wf(),
            sync_model(old(self)@, entities_model(entities@)).dropped <= usize::MAX,
        ensures
            final(self).wf(),
            final(self)@ == sync_model(old(self)@, entities_model(entities@)),
            final(self)@.events.len() <= MAX_PENDING_EVENTS,
    {
        if !self.is_enabled {
            return ;
        }
        let ghost start = self@;
        let ghost ents = entities_model(entities@);
        let mut live: HashMap<usize, String> = HashMap::new();
        let mut i: usize = 0;
        proof {
            assert(ents.take(0) =~= Seq::<(usize, Seq<char>)>::empty());
            lemma_sync_fold_dropped_monotone(start, ents, ents.len() as int);
            assert(ents.take(ents.len() as int) =~= ents);
        }
        while i < entities.len()
            invariant
                i <= entities@.len(),
                ents == entities_model(entities@),
                self.is_enabled,
                start.enabled,
                self@ == sync_fold(start, ents.take(i as int)),
                self.wf(),
                live@.map_values(|s: String| s@) == self@.reported.restrict(
                    ids_of(ents.take(i as int)),
                ),
                sync_fold(start, ents).dropped <= usize::MAX,
            decreases entities@.len() - i,
        {
            let (id, state) = entities[i];
            let ghost before = self@;
            let ghost prefix = ents.take(i as int);
            proof {
                assert(ents.take(i + 1).drop_last() =~= prefix);
                assert(ents.take(i + 1).last() == (id, state@));
                lemma_sync_fold_dropped_monotone(start, ents, (i + 1) as int);
            }
            let previous: Option<String> = match self.reported_states.get(&id) {
                Some(p) => Some(p.clone()),
                None => None,
            };
            match previous {
                Some(previous) => {
                    proof {
                        assert(before.reported.contains_key(id));
                        assert(previous@ == before.reported[id]);
                    }
                    if !same_text(previous.as_str(), state) {
                        self.reported_states.insert(id, String::from_str(state));
                        proof {
                            assert(self@.reported =~= before.reported.insert(id, state@));
                        }
                        let event = WorldEvent::StateChange {
                            id,
                            from: previous,
                            to: String::from_str(state),
                        };
                        self.record(event);
                    }
                },
                None => {
                    proof {
                        assert(!before.reported.contains_key(id));
                    }
                    self.reported_states.insert(id, String::from_str(state));
                    proof {
                        assert(self@.reported =~= before.reported.insert(id, state@));
                        assert(self@ == sync_step(before, id, state@));
                    }
                },
            }
            let ghost live_before = live@.map_values(|s: String| s@);
            live.insert(id, String::from_str(state));
            proof {
                assert(live@.map_values(|s: String| s@) =~= live_before.insert(id, state@));
                let step = sync_step(before, id, state@);
                assert(self@ == step);
                assert(self@.reported.contains_key(id) && self@.reported[id] == state@);
                assert forall|k: usize| k != id implies #[trigger] self@.reported.contains_key(k)
                    == before.reported.contains_key(k) && (before.reported.contains_key(k)
                    ==> self@.reported[k] == before.reported[k]) by {}
                let ids_next = ids_of(ents.take(i + 1));
                let ids_prev = ids_of(prefix);
                assert forall|k: usize| #[trigger] ids_next.contains(k) <==> (ids_prev.contains(k)
                    || k == id) by {
                    if ids_next.contains(k) {
                        let w = choose|w: int|
                            0 <= w < ents.take(i + 1).len() && #[trigger] ents.take(i + 1)[w].0
                                == k;
                        if w < i {
                            assert(prefix[w].0 == k);
                        }
                    }
                    if ids_prev.contains(k) {
                        let w = choose|w: int| 0 <= w < prefix.len() && #[trigger] prefix[w].0 == k;
                        assert(ents.take(i + 1)[w].0 == k);
                    }
                    if k == id {
                        assert(ents.take(i + 1)[i as int].0 == k);
                    }
                }
                assert forall|k: usize| #[trigger] live_before.insert(id, state@).contains_key(k)
                    <==> self@.reported.restrict(ids_next).contains_key(k) by {}
                assert(live_before.insert(id, state@) =~= self@.reported.restrict(ids_next));
                assert(live@.map_values(|s: String| s@) =~= self@.reported.restrict(ids_next));
            }
            i = i + 1;
        }
        self.reported_states = live;
        proof {
            assert(ents.take(entities@.len() as int) =~= ents);
        }
    }

    pub fn drain(&mut self) -> (events: Vec<WorldEvent>)
        requires
            old(self).wf(),
        ensures
            final(self).wf(),
            events@.map_values(|e: WorldEvent| e@) == old(self)@.events,
            final(self)@ == (JournalModel { events: Seq::empty(), dropped: 0, ..old(self)@ }),
    {
        self.dropped = 0;
        let mut out: Vec<WorldEvent> = Vec::new();
        let ghost all = self.events@;
        while self.events.len() > 0
            invariant
                all == out@ + self.events@,
                self.dropped == 0,
                self.events@.len() <= MAX_PENDING_EVENTS,
                !self.is_enabled ==> self.reported_states@.len() == 0,
                self.is_enabled == old(self).is_enabled,
                self.reported_states == old(self).reported_states,
            decreases self.events@.len(),
        {
            let e = self.events.pop_front().unwrap();
            out.push(e);
        }
        assert(out@ =~= all);
        assert(self.events@.map_values(|e: WorldEvent| e@) =~= Seq::empty());
        out
    }
}

impl Default for Journal {
    fn default() -> (journal: Self)
        ensures
            journal.wf(),
            journal@ == (JournalModel {
                enabled: false,
                events: Seq::empty(),
                reported: Map::empty(),
                dropped: 0,
            }),
    {
        let journal = Journal {
            is_enabled: false,
            events: VecDeque::new(),
            reported_states: HashMap::new(),
            dropped: 0,
        };
        assert(journal.events@.map_values(|e: WorldEvent| e@) =~= Seq::empty());
        assert(journal.reported_states@.map_values(|s: String| s@) =~= Map::empty());
        journal
    }
}

/// Recording more events never lowers the drop count.
proof fn lemma_record_all_dropped_monotone(m: JournalModel, events: Seq<EventModel>, k: int)
    requires
        0 <= k <= events.len(),
    ensures
        record_all_model(m, events.take(k)).dropped <= record_all_model(m, events).dropped,
    decreases events.len() - k,
{
    if k < events.len() {
        lemma_record_all_dropped_monotone(m, events, k + 1);
        assert(events.take(k + 1).drop_last() =~= events.take(k));
    } else {
        assert(events.take(k) =~= events);
    }
}

/// Syncing more entities never lowers the drop count.
proof fn lemma_sync_fold_dropped_monotone(
    m: JournalModel,
    entities: Seq<(usize, Seq<char>)>,
    k: int,
)
    requires
        0 <= k <= entities.len(),
    ensures
        sync_fold(m, entities.take(k)).dropped <= sync_fold(m, entities).dropped,
    decreases entities.len() - k,
{
    if k < entities.len() {
        lemma_sync_fold_dropped_monotone(m, entities, k + 1);
        assert(entities.take(k + 1).drop_last() =~= entities.take(k));
    } else {
        assert(entities.take(k) =~= entities);
    }
}

/// Nothing is recorded until someone subscribes: while the journal is off,
/// neither recording an event nor syncing entity states changes it.
pub proof fn law_disabled_journal_is_inert(
    m: JournalModel,
    event: EventModel,
    entities: Seq<(usize, Seq<char>)>,
)
    requires
        !m.enabled,
    ensures
        record_model(m, event) == m,
        sync_model(m, entities) == m,
{
}

/// The queue is bounded and keeps the most recent events: recording any run
/// of events leaves the last `MAX_PENDING_EVENTS` of everything seen, and
/// counts every one pushed out as dropped.
pub proof fn law_queue_keeps_the_newest(m: JournalModel, events: Seq<EventModel>)
    requires
        m.enabled,
        m.events.len() <= MAX_PENDING_EVENTS,
    ensures
        ({
            let total = m.events.len() + events.len();
            let excess: int = if total > MAX_PENDING_EVENTS {
                total - MAX_PENDING_EVENTS
            } else {
                0
            };
            &&& record_all_model(m, events).events == (m.events + events).skip(excess)
            &&& record_all_model(m, events).dropped == m.dropped + excess
            &&& record_all_model(m, events).enabled
            &&& record_all_model(m, events).reported == m.reported
        }),
    decreases events.len(),
{
    if events.len() > 0 {
        let front = events.drop_last();
        law_queue_keeps_the_newest(m, front);
        let mid = record_all_model(m, front);
        let total = m.events.len() + front.len();
        let excess: int = if total > MAX_PENDING_EVENTS {
            total - MAX_PENDING_EVENTS
        } else {
            0
        };
        assert(m.events + events =~= (m.events + front).push(events.last()));
        if mid.events.len() >= MAX_PENDING_EVENTS {
            assert(mid.events.drop_first().push(events.last()) =~= (m.events + events).skip(
                excess + 1,
            ));
        } else {
            assert(mid.events.push(events.last()) =~= (m.events + events).skip(excess));
        }
    } else {
        assert((m.events + events).skip(0) =~= m.events);
    }
}

/// The ids in a list of entities are all different.
pub open spec fn distinct_ids(entities: Seq<(usize, Seq<char>)>) -> bool {
    forall|a: int, b: int|
        0 <= a < b < entities.len() ==> #[trigger] entities[a].0 != #[trigger] entities[b].0
}

/// An unchanged state reports nothing however often it is synced: syncing the
/// same entities again records no event and changes nothing.
pub proof fn law_resync_reports_nothing(m: JournalModel, entities: Seq<(usize, Seq<char>)>)
    requires
        distinct_ids(entities),
    ensures
        sync_model(sync_model(m, entities), entities) == sync_model(m, entities),
{
    if m.enabled {
        let once = sync_model(m, entities);
        lemma_sync_fold_remembers(m, entities, entities.len() as int);
        assert(entities.take(entities.len() as int) =~= entities);
        let folded = sync_fold(m, entities);
        assert forall|k: int| 0 <= k < entities.len() implies #[trigger] once.reported.contains_key(
            entities[k].0,
        ) && once.reported[entities[k].0] == entities[k].1 by {
            assert(folded.reported.contains_key(entities[k].0));
            assert(ids_of(entities).contains(entities[k].0));
        }
        lemma_sync_fold_of_remembered(once, entities, entities.len() as int);
        assert(entities.take(entities.len() as int) =~= entities);
        let twice = sync_fold(once, entities);
        assert(twice.reported.restrict(ids_of(entities)) =~= once.reported);
    }
}

/// After a sync every entity's own state is the one remembered for it.
proof fn lemma_sync_fold_remembers(m: JournalModel, entities: Seq<(usize, Seq<char>)>, n: int)
    requires
        distinct_ids(entities),
        0 <= n <= entities.len(),
    ensures
        forall|k: int|
            0 <= k < n ==> #[trigger] sync_fold(m, entities.take(n)).reported.contains_key(
                entities[k].0,
            ) && sync_fold(m, entities.take(n)).reported[entities[k].0] == entities[k].1,
        sync_fold(m, entities.take(n)).enabled == m.enabled,
    decreases n,
{
    if n > 0 {
        lemma_sync_fold_remembers(m, entities, n - 1);
        assert(entities.take(n).drop_last() =~= entities.take(n - 1));
        assert(entities.take(n).last() == entities[n - 1]);
    }
}

/// Syncing entities whose states are already the remembered ones is a no-op.
proof fn lemma_sync_fold_of_remembered(m: JournalModel, entities: Seq<(usize, Seq<char>)>, n: int)
    requires
        0 <= n <= entities.len(),
        forall|k: int|
            0 <= k < entities.len() ==> #[trigger] m.reported.contains_key(entities[k].0)
                && m.reported[entities[k].0] == entities[k].1,
    ensures
        sync_fold(m, entities.take(n)) == m,
    decreases n,
{
    if n > 0 {
        lemma_sync_fold_of_remembered(m, entities, n - 1);
        assert(entities.take(n).drop_last() =~= entities.take(n - 1));
        assert(entities.take(n).last() == entities[n - 1]);
    }
}

} // verus!
