use distract_engine::journal::{
    Journal, WorldEvent, EDGE_BOTTOM, EDGE_LEFT, EDGE_RIGHT, EDGE_TOP, MAX_PENDING_EVENTS,
};

fn enabled() -> Journal {
    let mut journal = Journal::default();
    journal.set_enabled(true);
    journal
}

#[test]
fn nothing_is_recorded_until_someone_subscribes() {
    let mut journal = Journal::default();
    journal.record(WorldEvent::collision(1, EDGE_LEFT));
    journal.sync_states(&[(1usize, "walk")]);
    assert!(journal.drain().is_empty());
}

#[test]
fn a_spawn_is_not_a_transition_but_the_next_change_is() {
    let mut journal = enabled();
    journal.sync_states(&[(1usize, "idle")]);
    assert!(journal.drain().is_empty());

    journal.sync_states(&[(1usize, "walk")]);
    assert_eq!(
        journal.drain(),
        vec![WorldEvent::StateChange {
            id: 1,
            from: "idle".to_string(),
            to: "walk".to_string(),
        }]
    );
}

#[test]
fn an_unchanged_state_reports_nothing_however_often_it_is_synced() {
    let mut journal = enabled();
    for _ in 0..10 {
        journal.sync_states(&[(1usize, "idle")]);
    }
    assert!(journal.drain().is_empty());
}

#[test]
fn a_despawned_entity_is_forgotten_so_its_id_can_be_reused() {
    let mut journal = enabled();
    journal.sync_states(&[(1usize, "idle")]);
    journal.sync_states(&[]);
    journal.sync_states(&[(1usize, "walk")]);
    assert!(journal.drain().is_empty());
}

#[test]
fn the_queue_is_bounded_and_says_how_much_it_dropped() {
    let mut journal = enabled();
    for _ in 0..(MAX_PENDING_EVENTS + 5) {
        journal.record(WorldEvent::collision(1, EDGE_RIGHT));
    }
    assert_eq!(journal.dropped(), 5);
    assert_eq!(journal.drain().len(), MAX_PENDING_EVENTS);
    assert_eq!(journal.dropped(), 0);
}

#[test]
fn disabling_forgets_everything_so_a_resubscribe_starts_clean() {
    let mut journal = enabled();
    journal.sync_states(&[(1usize, "idle")]);
    journal.record(WorldEvent::collision(1, EDGE_TOP));
    journal.set_enabled(false);
    journal.set_enabled(true);
    assert!(journal.drain().is_empty());
    journal.sync_states(&[(1usize, "idle")]);
    assert!(journal.drain().is_empty());
}

#[test]
fn a_collision_names_the_edge_it_happened_on() {
    let mut journal = enabled();
    journal.record_all(vec![
        WorldEvent::collision(3, EDGE_BOTTOM),
        WorldEvent::collision(4, EDGE_LEFT),
    ]);
    assert_eq!(
        journal.drain(),
        vec![
            WorldEvent::Collision {
                id: 3,
                edge: "bottom".to_string()
            },
            WorldEvent::Collision {
                id: 4,
                edge: "left".to_string()
            },
        ]
    );
}

#[test]
fn the_oldest_events_are_the_ones_dropped() {
    let mut journal = enabled();
    for id in 0..(MAX_PENDING_EVENTS + 2) {
        journal.record(WorldEvent::collision(id, EDGE_LEFT));
    }
    let drained = journal.drain();
    assert_eq!(drained.len(), MAX_PENDING_EVENTS);
    assert_eq!(drained[0], WorldEvent::collision(2, EDGE_LEFT));
    assert_eq!(
        drained[MAX_PENDING_EVENTS - 1],
        WorldEvent::collision(MAX_PENDING_EVENTS + 1, EDGE_LEFT)
    );
}

#[test]
fn a_disabled_journal_reports_itself_disabled_and_drops_nothing() {
    let mut journal = Journal::default();
    assert!(!journal.is_enabled());
    journal.record(WorldEvent::collision(1, EDGE_LEFT));
    assert_eq!(journal.dropped(), 0);
    journal.set_enabled(true);
    assert!(journal.is_enabled());
}
