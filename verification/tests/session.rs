use game_client::registry::ModelKind;
use game_client::session::{Entity, Session};

fn feed(s: &mut Session, bytes: &[u8]) {
    s.handle_chunk(&bytes.to_vec());
}

fn snapshot(s: &Session) -> (Vec<Entity>, usize, usize) {
    (
        s.entities.clone(),
        s.registry.live(ModelKind::Player),
        s.registry.live(ModelKind::Other),
    )
}

#[test]
fn init_assigns_player_id() {
    let mut s = Session::new();
    assert_eq!(s.player_id, 0);
    feed(&mut s, b"GAMESERVER init 7\n");
    assert_eq!(s.player_id, 7);
}

#[test]
fn init_last_value_wins() {
    let mut s = Session::new();
    feed(&mut s, b"GAMESERVER init 3\nGAMESERVER init 9\n");
    assert_eq!(s.player_id, 9);
}

#[test]
fn full_scenario_with_eviction() {
    let mut s = Session::new();
    feed(&mut s, b"GAMESERVER init 7\n");
    assert_eq!(s.player_id, 7);

    feed(&mut s, b"GAMESERVER update 2 7 1 2 9 3 4\n");
    assert_eq!(s.entities.len(), 2);
    assert_eq!(
        s.lookup(7),
        Some(Entity { id: 7, x: 1, z: 2, model: ModelKind::Player })
    );
    assert_eq!(
        s.lookup(9),
        Some(Entity { id: 9, x: 3, z: 4, model: ModelKind::Other })
    );
    assert_eq!(s.registry.live(ModelKind::Player), 1);
    assert_eq!(s.registry.live(ModelKind::Other), 1);

    feed(&mut s, b"GAMESERVER update 1 9 5 6\n");
    assert_eq!(s.entities.len(), 1);
    assert_eq!(s.lookup(7), None);
    assert_eq!(
        s.lookup(9),
        Some(Entity { id: 9, x: 5, z: 6, model: ModelKind::Other })
    );
    // Entity 7's instance was released exactly once: its variant count fell
    // from one to zero, and entity 9's instance was untouched.
    assert_eq!(s.registry.live(ModelKind::Player), 0);
    assert_eq!(s.registry.live(ModelKind::Other), 1);
}

#[test]
fn key_set_equals_reported_ids() {
    let mut s = Session::new();
    feed(&mut s, b"GAMESERVER update 3 1 0 0 2 0 0 3 0 0\n");
    assert_eq!(s.entities.len(), 3);
    for id in [1, 2, 3] {
        assert!(s.lookup(id).is_some());
    }
    feed(&mut s, b"GAMESERVER update 2 2 0 0 4 0 0\n");
    assert_eq!(s.entities.len(), 2);
    assert!(s.lookup(1).is_none());
    assert!(s.lookup(3).is_none());
    assert!(s.lookup(2).is_some());
    assert!(s.lookup(4).is_some());
}

#[test]
fn same_update_twice_changes_nothing() {
    let mut s = Session::new();
    feed(&mut s, b"GAMESERVER init 7\n");
    feed(&mut s, b"GAMESERVER update 2 7 1 2 9 3 4\n");
    let before = snapshot(&s);
    feed(&mut s, b"GAMESERVER update 2 7 1 2 9 3 4\n");
    assert_eq!(snapshot(&s), before);
}

#[test]
fn instance_accounting_matches_entity_count() {
    let mut s = Session::new();
    let total =
        |s: &Session| s.registry.live(ModelKind::Player) + s.registry.live(ModelKind::Other);
    assert_eq!(total(&s), 0);
    feed(&mut s, b"GAMESERVER update 2 1 0 0 2 0 0\n");
    assert_eq!(total(&s), s.entities.len());
    feed(&mut s, b"GAMESERVER update 3 2 1 1 5 2 2 6 3 3\n");
    assert_eq!(total(&s), s.entities.len());
    feed(&mut s, b"GAMESERVER update 0\n");
    assert_eq!(total(&s), 0);
    assert_eq!(s.entities.len(), 0);
}

#[test]
fn malformed_update_leaves_state_unchanged() {
    let mut s = Session::new();
    feed(&mut s, b"GAMESERVER init 7\nGAMESERVER update 1 7 1 2\n");
    let before = snapshot(&s);
    feed(&mut s, b"GAMESERVER update 3 1 2\n");
    assert_eq!(snapshot(&s), before);
    assert_eq!(s.player_id, 7);
}

#[test]
fn duplicate_id_in_snapshot_last_wins() {
    let mut s = Session::new();
    feed(&mut s, b"GAMESERVER update 2 5 1 1 5 2 2\n");
    assert_eq!(s.entities.len(), 1);
    assert_eq!(
        s.lookup(5),
        Some(Entity { id: 5, x: 2, z: 2, model: ModelKind::Other })
    );
    assert_eq!(s.registry.live(ModelKind::Other), 1);
}

#[test]
fn position_overwritten_in_place_keeps_model() {
    let mut s = Session::new();
    // Entity 7 is created before the server assigns the player id, so it is
    // bound to the plain variant; identity is preserved across updates, so
    // a later init does not rebind it.
    feed(&mut s, b"GAMESERVER update 1 7 1 1\n");
    assert_eq!(
        s.lookup(7),
        Some(Entity { id: 7, x: 1, z: 1, model: ModelKind::Other })
    );
    feed(&mut s, b"GAMESERVER init 7\nGAMESERVER update 1 7 2 2\n");
    assert_eq!(
        s.lookup(7),
        Some(Entity { id: 7, x: 2, z: 2, model: ModelKind::Other })
    );
    assert_eq!(s.registry.live(ModelKind::Other), 1);
    assert_eq!(s.registry.live(ModelKind::Player), 0);
}
