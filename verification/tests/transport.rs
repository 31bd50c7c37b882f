use game_client::registry::ModelKind;
use game_client::session::Session;
use game_client::transport::{PollAction, PollFlow, ReadEvent};

#[test]
fn data_is_delivered() {
    let mut t = PollFlow::begin();
    match t.on_read(ReadEvent::Data(b"abc".to_vec())) {
        PollAction::Deliver(d) => assert_eq!(d, b"abc".to_vec()),
        _ => panic!("expected the bytes to be delivered"),
    }
    assert_eq!(t.reconnects, 0);
}

#[test]
fn would_block_is_no_data() {
    let mut t = PollFlow::begin();
    assert!(matches!(t.on_read(ReadEvent::WouldBlock), PollAction::NoData));
    assert_eq!(t.reconnects, 0);
}

#[test]
fn orderly_close_is_no_data_without_reconnect() {
    let mut t = PollFlow::begin();
    assert!(matches!(t.on_read(ReadEvent::Closed), PollAction::NoData));
    assert_eq!(t.reconnects, 0);
}

#[test]
fn hard_failure_asks_exactly_one_reconnect() {
    let mut t = PollFlow::begin();
    assert!(matches!(t.on_read(ReadEvent::Failed), PollAction::Reconnect));
    assert_eq!(t.reconnects, 1);
    assert!(matches!(t.on_reconnect(true), PollAction::ReadAgain));
    // The retried read fails too: swallowed, no second reconnect.
    assert!(matches!(t.on_read(ReadEvent::Failed), PollAction::NoData));
    assert_eq!(t.reconnects, 1);
}

#[test]
fn failed_reconnect_is_swallowed() {
    let mut t = PollFlow::begin();
    assert!(matches!(t.on_read(ReadEvent::Failed), PollAction::Reconnect));
    assert!(matches!(t.on_reconnect(false), PollAction::NoData));
    assert_eq!(t.reconnects, 1);
}

#[test]
fn reconnect_then_resume_decoding_without_replay() {
    let mut s = Session::new();

    // First poll delivers a snapshot.
    let mut t = PollFlow::begin();
    match t.on_read(ReadEvent::Data(b"GAMESERVER update 1 7 1 2\n".to_vec())) {
        PollAction::Deliver(d) => s.handle_chunk(&d),
        _ => panic!("expected the bytes to be delivered"),
    }
    assert_eq!(s.entities.len(), 1);

    // Next poll hits a hard read error: exactly one reconnect, then the
    // retried read delivers fresh bytes. Nothing from the old socket is
    // replayed: the entity moves once, to the new position only.
    let mut t = PollFlow::begin();
    assert!(matches!(t.on_read(ReadEvent::Failed), PollAction::Reconnect));
    assert_eq!(t.reconnects, 1);
    assert!(matches!(t.on_reconnect(true), PollAction::ReadAgain));
    match t.on_read(ReadEvent::Data(b"GAMESERVER update 1 7 5 6\n".to_vec())) {
        PollAction::Deliver(d) => s.handle_chunk(&d),
        _ => panic!("expected the bytes to be delivered"),
    }
    assert_eq!(t.reconnects, 1);
    assert_eq!(s.entities.len(), 1);
    let e = s.lookup(7).unwrap();
    assert_eq!((e.x, e.z), (5, 6));
    assert_eq!(e.model, ModelKind::Other);
    assert_eq!(s.registry.live(ModelKind::Other), 1);
}
