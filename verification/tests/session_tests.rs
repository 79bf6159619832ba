use dab_core::session::{reply, Incoming, Outgoing, Sessions};

#[test]
fn sessions_get_increasing_ids() {
    let mut s = Sessions::new();
    assert_eq!(s.count(), 0);
    let a = s.open();
    let b = s.open();
    assert_eq!((a, b), (1, 2));
    assert_eq!(s.count(), 2);
    s.close(a);
    assert_eq!(s.count(), 1);
    assert_eq!(s.open(), 3);
    assert_eq!(s.count(), 2);
}

#[test]
fn closing_twice_or_unknown_changes_nothing_more() {
    let mut s = Sessions::new();
    let a = s.open();
    s.close(a);
    s.close(a);
    s.close(99);
    assert_eq!(s.count(), 0);
}

#[test]
fn ping_text_gets_pong() {
    assert_eq!(reply(&Incoming::Text(Some("ping".to_string()))), Outgoing::Pong);
    assert_eq!(reply(&Incoming::Text(Some("Ping".to_string()))), Outgoing::Nothing);
    assert_eq!(reply(&Incoming::Text(Some("move".to_string()))), Outgoing::Nothing);
    assert_eq!(reply(&Incoming::Text(None)), Outgoing::Nothing);
}

#[test]
fn protocol_frames_are_answered() {
    assert_eq!(reply(&Incoming::Ping), Outgoing::ReturnPing);
    assert_eq!(reply(&Incoming::Close), Outgoing::Stop);
    assert_eq!(reply(&Incoming::Other), Outgoing::Nothing);
}

#[test]
fn hello_ping_close_clears_registry() {
    let mut s = Sessions::new();
    let id = s.open();
    assert_eq!(s.count(), 1);
    assert_eq!(reply(&Incoming::Text(Some("ping".to_string()))), Outgoing::Pong);
    assert_eq!(reply(&Incoming::Close), Outgoing::Stop);
    s.close(id);
    assert_eq!(s.count(), 0);
}
