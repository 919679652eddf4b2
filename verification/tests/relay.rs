use tapframe::relay::{Relay, RelayAction, RelayEvent};

#[test]
fn relay_forwards_frames_in_decode_order() {
    let mut relay = Relay::new();
    let a = vec![1u8, 2];
    let b = vec![3u8];
    let action = relay.step(RelayEvent::Read(vec![a.clone(), b.clone()]));
    match action {
        RelayAction::Write(frame) => assert_eq!(frame, a),
        _ => panic!("expected a write of the first frame"),
    }
    let action = relay.step(RelayEvent::Wrote);
    match action {
        RelayAction::Write(frame) => assert_eq!(frame, b),
        _ => panic!("expected a write of the second frame"),
    }
    let action = relay.step(RelayEvent::Wrote);
    assert!(matches!(action, RelayAction::Read));
}

#[test]
fn relay_reads_again_when_a_read_completes_nothing() {
    let mut relay = Relay::new();
    let action = relay.step(RelayEvent::Read(Vec::new()));
    assert!(matches!(action, RelayAction::Read));
}

#[test]
fn relay_stops_on_read_failure() {
    let mut relay = Relay::new();
    let action = relay.step(RelayEvent::ReadFailed);
    assert!(matches!(action, RelayAction::Stop));
}

#[test]
fn relay_stops_on_write_failure_and_discards_pending() {
    let mut relay = Relay::new();
    let action = relay.step(RelayEvent::Read(vec![vec![1u8], vec![2u8]]));
    assert!(matches!(action, RelayAction::Write(_)));
    let action = relay.step(RelayEvent::WriteFailed);
    assert!(matches!(action, RelayAction::Stop));
    let action = relay.step(RelayEvent::Wrote);
    assert!(matches!(action, RelayAction::Read));
}
