use relay::registry::Handle;
use relay::server::ConnEvent;
use relay::server::ConnHandler;
use relay::server::HandlerPhase;
use relay::server::HandlerAction;
use relay::server::ServerState;

#[test]
fn identifiers_are_unique_and_increasing() {
    // a burst of connects: every client gets a distinct identifier, in
    // counter order, and no registration is lost
    let mut s = ServerState::new();
    let n: u64 = 8;
    let mut ids: Vec<String> = Vec::new();
    for k in 0..n {
        let id = s.connect(Handle { token: k });
        ids.push(id);
    }
    for i in 0..ids.len() {
        assert_eq!(ids[i], format!("client{}", i + 1));
        for j in 0..i {
            assert_ne!(ids[i], ids[j]);
        }
    }
    assert_eq!(s.registry.len(), n as usize);
}

#[test]
fn connected_clients_resolve_to_their_handles() {
    let mut s = ServerState::new();
    let a = s.connect(Handle { token: 10 });
    let b = s.connect(Handle { token: 20 });
    assert_eq!(s.registry.resolve(&a), Some(Handle { token: 10 }));
    assert_eq!(s.registry.resolve(&b), Some(Handle { token: 20 }));
}

#[test]
fn text_frame_is_routed_to_named_client() {
    let mut s = ServerState::new();
    let _a = s.connect(Handle { token: 10 });
    let b = s.connect(Handle { token: 20 });
    let a_id = String::from("client1");
    let ev = ConnEvent::Text(format!("{}:hello", b));
    match s.handler_step(&a_id, &ev) {
        HandlerAction::Deliver { dispatch, payload } => {
            assert_eq!(dispatch.deliveries, vec![Handle { token: 20 }]);
            assert_eq!(payload, "hello");
        }
        _ => panic!("a well-formed frame must be delivered"),
    }
    // routing mutates nothing
    assert_eq!(s.registry.len(), 2);
}

#[test]
fn malformed_frame_rejected_without_closing() {
    // a frame with no colon: zero deliveries, the sender stays connected
    let mut s = ServerState::new();
    let a = s.connect(Handle { token: 10 });
    let ev = ConnEvent::Text(String::from("malformed"));
    match s.handler_step(&a, &ev) {
        HandlerAction::Reject => {}
        _ => panic!("a frame without a colon must be rejected"),
    }
    assert_eq!(s.registry.resolve(&a), Some(Handle { token: 10 }));
    assert_eq!(s.registry.len(), 1);
}

#[test]
fn close_frame_deregisters_and_stops() {
    let mut s = ServerState::new();
    let a = s.connect(Handle { token: 10 });
    let b = s.connect(Handle { token: 20 });
    match s.handler_step(&a, &ConnEvent::Closed) {
        HandlerAction::Stop => {}
        _ => panic!("a close frame ends the handler"),
    }
    assert_eq!(s.registry.resolve(&a), None);
    // the other client is untouched
    assert_eq!(s.registry.resolve(&b), Some(Handle { token: 20 }));
}

#[test]
fn read_error_deregisters_and_stops() {
    let mut s = ServerState::new();
    let a = s.connect(Handle { token: 10 });
    match s.handler_step(&a, &ConnEvent::ReadError) {
        HandlerAction::Stop => {}
        _ => panic!("a read error ends the handler"),
    }
    assert_eq!(s.registry.resolve(&a), None);
}

#[test]
fn other_frames_are_ignored() {
    let mut s = ServerState::new();
    let a = s.connect(Handle { token: 10 });
    match s.handler_step(&a, &ConnEvent::Other) {
        HandlerAction::Continue => {}
        _ => panic!("a ping or binary frame is ignored"),
    }
    assert_eq!(s.registry.len(), 1);
}

#[test]
fn disconnected_id_is_gone_and_never_reassigned() {
    // after a disconnect: a send naming the id reports not-found and
    // delivers nothing, and the identifier is never handed out again
    let mut s = ServerState::new();
    let a = s.connect(Handle { token: 10 });
    let b = s.connect(Handle { token: 20 });
    s.handler_step(&a, &ConnEvent::Closed);
    let ev = ConnEvent::Text(format!("{}:are you there", a));
    match s.handler_step(&b, &ev) {
        HandlerAction::Deliver { dispatch, .. } => {
            assert!(dispatch.deliveries.is_empty());
            assert_eq!(dispatch.outcomes.len(), 1);
            assert_ne!(dispatch.outcomes[0], relay::router::TargetOutcome::Found);
        }
        _ => panic!("the frame itself is well-formed"),
    }
    let c = s.connect(Handle { token: 30 });
    assert_ne!(c, a);
    assert_ne!(c, b);
    assert_eq!(c, "client3");
}

#[test]
fn partial_delivery_reaches_listed_known_targets() {
    let mut s = ServerState::new();
    let a = s.connect(Handle { token: 10 });
    let b = s.connect(Handle { token: 20 });
    let ev = ConnEvent::Text(format!("{},ghost,{}:fan out", a, b));
    match s.handler_step(&a, &ev) {
        HandlerAction::Deliver { dispatch, payload } => {
            assert_eq!(dispatch.deliveries, vec![Handle { token: 10 }, Handle { token: 20 }]);
            assert_eq!(payload, "fan out");
        }
        _ => panic!("a well-formed frame must be delivered"),
    }
}

#[test]
fn handler_lifecycle_registers_then_removes_once() {
    let mut s = ServerState::new();
    let mut h1 = ConnHandler::connect(&mut s, Handle { token: 1 });
    let mut h2 = ConnHandler::connect(&mut s, Handle { token: 2 });
    assert_eq!(h1.phase, HandlerPhase::Reading);
    assert_eq!(h1.id, "client1");
    assert_eq!(h2.id, "client2");
    assert_eq!(s.registry.len(), 2);

    // a routed frame keeps the handler reading
    let ev = ConnEvent::Text(String::from("client2:ping"));
    match h1.step(&mut s, &ev) {
        HandlerAction::Deliver { dispatch, payload } => {
            assert_eq!(dispatch.deliveries, vec![Handle { token: 2 }]);
            assert_eq!(payload, "ping");
        }
        _ => panic!("a well-formed frame must be delivered"),
    }
    assert_eq!(h1.phase, HandlerPhase::Reading);

    // a close frame removes exactly this handler's id and ends its loop
    match h1.step(&mut s, &ConnEvent::Closed) {
        HandlerAction::Stop => {}
        _ => panic!("a close frame ends the handler"),
    }
    assert_eq!(h1.phase, HandlerPhase::Removed);
    assert_eq!(s.registry.resolve(&h1.id), None);
    assert_eq!(s.registry.resolve(&h2.id), Some(Handle { token: 2 }));

    // the other handler is unaffected and keeps reading
    match h2.step(&mut s, &ConnEvent::Other) {
        HandlerAction::Continue => {}
        _ => panic!("other frame kinds are ignored"),
    }
    assert_eq!(h2.phase, HandlerPhase::Reading);
}
