use relay::registry::Handle;
use relay::registry::Registry;
use relay::router::parse_frame;
use relay::router::route;
use relay::router::TargetOutcome;

fn targets_of(ts: &Vec<String>) -> Vec<&str> {
    ts.iter().map(|t| t.as_str()).collect()
}

#[test]
fn parses_single_target_frame() {
    let m = parse_frame("B:hello").expect("frame has a colon");
    assert_eq!(targets_of(&m.targets), vec!["B"]);
    assert_eq!(m.payload, "hello");
}

#[test]
fn parses_multiple_targets_in_order() {
    let m = parse_frame("B,C:hi").expect("frame has a colon");
    assert_eq!(targets_of(&m.targets), vec!["B", "C"]);
    assert_eq!(m.payload, "hi");
}

#[test]
fn frame_without_colon_is_malformed() {
    assert!(parse_frame("malformed").is_none());
    assert!(parse_frame("").is_none());
    assert!(parse_frame("a,b,c").is_none());
}

#[test]
fn trims_targets_and_payload() {
    let m = parse_frame("  client1 ,\tclient2  :   hi there  ").expect("frame has a colon");
    assert_eq!(targets_of(&m.targets), vec!["client1", "client2"]);
    assert_eq!(m.payload, "hi there");
}

#[test]
fn skips_tokens_empty_after_trimming() {
    let m = parse_frame("B,, ,C:x").expect("frame has a colon");
    assert_eq!(targets_of(&m.targets), vec!["B", "C"]);
    let m = parse_frame(" , :x").expect("frame has a colon");
    assert!(m.targets.is_empty());
}

#[test]
fn payload_keeps_later_colons() {
    let m = parse_frame("B:a:b:c").expect("frame has a colon");
    assert_eq!(targets_of(&m.targets), vec!["B"]);
    assert_eq!(m.payload, "a:b:c");
}

#[test]
fn empty_payload_is_allowed() {
    let m = parse_frame("B:").expect("frame has a colon");
    assert_eq!(targets_of(&m.targets), vec!["B"]);
    assert_eq!(m.payload, "");
}

#[test]
fn routes_to_single_registered_target() {
    // `B:hello` delivers `hello` to B's connection exactly once, unmodified
    let mut reg = Registry::new();
    reg.register(String::from("B"), Handle { token: 5 });
    let m = parse_frame("B:hello").expect("frame has a colon");
    let d = route(&reg, &m);
    assert_eq!(d.deliveries, vec![Handle { token: 5 }]);
    assert_eq!(d.outcomes, vec![TargetOutcome::Found]);
    assert_eq!(m.payload, "hello");
}

#[test]
fn unknown_target_is_skipped_not_fatal() {
    // `B,C:hi` with C unknown: B still receives `hi`, C is reported
    let mut reg = Registry::new();
    reg.register(String::from("B"), Handle { token: 5 });
    let m = parse_frame("B,C:hi").expect("frame has a colon");
    let d = route(&reg, &m);
    assert_eq!(d.deliveries, vec![Handle { token: 5 }]);
    assert_eq!(d.outcomes, vec![TargetOutcome::Found, TargetOutcome::NotFound]);
}

#[test]
fn both_targets_receive_in_listed_order() {
    let mut reg = Registry::new();
    reg.register(String::from("B"), Handle { token: 5 });
    reg.register(String::from("C"), Handle { token: 9 });
    let m = parse_frame("B,C:hi").expect("frame has a colon");
    let d = route(&reg, &m);
    assert_eq!(d.deliveries, vec![Handle { token: 5 }, Handle { token: 9 }]);
    let m = parse_frame("C,B:hi").expect("frame has a colon");
    let d = route(&reg, &m);
    assert_eq!(d.deliveries, vec![Handle { token: 9 }, Handle { token: 5 }]);
}

#[test]
fn duplicate_targets_deliver_twice() {
    // deduplication is not required: each listed occurrence is resolved
    let mut reg = Registry::new();
    reg.register(String::from("B"), Handle { token: 5 });
    let m = parse_frame("B,B:echo").expect("frame has a colon");
    let d = route(&reg, &m);
    assert_eq!(d.deliveries, vec![Handle { token: 5 }, Handle { token: 5 }]);
}
