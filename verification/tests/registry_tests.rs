use relay::registry::Handle;
use relay::registry::Registry;

#[test]
fn empty_registry_resolves_nothing() {
    let reg = Registry::new();
    assert_eq!(reg.len(), 0);
    assert_eq!(reg.resolve(&String::from("client1")), None);
    assert!(!reg.contains(&String::from("client1")));
}

#[test]
fn register_then_resolve_returns_same_handle() {
    // round trip: registering `client7` and resolving it immediately yields
    // the very handle that was registered
    let mut reg = Registry::new();
    let h = Handle { token: 77 };
    reg.register(String::from("client7"), h);
    assert_eq!(reg.resolve(&String::from("client7")), Some(Handle { token: 77 }));
    assert!(reg.contains(&String::from("client7")));
    assert_eq!(reg.len(), 1);
}

#[test]
fn resolve_distinguishes_keys() {
    let mut reg = Registry::new();
    reg.register(String::from("client1"), Handle { token: 1 });
    reg.register(String::from("client2"), Handle { token: 2 });
    assert_eq!(reg.resolve(&String::from("client1")), Some(Handle { token: 1 }));
    assert_eq!(reg.resolve(&String::from("client2")), Some(Handle { token: 2 }));
    assert_eq!(reg.resolve(&String::from("client3")), None);
    assert_eq!(reg.len(), 2);
}

#[test]
fn deregister_removes_only_its_key() {
    let mut reg = Registry::new();
    reg.register(String::from("client1"), Handle { token: 1 });
    reg.register(String::from("client2"), Handle { token: 2 });
    reg.deregister(&String::from("client1"));
    assert_eq!(reg.resolve(&String::from("client1")), None);
    assert_eq!(reg.resolve(&String::from("client2")), Some(Handle { token: 2 }));
    assert_eq!(reg.len(), 1);
}

#[test]
fn deregister_absent_is_no_op() {
    // disconnect and read-error paths may race to remove the same id;
    // the second removal must not fail or disturb anything
    let mut reg = Registry::new();
    reg.register(String::from("client1"), Handle { token: 1 });
    reg.deregister(&String::from("client9"));
    assert_eq!(reg.len(), 1);
    reg.deregister(&String::from("client1"));
    reg.deregister(&String::from("client1"));
    assert_eq!(reg.len(), 0);
}
