use room_relay::relay::Relay;

#[test]
fn register_assigns_fresh_ids() {
    let mut relay = Relay::new();
    let a = relay.register();
    let b = relay.register();
    let c = relay.register();
    assert_ne!(a, b);
    assert_ne!(a, c);
    assert_ne!(b, c);
    assert!(relay.lookup(a).is_some());
    assert!(relay.lookup(b).is_some());
    assert!(relay.lookup(c).is_some());
}

#[test]
fn fresh_connection_is_in_no_room() {
    let mut relay = Relay::new();
    let a = relay.register();
    let conn = relay.lookup(a).unwrap();
    assert_eq!(conn.id, a);
    assert_eq!(conn.room, None);
}

#[test]
fn lookup_of_unknown_id_is_none() {
    let mut relay = Relay::new();
    let a = relay.register();
    assert!(relay.lookup(a + 1).is_none());
    relay.unregister(a);
    assert!(relay.lookup(a).is_none());
}

#[test]
fn join_puts_connection_in_room() {
    let mut relay = Relay::new();
    let a = relay.register();
    relay.join(a, "r1".to_string());
    assert_eq!(relay.members_of("r1"), vec![a]);
    assert_eq!(relay.lookup(a).unwrap().room, Some("r1".to_string()));
}

#[test]
fn join_on_unregistered_id_is_a_no_op() {
    let mut relay = Relay::new();
    let a = relay.register();
    relay.join(a + 7, "r1".to_string());
    assert!(relay.members_of("r1").is_empty());
    assert!(relay.lookup(a + 7).is_none());
}

#[test]
fn rejoining_same_room_changes_nothing() {
    let mut relay = Relay::new();
    let a = relay.register();
    relay.join(a, "r1".to_string());
    relay.join(a, "r1".to_string());
    assert_eq!(relay.members_of("r1"), vec![a]);
}

#[test]
fn joining_a_new_room_leaves_the_old_one() {
    // A joins "r1", then "r2": "r1" is empty again, "r2" holds exactly A.
    let mut relay = Relay::new();
    let a = relay.register();
    relay.join(a, "r1".to_string());
    relay.join(a, "r2".to_string());
    assert_eq!(relay.members_of("r1"), Vec::<u64>::new());
    assert_eq!(relay.members_of("r2"), vec![a]);
}

#[test]
fn members_of_unknown_room_is_empty() {
    let mut relay = Relay::new();
    let a = relay.register();
    relay.join(a, "r1".to_string());
    assert!(relay.members_of("nowhere").is_empty());
    assert!(relay.members_of("").is_empty());
}

#[test]
fn leave_all_empties_the_current_room() {
    let mut relay = Relay::new();
    let a = relay.register();
    relay.join(a, "r1".to_string());
    relay.leave_all(a);
    assert!(relay.members_of("r1").is_empty());
    assert_eq!(relay.lookup(a).unwrap().room, None);
}

#[test]
fn leave_all_twice_equals_leave_all_once() {
    let mut once = Relay::new();
    let a1 = once.register();
    once.join(a1, "r1".to_string());
    once.leave_all(a1);

    let mut twice = Relay::new();
    let a2 = twice.register();
    twice.join(a2, "r1".to_string());
    twice.leave_all(a2);
    twice.leave_all(a2);

    assert_eq!(a1, a2);
    assert_eq!(once.members_of("r1"), twice.members_of("r1"));
    assert_eq!(once.lookup(a1).unwrap().room, twice.lookup(a2).unwrap().room);
}

#[test]
fn leave_all_on_unregistered_id_is_a_no_op() {
    let mut relay = Relay::new();
    let a = relay.register();
    relay.join(a, "r1".to_string());
    relay.leave_all(a + 99);
    assert_eq!(relay.members_of("r1"), vec![a]);
}

#[test]
fn unregister_removes_from_room_and_registry() {
    let mut relay = Relay::new();
    let a = relay.register();
    let b = relay.register();
    relay.join(a, "r1".to_string());
    relay.join(b, "r1".to_string());
    relay.unregister(a);
    assert!(relay.lookup(a).is_none());
    assert_eq!(relay.members_of("r1"), vec![b]);
}

#[test]
fn unregister_is_idempotent() {
    let mut relay = Relay::new();
    let a = relay.register();
    let b = relay.register();
    relay.join(b, "r2".to_string());
    relay.unregister(a);
    relay.unregister(a);
    assert!(relay.lookup(a).is_none());
    assert_eq!(relay.members_of("r2"), vec![b]);
}

#[test]
fn a_connection_is_never_in_two_rooms() {
    let mut relay = Relay::new();
    let a = relay.register();
    let rooms = ["alpha", "beta", "gamma", "alpha", "delta"];
    for room in rooms {
        relay.join(a, room.to_string());
        let mut homes = 0;
        for probe in ["alpha", "beta", "gamma", "delta"] {
            if relay.members_of(probe).contains(&a) {
                homes += 1;
                assert_eq!(probe, room);
            }
        }
        assert_eq!(homes, 1);
    }
}
