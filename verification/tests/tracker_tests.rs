use peer_tracker::peer::PeerIdentifier;
use peer_tracker::tracker::{LifecycleEvent, PeerTracker};
use peer_tracker::node::{classify, handle_notification, NodeConfig, NodeNotification};

fn pid(bytes: &[u8]) -> PeerIdentifier {
    PeerIdentifier::from_bytes(bytes.to_vec())
}

#[test]
fn peer_identifier_bytes_round_trip() {
    let p = pid(&[1, 2, 3]);
    assert_eq!(p.as_bytes(), &vec![1u8, 2, 3]);
}

#[test]
fn peer_identifier_equality() {
    let a = pid(&[1, 2, 3]);
    let b = pid(&[1, 2, 3]);
    let c = pid(&[1, 2, 4]);
    let d = pid(&[1, 2]);
    assert!(a.same_id(&b));
    assert!(!a.same_id(&c));
    assert!(!a.same_id(&d));
    assert!(a == b);
    assert!(a != c);
}

#[test]
fn peer_identifier_clone_id() {
    let a = pid(&[7, 8]);
    let b = a.clone_id();
    assert!(a.same_id(&b));
    assert_eq!(b.as_bytes(), &vec![7u8, 8]);
}

#[test]
fn empty_tracker_snapshot_is_empty() {
    let t = PeerTracker::new();
    assert_eq!(t.len(), 0);
    assert!(t.snapshot().is_empty());
}

#[test]
fn connect_two_then_disconnect_one() {
    let mut t = PeerTracker::new();
    t.apply(LifecycleEvent::Connected(pid(&[1])));
    t.apply(LifecycleEvent::Connected(pid(&[2])));
    t.apply(LifecycleEvent::Disconnected(pid(&[1])));
    assert_eq!(t.len(), 1);
    assert!(!t.contains(&pid(&[1])));
    assert!(t.contains(&pid(&[2])));
    let snap = t.snapshot();
    assert_eq!(snap.len(), 1);
    assert_eq!(snap[0].as_bytes(), &vec![2u8]);
}

#[test]
fn connect_one_hundred_times_yields_one_member() {
    let mut t = PeerTracker::new();
    let mut i: usize = 0;
    while i < 100 {
        t.apply(LifecycleEvent::Connected(pid(&[42])));
        i += 1;
    }
    assert_eq!(t.len(), 1);
    let snap = t.snapshot();
    assert_eq!(snap.len(), 1);
    assert_eq!(snap[0].as_bytes(), &vec![42u8]);
}

#[test]
fn connect_twice_equals_connect_once() {
    let mut once = PeerTracker::new();
    once.apply(LifecycleEvent::Connected(pid(&[5])));
    let mut twice = PeerTracker::new();
    twice.apply(LifecycleEvent::Connected(pid(&[5])));
    twice.apply(LifecycleEvent::Connected(pid(&[5])));
    assert_eq!(once.len(), twice.len());
    assert!(twice.contains(&pid(&[5])));
}

#[test]
fn disconnect_absent_is_noop() {
    let mut t = PeerTracker::new();
    t.apply(LifecycleEvent::Connected(pid(&[1])));
    t.apply(LifecycleEvent::Disconnected(pid(&[9])));
    assert_eq!(t.len(), 1);
    assert!(t.contains(&pid(&[1])));
}

#[test]
fn connect_then_disconnect_leaves_empty() {
    let mut t = PeerTracker::new();
    t.apply(LifecycleEvent::Connected(pid(&[1])));
    t.apply(LifecycleEvent::Disconnected(pid(&[1])));
    assert_eq!(t.len(), 0);
    assert!(!t.contains(&pid(&[1])));
}

#[test]
fn disconnect_then_connect_registers() {
    let mut t = PeerTracker::new();
    t.apply(LifecycleEvent::Disconnected(pid(&[1])));
    t.apply(LifecycleEvent::Connected(pid(&[1])));
    assert_eq!(t.len(), 1);
    assert!(t.contains(&pid(&[1])));
}

#[test]
fn apply_all_folds_in_order() {
    let mut t = PeerTracker::new();
    let events = vec![
        LifecycleEvent::Connected(pid(&[1])),
        LifecycleEvent::Connected(pid(&[2])),
        LifecycleEvent::Disconnected(pid(&[1])),
        LifecycleEvent::Connected(pid(&[3])),
        LifecycleEvent::Disconnected(pid(&[3])),
        LifecycleEvent::Connected(pid(&[3])),
    ];
    t.apply_all(events);
    assert_eq!(t.len(), 2);
    assert!(!t.contains(&pid(&[1])));
    assert!(t.contains(&pid(&[2])));
    assert!(t.contains(&pid(&[3])));
}

#[test]
fn snapshot_matches_each_applied_prefix() {
    let mut t = PeerTracker::new();
    assert_eq!(t.snapshot().len(), 0);
    t.apply(LifecycleEvent::Connected(pid(&[1])));
    assert_eq!(t.snapshot().len(), 1);
    t.apply(LifecycleEvent::Connected(pid(&[2])));
    assert_eq!(t.snapshot().len(), 2);
    t.apply(LifecycleEvent::Disconnected(pid(&[1])));
    assert_eq!(t.snapshot().len(), 1);
}

#[test]
fn snapshot_has_no_duplicates() {
    let mut t = PeerTracker::new();
    t.apply(LifecycleEvent::Connected(pid(&[1])));
    t.apply(LifecycleEvent::Connected(pid(&[1])));
    t.apply(LifecycleEvent::Connected(pid(&[2])));
    let snap = t.snapshot();
    assert_eq!(snap.len(), 2);
    assert!(!snap[0].same_id(&snap[1]));
}

#[test]
fn classify_established_and_closed() {
    match classify(NodeNotification::ConnectionEstablished(pid(&[1]))) {
        Some(LifecycleEvent::Connected(p)) => assert_eq!(p.as_bytes(), &vec![1u8]),
        _ => panic!("an established connection must classify as a connect"),
    }
    match classify(NodeNotification::ConnectionClosed(pid(&[2]))) {
        Some(LifecycleEvent::Disconnected(p)) => assert_eq!(p.as_bytes(), &vec![2u8]),
        _ => panic!("a closed connection must classify as a disconnect"),
    }
    assert!(classify(NodeNotification::Other).is_none());
    assert!(classify(NodeNotification::ListenAddressBound("/ip4/127.0.0.1/tcp/4001".to_owned()))
        .is_none());
}

#[test]
fn handle_notification_updates_membership() {
    let mut t = PeerTracker::new();
    handle_notification(&mut t, NodeNotification::ConnectionEstablished(pid(&[1])));
    assert!(t.contains(&pid(&[1])));
    handle_notification(&mut t, NodeNotification::ListenAddressBound("/ip4/0.0.0.0/tcp/0".to_owned()));
    handle_notification(&mut t, NodeNotification::Other);
    assert_eq!(t.len(), 1);
    handle_notification(&mut t, NodeNotification::ConnectionClosed(pid(&[1])));
    assert!(!t.contains(&pid(&[1])));
    assert_eq!(t.len(), 0);
}

#[test]
fn failed_dial_leaves_tracker_empty_and_alive() {
    // A failed dial produces no lifecycle event: the membership stays empty
    // and a later inbound connection still registers.
    let mut t = PeerTracker::new();
    assert!(t.snapshot().is_empty());
    handle_notification(&mut t, NodeNotification::ConnectionEstablished(pid(&[1])));
    assert_eq!(t.len(), 1);
    assert!(t.contains(&pid(&[1])));
}

#[test]
fn config_defaults() {
    let c = NodeConfig::default();
    assert_eq!(c.listen_address, "/ip4/0.0.0.0/tcp/0");
    assert_eq!(c.bootstrap_address, "/dns4/ipfs.infura.io/tcp/5001");
    assert_eq!(c.report_interval_secs, 5);
}
