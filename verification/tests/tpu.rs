use shred_sniper::addresses::Ip;
use shred_sniper::clock::SECOND;
use shred_sniper::tpu::{
    clamped, delivery, report, Attempt, Endpoint, LeaderTpus, Node, Severity, Stage, Step, Window,
    WARM_SLOTS, WINDOW_SLOTS,
};

fn window(start: u64, len: usize) -> Window {
    Window {
        start,
        leaders: vec!["leader".to_string(); len],
    }
}

/// The fanout is read off the end of the window, so a refresh that waits for the
/// window to actually run out leaves the last slots of it with no leader to aim
/// at.
#[test]
fn a_window_is_refreshed_while_it_still_covers_the_horizon() {
    let window = window(100, 128);
    assert!(!window.refresh_due(150), "the window is nowhere near out");
    assert!(
        window.refresh_due(228 - WARM_SLOTS),
        "the horizon has reached the end of the window"
    );
    assert!(window.refresh_due(99), "the window starts past this slot");
}

/// A window clamped by an epoch boundary is shorter than the horizon from the
/// moment it is fetched, and a quarter of it rounds to nothing — which would
/// leave it never refreshed at all.
#[test]
fn a_window_shorter_than_the_horizon_is_always_due() {
    assert!(window(100, 3).refresh_due(100));
}

fn endpoint(port: u16) -> Endpoint {
    Endpoint {
        ip: Ip::V4(0x0a00_0001),
        port,
        flowinfo: 0,
        scope_id: 0,
    }
}

fn node(name: &str, port: Option<u16>) -> Node {
    Node {
        pubkey: name.to_string(),
        tpu_quic: port.map(endpoint),
    }
}

fn tpus() -> LeaderTpus {
    let mut tpus = LeaderTpus::new();
    tpus.nodes_answered(
        Some(vec![
            node("alice", Some(1)),
            node("bob", Some(2)),
            node("alice", Some(3)),
            node("bob", None),
            node("carol", None),
        ]),
        0,
    );
    let names = ["alice", "alice", "carol", "bob", "alice", "dave"];
    tpus.leaders_answered(100, Some(names.iter().map(|name| name.to_string()).collect()));
    tpus
}

/// Neighbouring slots usually name the same node, and a node is sent to once.
#[test]
fn leaders_are_addressed_once_each() {
    let tpus = tpus();
    assert_eq!(tpus.addresses(100, 6), vec![endpoint(3), endpoint(2)]);
    assert_eq!(tpus.addresses(103, 1), vec![endpoint(2)]);
    assert_eq!(tpus.addresses(102, 1), vec![]);
    assert_eq!(tpus.addresses(99, 2), vec![endpoint(3)]);
    assert_eq!(tpus.addresses(u64::MAX, 5), vec![]);
    assert_eq!(LeaderTpus::new().addresses(100, 6), vec![]);
    assert_eq!(tpus.aim(100, 1), Ok(vec![endpoint(3)]));
    assert_eq!(
        tpus.aim(102, 1),
        Err("no TPU address known for slot 102".to_string())
    );
    assert_eq!(tpus.window.as_ref().unwrap().leader(103), Some("bob"));
    assert_eq!(tpus.window.as_ref().unwrap().leader(106), None);
}

/// Delivery to any one leader is success.
#[test]
fn one_delivery_is_enough() {
    let attempt = |port, error: Option<&str>| Attempt {
        endpoint: endpoint(port),
        error: error.map(str::to_string),
    };
    assert_eq!(
        delivery(&vec![attempt(1, Some("x")), attempt(2, None), attempt(3, Some("y"))]),
        Ok(vec![endpoint(2)])
    );
    assert_eq!(
        delivery(&vec![attempt(1, Some("x")), attempt(3, Some("y"))]),
        Err("y".to_string())
    );
    assert_eq!(delivery(&vec![]), Ok(vec![]));
}

/// A tick asks for what is stale and then warms what is coming up.
#[test]
fn a_tick_goes_through_its_stages() {
    let tpus = tpus();
    assert!(matches!(tpus.step(Stage::Nodes, 0, 0), Step::Wait));
    assert!(matches!(
        tpus.step(Stage::Nodes, 100, 30 * SECOND + 1),
        Step::FetchNodes
    ));
    assert!(matches!(
        tpus.step(Stage::Nodes, 100, 30 * SECOND),
        Step::FetchLeaders
    ));
    assert!(matches!(
        tpus.step(Stage::Leaders, 100, 0),
        Step::FetchLeaders
    ));
    match tpus.step(Stage::Warm, 100, 0) {
        Step::Warm(addresses) => assert_eq!(addresses, vec![endpoint(3), endpoint(2)]),
        _ => panic!("everything else is done"),
    }
    assert!(matches!(
        LeaderTpus::new().step(Stage::Nodes, 1, 0),
        Step::FetchNodes
    ));
}

/// Only the first failure in a row is worth a warning.
#[test]
fn failures_are_reported_once() {
    let mut errored = false;
    assert_eq!(report(&mut errored), Severity::Warning);
    assert_eq!(report(&mut errored), Severity::Detail);

    let mut tpus = tpus();
    assert_eq!(tpus.nodes_answered(None, 5), Some(Severity::Warning));
    assert_eq!(tpus.leaders_answered(7, None), Some(Severity::Detail));
    assert_eq!(tpus.window.as_ref().unwrap().start, 100);
    assert_eq!(tpus.leaders_answered(7, Some(vec![])), None);
    assert_eq!(tpus.nodes_answered(None, 5), Some(Severity::Warning));
}

/// What is left of the epoch is what there is to ask for.
#[test]
fn a_refused_window_is_clamped_to_its_epoch() {
    assert_eq!(clamped(1000, 1010, 10, 100), 100);
    assert_eq!(clamped(1000, 1010, 10, 10_000), WINDOW_SLOTS);
    assert_eq!(clamped(1100, 1099, 99, 100), WARM_SLOTS);
    assert_eq!(clamped(0, 5, 10, u64::MAX), WINDOW_SLOTS);
}
