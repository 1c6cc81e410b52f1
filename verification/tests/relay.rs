use p2p_chat::nat_traversal::NatTraversal;
use p2p_chat::types::Action;

const RELAY: &str = "QmcgpsyWgH8Y8ajJz1Cu72KnS5uo2Aa2LpzU7kinSupNKC";
const TARGET: &str = "QmSoLer265NRgSp2LA3dPaeykiS1J6DifTC88f5uVQKNAd";

#[test]
fn reservation_records_relay_and_listens_on_circuit() {
    let mut nat = NatTraversal::new(Vec::new());
    let acts = nat.handle_reservation_accepted(RELAY);
    assert_eq!(acts.len(), 1);
    match &acts[0] {
        Action::ListenOn { address } => {
            assert_eq!(address, &format!("/p2p/{}/p2p-circuit", RELAY));
        }
        other => panic!("expected a listen action, got {:?}", other),
    }
    assert_eq!(nat.relay_peer_count(), 1);

    // A repeated acceptance does not duplicate the relay.
    nat.handle_reservation_accepted(RELAY);
    assert_eq!(nat.relay_peer_count(), 1);
}

#[test]
fn retry_dials_through_the_first_relay() {
    let mut nat = NatTraversal::new(Vec::new());
    nat.handle_reservation_accepted(RELAY);
    let acts = nat.retry_with_relay(TARGET, &Vec::new());
    assert_eq!(acts.len(), 1);
    match &acts[0] {
        Action::DialRelay { peer_id, address } => {
            assert_eq!(peer_id, TARGET);
            assert_eq!(address, &format!("/p2p/{}/p2p-circuit/p2p/{}", RELAY, TARGET));
        }
        other => panic!("expected a relay dial action, got {:?}", other),
    }
    assert!(nat.has_pending_retry(TARGET));

    // At most one retry per peer: a second trigger does nothing.
    let again = nat.retry_with_relay(TARGET, &Vec::new());
    assert!(again.is_empty());
}

#[test]
fn connected_peers_are_never_retried() {
    let mut nat = NatTraversal::new(Vec::new());
    nat.handle_reservation_accepted(RELAY);
    let connected = vec![TARGET.to_string()];
    let acts = nat.retry_with_relay(TARGET, &connected);
    assert!(acts.is_empty());
    assert!(!nat.has_pending_retry(TARGET));
}

#[test]
fn without_relays_bootstrap_peers_become_candidates() {
    let bootstrap = vec![(RELAY.to_string(), "/ip4/1.2.3.4/tcp/4001".to_string())];
    let mut nat = NatTraversal::new(bootstrap);
    assert_eq!(nat.relay_peer_count(), 0);
    let acts = nat.retry_with_relay(TARGET, &Vec::new());
    assert!(acts.is_empty());
    assert_eq!(nat.relay_peer_count(), 1);
    // With a candidate known, the next trigger dials.
    let acts = nat.retry_with_relay(TARGET, &Vec::new());
    assert_eq!(acts.len(), 1);
}

#[test]
fn failed_dial_clears_the_retry() {
    let mut nat = NatTraversal::new(Vec::new());
    nat.handle_reservation_accepted(RELAY);
    nat.retry_with_relay(TARGET, &Vec::new());
    assert!(nat.has_pending_retry(TARGET));
    nat.relay_dial_failed(TARGET);
    assert!(!nat.has_pending_retry(TARGET));
    // A later trigger can attempt the peer again.
    let acts = nat.retry_with_relay(TARGET, &Vec::new());
    assert_eq!(acts.len(), 1);
}

#[test]
fn successful_connection_clears_failure_marks() {
    let mut nat = NatTraversal::new(Vec::new());
    nat.mark_failed_direct(TARGET);
    assert!(nat.has_failed_direct(TARGET));
    nat.handle_reservation_accepted(RELAY);
    nat.retry_with_relay(TARGET, &Vec::new());
    nat.clear_failed_direct(TARGET);
    assert!(!nat.has_failed_direct(TARGET));
    assert!(!nat.has_pending_retry(TARGET));
}
