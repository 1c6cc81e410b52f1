use p2p_chat::client::P2PClient;
use p2p_chat::node::BootstrapNode;
use p2p_chat::types::{Action, EngineEvent, NetworkCommand, NetworkEvent};

const PEER: &str = "QmcgpsyWgH8Y8ajJz1Cu72KnS5uo2Aa2LpzU7kinSupNKC";

#[test]
fn connect_to_peer_registers_hint_and_dials() {
    let mut c = P2PClient::new(true, Vec::new());
    let addr = format!("/ip4/1.2.3.4/tcp/9/p2p/{}", PEER);
    let acts = c.handle_command_at(
        NetworkCommand::ConnectToPeer { address: addr.clone() },
        0,
        "0f3b0f6e-0000-4000-8000-000000000003".to_string(),
    );
    assert_eq!(acts.len(), 2);
    match &acts[0] {
        Action::AddRoutingHint { peer_id, address } => {
            assert_eq!(peer_id, PEER);
            assert_eq!(address, &addr);
        }
        other => panic!("expected a routing hint, got {:?}", other),
    }
    match &acts[1] {
        Action::Dial { address } => assert_eq!(address, &addr),
        other => panic!("expected a dial, got {:?}", other),
    }
}

#[test]
fn connect_without_peer_suffix_only_dials() {
    let mut c = P2PClient::new(true, Vec::new());
    let acts = c.handle_command_at(
        NetworkCommand::ConnectToPeer { address: "/ip4/1.2.3.4/tcp/9".to_string() },
        0,
        "0f3b0f6e-0000-4000-8000-000000000004".to_string(),
    );
    assert_eq!(acts.len(), 1);
    assert!(matches!(&acts[0], Action::Dial { .. }));
}

#[test]
fn invalid_address_is_dropped() {
    let mut c = P2PClient::new(true, Vec::new());
    let acts = c.handle_command_at(
        NetworkCommand::ConnectToPeer { address: "not an address".to_string() },
        0,
        "0f3b0f6e-0000-4000-8000-000000000005".to_string(),
    );
    assert!(acts.is_empty());
}

#[test]
fn sync_request_is_a_reserved_no_op() {
    let mut c = P2PClient::new(true, Vec::new());
    let acts = c.handle_command_at(
        NetworkCommand::SyncRequest { to_peer: PEER.to_string(), last_timestamp: 5 },
        0,
        "0f3b0f6e-0000-4000-8000-000000000006".to_string(),
    );
    assert!(acts.is_empty());
}

#[test]
fn connections_update_registry_and_friend_status() {
    let mut c = P2PClient::new(true, vec![PEER.to_string()]);
    let acts = c.handle_engine_event_at(
        EngineEvent::ConnectionEstablished { peer_id: PEER.to_string() },
        30,
    );
    assert_eq!(acts.len(), 2);
    assert!(matches!(&acts[0], Action::Emit(NetworkEvent::PeerConnected(p)) if p == PEER));
    match &acts[1] {
        Action::Emit(NetworkEvent::FriendStatus(st)) => {
            assert!(st.online);
            assert_eq!(st.message, "connected directly");
            assert_eq!(st.checked_at, 30);
        }
        other => panic!("expected a friend status, got {:?}", other),
    }
    assert_eq!(c.connected_peers().len(), 1);

    let acts = c.handle_engine_event_at(
        EngineEvent::ConnectionClosed { peer_id: PEER.to_string() },
        31,
    );
    assert_eq!(acts.len(), 2);
    assert!(matches!(&acts[0], Action::Emit(NetworkEvent::PeerDisconnected(p)) if p == PEER));
    match &acts[1] {
        Action::Emit(NetworkEvent::FriendStatus(st)) => {
            assert!(!st.online);
            assert_eq!(st.message, "connection closed");
        }
        other => panic!("expected a friend status, got {:?}", other),
    }
    assert_eq!(c.connected_peers().len(), 0);
}

#[test]
fn non_friend_connection_emits_no_status() {
    let mut c = P2PClient::new(true, Vec::new());
    let acts = c.handle_engine_event_at(
        EngineEvent::ConnectionEstablished { peer_id: PEER.to_string() },
        1,
    );
    assert_eq!(acts.len(), 1);
}

#[test]
fn inbound_messages_are_forwarded() {
    let mut c = P2PClient::new(true, Vec::new());
    let m = p2p_chat::types::ChatMessage {
        id: "1".to_string(),
        sender: PEER.to_string(),
        content: "hi".to_string(),
        timestamp: 9,
    };
    let acts = c.handle_engine_event_at(EngineEvent::InboundMessage(m), 1);
    assert_eq!(acts.len(), 1);
    assert!(matches!(&acts[0], Action::Emit(NetworkEvent::MessageReceived(m)) if m.content == "hi"));
}

#[test]
fn advertised_addresses_become_routing_hints() {
    let mut c = P2PClient::new(true, Vec::new());
    let acts = c.handle_engine_event_at(
        EngineEvent::IdentifyReceived {
            peer_id: PEER.to_string(),
            listen_addrs: vec!["/ip4/1.1.1.1/tcp/1".to_string(), "/ip4/2.2.2.2/tcp/2".to_string()],
        },
        1,
    );
    assert_eq!(acts.len(), 2);
    assert!(matches!(&acts[0], Action::AddRoutingHint { address, .. } if address == "/ip4/1.1.1.1/tcp/1"));
    assert!(matches!(&acts[1], Action::AddRoutingHint { address, .. } if address == "/ip4/2.2.2.2/tcp/2"));
}

#[test]
fn startup_reports_and_checks_every_friend() {
    let mut c = P2PClient::new(true, vec![PEER.to_string()]);
    let acts = c.startup_actions(77);
    assert_eq!(acts.len(), 2);
    match &acts[0] {
        Action::Emit(NetworkEvent::FriendStatus(st)) => {
            assert!(!st.online);
            assert_eq!(st.message, "waiting for status check via bootstrap...");
            assert_eq!(st.checked_at, 77);
        }
        other => panic!("expected a placeholder status, got {:?}", other),
    }
    assert!(matches!(&acts[1], Action::StartLookup { .. }));
}

#[test]
fn adding_a_friend_asks_for_persistence_and_reports_checking() {
    let mut c = P2PClient::new(true, Vec::new());
    let acts = c.handle_add_friend(PEER, 3);
    assert_eq!(acts.len(), 3);
    match &acts[0] {
        Action::PersistFriends(list) => assert_eq!(list, &vec![PEER.to_string()]),
        other => panic!("expected a persist action, got {:?}", other),
    }
    match &acts[1] {
        Action::Emit(NetworkEvent::FriendStatus(st)) => {
            assert!(!st.online);
            assert_eq!(st.message, "checking via bootstrap node...");
        }
        other => panic!("expected a status, got {:?}", other),
    }
    assert!(matches!(&acts[2], Action::StartLookup { .. }));
}

#[test]
fn bootstrap_node_registry_merges_addresses() {
    let mut n = BootstrapNode::new();
    assert_eq!(n.known_peers_count(), 0);
    n.record_peer_addresses(
        PEER,
        &vec!["/ip4/1.1.1.1/tcp/1".to_string(), "/ip4/2.2.2.2/tcp/2".to_string()],
    );
    n.record_peer_addresses(
        PEER,
        &vec!["/ip4/1.1.1.1/tcp/1".to_string(), "/ip4/3.3.3.3/tcp/3".to_string()],
    );
    assert_eq!(n.known_peers_count(), 1);
    let peers = n.known_peers();
    assert_eq!(peers[0].0, PEER);
    assert_eq!(
        peers[0].1,
        vec![
            "/ip4/1.1.1.1/tcp/1".to_string(),
            "/ip4/2.2.2.2/tcp/2".to_string(),
            "/ip4/3.3.3.3/tcp/3".to_string(),
        ]
    );

    n.record_peer_address("12D3KooWQYV9dGMFoRzNStwpXztXaBUjtPqi6aU76ZgUriHhKust", "/ip4/4.4.4.4/tcp/4");
    assert_eq!(n.known_peers_count(), 2);

    n.set_local_peer_id(PEER.to_string());
    assert_eq!(n.local_peer_id().as_deref(), Some(PEER));
}
