use p2p_chat::types::{ChatMessage, PeerStatus};
use p2p_chat::ui_state::{AppState, SidebarActions};

const PEER: &str = "QmcgpsyWgH8Y8ajJz1Cu72KnS5uo2Aa2LpzU7kinSupNKC";

fn msg(id: &str, sender: &str, content: &str, timestamp: i64) -> ChatMessage {
    ChatMessage {
        id: id.to_string(),
        sender: sender.to_string(),
        content: content.to_string(),
        timestamp,
    }
}

#[test]
fn sidebar_actions_default_to_nothing() {
    let a = SidebarActions::default();
    assert!(a.connect_address.is_none());
    assert!(a.friend_peer_id.is_none());
}

#[test]
fn push_message_records_it_with_a_debug_event() {
    let mut s = AppState::new();
    s.push_message(msg("1", PEER, "hello", 5), 0);
    assert_eq!(s.messages.len(), 1);
    assert_eq!(s.messages[0].content, "hello");
    assert_eq!(s.debug_events.len(), 1);
    assert_eq!(s.debug_events[0].event_type, "MESSAGE_RECEIVED");
    assert_eq!(s.debug_events[0].message, "Message from QmcgpsyW: hello");
}

#[test]
fn add_peer_tells_new_from_refreshed() {
    let mut s = AppState::new();
    s.add_peer(PEER.to_string(), 45_296_000);
    assert_eq!(s.peers.len(), 1);
    assert_eq!(s.debug_events[0].event_type, "PEER_CONNECTED");
    assert_eq!(s.debug_events[0].message, "Peer connected at 12:34:56");

    s.add_peer(PEER.to_string(), 45_297_000);
    assert_eq!(s.peers.len(), 1);
    assert_eq!(s.debug_events[1].event_type, "PEER_REFRESHED");
    assert_eq!(s.debug_events[1].message, "Peer refreshed at 12:34:57");
}

#[test]
fn remove_peer_reports_how_long_it_was_online() {
    let mut s = AppState::new();
    s.add_peer(PEER.to_string(), 45_296_000);
    s.remove_peer(PEER, 45_306_000);
    assert_eq!(s.peers.len(), 0);
    assert_eq!(s.debug_events[1].event_type, "PEER_DISCONNECTED");
    assert_eq!(
        s.debug_events[1].message,
        "Peer disconnected at 12:35:06 (Was online for 10.0s)"
    );
}

#[test]
fn removing_an_unknown_peer_changes_nothing() {
    let mut s = AppState::new();
    s.remove_peer(PEER, 1000);
    assert_eq!(s.debug_events.len(), 0);
    assert_eq!(s.peers.len(), 0);
}

#[test]
fn time_since_last_seen() {
    let mut s = AppState::new();
    s.add_peer(PEER.to_string(), 1_000);
    assert_eq!(s.get_time_since_last_seen(PEER, 2_000), None);
    s.remove_peer(PEER, 2_000);
    assert_eq!(s.get_time_since_last_seen(PEER, 11_000), Some(10_000));
    assert_eq!(s.get_time_since_last_seen("unknown", 11_000), None);
}

#[test]
fn friend_status_is_upserted() {
    let mut s = AppState::new();
    s.upsert_friend_status(
        PeerStatus {
            peer_id: PEER.to_string(),
            online: false,
            message: "checking".to_string(),
            checked_at: 1,
        },
        10,
    );
    s.upsert_friend_status(
        PeerStatus {
            peer_id: PEER.to_string(),
            online: true,
            message: "found".to_string(),
            checked_at: 2,
        },
        20,
    );
    let statuses = s.friend_statuses();
    assert_eq!(statuses.len(), 1);
    assert!(statuses[0].online);
    assert_eq!(statuses[0].message, "found");
    assert_eq!(s.debug_events[0].event_type, "FRIEND_OFFLINE");
    assert_eq!(s.debug_events[0].message, "Friend offline: checking");
    assert_eq!(s.debug_events[1].event_type, "FRIEND_ONLINE");
    assert_eq!(s.debug_events[1].message, "Friend online: found");
}

#[test]
fn friend_statuses_come_in_ascending_identifier_order() {
    let mut s = AppState::new();
    for id in ["bravo", "alpha", "delta", "charlie"] {
        s.upsert_friend_status(
            PeerStatus {
                peer_id: id.to_string(),
                online: false,
                message: "checking".to_string(),
                checked_at: 0,
            },
            0,
        );
    }
    let order: Vec<String> = s.friend_statuses().iter().map(|st| st.peer_id.clone()).collect();
    assert_eq!(order, vec!["alpha", "bravo", "charlie", "delta"]);
}

#[test]
fn history_merge_is_stable_for_equal_send_times() {
    let mut s = AppState::new();
    s.push_history(vec![
        msg("a", PEER, "first at ten", 10),
        msg("b", PEER, "second at ten", 10),
        msg("c", PEER, "at five", 5),
        msg("d", PEER, "third at ten", 10),
    ]);
    let contents: Vec<&str> = s.messages.iter().map(|m| m.content.as_str()).collect();
    assert_eq!(contents, vec!["at five", "first at ten", "second at ten", "third at ten"]);
}

#[test]
fn history_is_merged_in_timestamp_order() {
    let mut s = AppState::new();
    s.push_message(msg("a", PEER, "third", 30), 0);
    s.push_history(vec![
        msg("b", PEER, "second", 20),
        msg("c", PEER, "first", 10),
        msg("d", PEER, "fourth", 40),
    ]);
    let contents: Vec<&str> = s.messages.iter().map(|m| m.content.as_str()).collect();
    assert_eq!(contents, vec!["first", "second", "third", "fourth"]);
}

#[test]
fn debug_events_are_capped_at_one_hundred() {
    let mut s = AppState::new();
    for i in 0..105i64 {
        s.add_debug_event(format!("E{}", i), None, format!("event {}", i), i);
    }
    assert_eq!(s.debug_events.len(), 100);
    // The oldest events were dropped.
    assert_eq!(s.debug_events[0].message, "event 5");
    assert_eq!(s.debug_events[99].message, "event 104");
}
