use p2p_chat::client::{publish_outcome, P2PClient};
use p2p_chat::types::{Action, EngineEvent, LookupOutcome, NetworkCommand, NetworkEvent};

fn valid_peer_id(n: u8) -> String {
    // A fresh, syntactically valid peer identifier.
    let kp = libp2p::identity::Keypair::generate_ed25519();
    let _ = n;
    libp2p::PeerId::from(kp.public()).to_base58()
}

fn start_lookups(acts: &[Action]) -> Vec<(u64, String)> {
    let mut out = Vec::new();
    for a in acts {
        if let Action::StartLookup { handle, peer_id } = a {
            out.push((*handle, peer_id.clone()));
        }
    }
    out
}

fn friend_statuses(acts: &[Action]) -> Vec<p2p_chat::types::PeerStatus> {
    let mut out = Vec::new();
    for a in acts {
        if let Action::Emit(NetworkEvent::FriendStatus(st)) = a {
            out.push(st.clone());
        }
    }
    out
}

#[test]
fn add_friend_is_idempotent() {
    let peer = valid_peer_id(1);
    let mut c = P2PClient::new(true, Vec::new());
    let acts1 = c.handle_add_friend(&peer, 100);
    assert_eq!(start_lookups(&acts1).len(), 1);
    assert_eq!(c.pending_lookup_count(), 1);
    assert_eq!(c.friend_ids().len(), 1);

    let acts2 = c.handle_add_friend(&peer, 200);
    assert_eq!(start_lookups(&acts2).len(), 0);
    assert_eq!(c.pending_lookup_count(), 1);
    assert_eq!(c.queued_check_count(), 0);
    assert_eq!(c.friend_ids().len(), 1);
}

#[test]
fn add_friend_trims_whitespace() {
    let peer = valid_peer_id(2);
    let padded = format!("  {}\t", peer);
    let mut c = P2PClient::new(true, Vec::new());
    let acts = c.handle_add_friend(&padded, 5);
    let statuses = friend_statuses(&acts);
    assert_eq!(statuses.len(), 1);
    assert_eq!(statuses[0].peer_id, peer);
    assert_eq!(c.friend_ids()[0], peer);
}

#[test]
fn empty_input_is_ignored() {
    let mut c = P2PClient::new(true, Vec::new());
    let acts = c.handle_add_friend("   ", 5);
    assert!(acts.is_empty());
    assert_eq!(c.friend_ids().len(), 0);
}

#[test]
fn concurrency_never_exceeds_three() {
    let mut c = P2PClient::new(true, Vec::new());
    for i in 0..5u8 {
        let peer = valid_peer_id(i);
        c.handle_add_friend(&peer, i as i64);
        assert!(c.pending_lookup_count() <= 3);
    }
    assert_eq!(c.pending_lookup_count(), 3);
    assert_eq!(c.queued_check_count(), 2);
}

#[test]
fn queue_drains_to_completion() {
    let friends: Vec<String> = (0..5u8).map(valid_peer_id).collect();
    let mut c = P2PClient::new(true, friends.clone());
    let acts = c.startup_actions(0);

    // Five placeholders were emitted, one per friend, and three lookups started.
    assert_eq!(friend_statuses(&acts).len(), 5);
    let mut work = start_lookups(&acts);
    assert_eq!(work.len(), 3);

    let mut resolved = Vec::new();
    while let Some((handle, peer)) = work.pop() {
        let more = c.handle_engine_event_at(
            EngineEvent::LookupCompleted { handle, outcome: LookupOutcome::Finished { peers: vec![] } },
            7,
        );
        resolved.push(peer);
        work.extend(start_lookups(&more));
        let st = friend_statuses(&more);
        assert_eq!(st.len(), 1);
        assert!(c.pending_lookup_count() <= 3);
    }

    assert_eq!(resolved.len(), 5);
    assert_eq!(c.pending_lookup_count(), 0);
    assert_eq!(c.queued_check_count(), 0);
    let mut seen = resolved.clone();
    seen.sort();
    let mut expected = friends.clone();
    expected.sort();
    assert_eq!(seen, expected);
}

#[test]
fn self_message_is_seen_exactly_once() {
    let me = valid_peer_id(9);
    let mut c = P2PClient::new(true, Vec::new());
    c.set_local_peer_id(me.clone());
    let acts = c.handle_command_at(
        NetworkCommand::SendMessage("hello".to_string()),
        42,
        "0f3b0f6e-0000-4000-8000-000000000001".to_string(),
    );
    assert_eq!(acts.len(), 1);
    let msg = match &acts[0] {
        Action::Publish(m) => m.clone(),
        other => panic!("expected a publish action, got {:?}", other),
    };
    assert_eq!(msg.sender, me);
    assert_eq!(msg.content, "hello");
    assert_eq!(msg.timestamp, 42);

    let delivered = publish_outcome(msg.clone(), true);
    assert_eq!(delivered.len(), 1);
    match &delivered[0] {
        NetworkEvent::MessageReceived(m) => {
            assert_eq!(m.sender, me);
            assert_eq!(m.content, "hello");
        }
        other => panic!("expected a message event, got {:?}", other),
    }

    let suppressed = publish_outcome(msg, false);
    assert!(suppressed.is_empty());
}

#[test]
fn sending_stamps_a_fresh_id_and_the_clock() {
    let me = valid_peer_id(8);
    let mut c = P2PClient::new(true, Vec::new());
    c.set_local_peer_id(me.clone());
    let acts = c.handle_command(NetworkCommand::SendMessage("hi".to_string()));
    assert_eq!(acts.len(), 1);
    match &acts[0] {
        Action::Publish(m) => {
            assert_eq!(m.id.chars().count(), 36);
            assert_eq!(m.sender, me);
            assert_eq!(m.content, "hi");
            // A sane wall clock: well after 2020, as epoch seconds.
            assert!(m.timestamp > 1_577_000_000);
        }
        other => panic!("expected a publish action, got {:?}", other),
    }
}

#[test]
fn chat_disabled_sends_nothing() {
    let mut c = P2PClient::new(false, Vec::new());
    c.set_local_peer_id(valid_peer_id(3));
    let acts = c.handle_command_at(
        NetworkCommand::SendMessage("hello".to_string()),
        1,
        "0f3b0f6e-0000-4000-8000-000000000002".to_string(),
    );
    assert!(acts.is_empty());
}

#[test]
fn invalid_peer_id_yields_offline_status_and_no_lookup() {
    let mut c = P2PClient::new(true, Vec::new());
    let acts = c.handle_add_friend("not-a-valid-id", 9);
    // Rejected locally: one offline status, nothing recorded or persisted.
    assert_eq!(acts.len(), 1);
    let statuses = friend_statuses(&acts);
    assert_eq!(statuses.len(), 1);
    assert!(!statuses[0].online);
    assert_eq!(statuses[0].message, "invalid peer id");
    assert_eq!(statuses[0].checked_at, 9);
    assert_eq!(start_lookups(&acts).len(), 0);
    assert_eq!(c.friend_ids().len(), 0);
    assert_eq!(c.pending_lookup_count(), 0);
    assert_eq!(c.queued_check_count(), 0);
}

#[test]
fn lookup_outcomes_are_classified() {
    let target = valid_peer_id(4);
    let other = valid_peer_id(5);

    // Found among the closest peers.
    let mut c = P2PClient::new(true, Vec::new());
    let acts = c.handle_add_friend(&target, 0);
    let (handle, _) = start_lookups(&acts)[0].clone();
    let more = c.handle_engine_event_at(
        EngineEvent::LookupCompleted {
            handle,
            outcome: LookupOutcome::Finished { peers: vec![other.clone(), target.clone()] },
        },
        50,
    );
    let st = friend_statuses(&more);
    assert_eq!(st.len(), 1);
    assert!(st[0].online);
    assert_eq!(st[0].message, "found in routing table (2 closest peers)");
    assert_eq!(st[0].checked_at, 50);

    // Not found although peers were returned.
    let mut c = P2PClient::new(true, Vec::new());
    let acts = c.handle_add_friend(&target, 0);
    let (handle, _) = start_lookups(&acts)[0].clone();
    let more = c.handle_engine_event_at(
        EngineEvent::LookupCompleted {
            handle,
            outcome: LookupOutcome::Finished { peers: vec![other.clone()] },
        },
        51,
    );
    let st = friend_statuses(&more);
    assert!(!st[0].online);
    assert_eq!(st[0].message, "not found, but 1 closest peers returned");

    // Not found in an empty result.
    let mut c = P2PClient::new(true, Vec::new());
    let acts = c.handle_add_friend(&target, 0);
    let (handle, _) = start_lookups(&acts)[0].clone();
    let more = c.handle_engine_event_at(
        EngineEvent::LookupCompleted { handle, outcome: LookupOutcome::Finished { peers: vec![] } },
        52,
    );
    let st = friend_statuses(&more);
    assert!(!st[0].online);
    assert_eq!(st[0].message, "not found in routing table");

    // Timed out.
    let mut c = P2PClient::new(true, Vec::new());
    let acts = c.handle_add_friend(&target, 0);
    let (handle, _) = start_lookups(&acts)[0].clone();
    let more = c.handle_engine_event_at(
        EngineEvent::LookupCompleted { handle, outcome: LookupOutcome::TimedOut { peers: vec![] } },
        53,
    );
    let st = friend_statuses(&more);
    assert!(!st[0].online);
    assert_eq!(st[0].message, "query timed out (0 closest peers known so far)");
}

#[test]
fn unknown_handle_is_ignored() {
    let mut c = P2PClient::new(true, Vec::new());
    let acts = c.handle_engine_event_at(
        EngineEvent::LookupCompleted { handle: 77, outcome: LookupOutcome::Finished { peers: vec![] } },
        1,
    );
    assert!(acts.is_empty());
}

#[test]
fn new_dedups_loaded_friends() {
    let a = valid_peer_id(6);
    let b = valid_peer_id(7);
    let c = P2PClient::new(true, vec![a.clone(), b.clone(), a.clone()]);
    assert_eq!(c.friend_ids().len(), 2);
    assert_eq!(c.queued_check_count(), 2);
}
