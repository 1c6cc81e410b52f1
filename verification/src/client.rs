use crate::addr::split_trailing_peer;
use crate::ids::{fresh_message_id, is_valid_multiaddr, is_valid_peer_id, now_timestamp, trim_ws};
use crate::model::{
    admit_step, checking_msg, closed_msg, connected_msg, dedup_ids, empty_result_msg, found_msg,
    invalid_id_msg, lemma_admit_step_wf, lemma_drop_head_wf, lemma_remove_pending_wf,
    not_found_msg, pending_has_handle, pending_has_peer, remove_id, spec_add_friend, spec_admit,
    spec_engine_event, spec_enqueue, spec_enqueue_all, spec_handle_command, spec_init,
    spec_resolve, spec_startup, status_action, status_of_outcome, timeout_msg, waiting_msg,
    ClientV, MAX_CONCURRENT_FRIEND_QUERIES,
};
use crate::strutil::{clone_string_vec, contains_id, index_of_str, str_eq, u64_to_dec,
    vec_contains_str};
use crate::types::{
    acts_view, Action, ActionV, ChatMessage, EngineEvent, EventV, LookupOutcome, NetworkCommand,
    NetworkEvent, PeerStatus,
};
use vstd::prelude::*;

verus! {

/// The orchestration core: the command/event bridge and the friend presence
/// scheduler, as one state machine over plain values. The driver performs
/// the returned `Action`s and feeds engine occurrences back in.
pub struct P2PClient {
    enable_chat: bool,
    local_peer_id: Option<String>,
    friend_ids: Vec<String>,
    friend_queue: Vec<String>,
    pending_friend_queries: Vec<(u64, String)>,
    next_query_handle: u64,
    connected_peers: Vec<String>,
}

impl View for P2PClient {
    type V = ClientV;

    closed spec fn view(&self) -> ClientV {
        ClientV {
            enable_chat: self.enable_chat,
            local_peer_id: match self.local_peer_id {
                Some(ref s) => Some(s@),
                None => None,
            },
            friends: self.friend_ids.deep_view(),
            queue: self.friend_queue.deep_view(),
            pending: self.pending_friend_queries.deep_view(),
            next_handle: self.next_query_handle,
            connected: self.connected_peers.deep_view(),
        }
    }
}

/// Whether a lookup for `x` is outstanding.
fn pending_contains_peer(v: &Vec<(u64, String)>, x: &str) -> (r: bool)
    ensures
        r == pending_has_peer(v.deep_view(), x@),
{
    let mut i: usize = 0;
    while i < v.len()
        invariant
            i <= v@.len(),
            v.deep_view().len() == v@.len(),
            forall|k: int| 0 <= k < v@.len() ==> #[trigger] v.deep_view()[k] == (
                v@[k].0,
                v@[k].1@,
            ),
            forall|k: int| 0 <= k < i ==> v@[k].1@ != x@,
        decreases v@.len() - i,
    {
        if str_eq(v[i].1.as_str(), x) {
            proof {
                assert(v.deep_view()[i as int].1 == x@);
            }
            return true;
        }
        i = i + 1;
    }
    false
}

/// Finds the outstanding lookup under handle `h`.
fn pending_index_of_handle(v: &Vec<(u64, String)>, h: u64) -> (r: Option<usize>)
    ensures
        match r {
            Some(i) => i < v.deep_view().len() && v.deep_view()[i as int].0 == h,
            None => !pending_has_handle(v.deep_view(), h),
        },
{
    let mut i: usize = 0;
    while i < v.len()
        invariant
            i <= v@.len(),
            v.deep_view().len() == v@.len(),
            forall|k: int| 0 <= k < v@.len() ==> #[trigger] v.deep_view()[k] == (
                v@[k].0,
                v@[k].1@,
            ),
            forall|k: int| 0 <= k < i ==> v@[k].0 != h,
        decreases v@.len() - i,
    {
        if v[i].0 == h {
            return Some(i);
        }
        i = i + 1;
    }
    None
}

/// The events a publish attempt yields: on success the sender sees their own
/// message exactly once; on failure nothing is emitted.
pub fn publish_outcome(msg: ChatMessage, ok: bool) -> (events: Vec<NetworkEvent>)
    ensures
        ok ==> events@.len() == 1 && events@[0]@ == (EventV::MessageReceived { msg: msg@ }),
        !ok ==> events@.len() == 0,
{
    let mut events: Vec<NetworkEvent> = Vec::new();
    if ok {
        events.push(NetworkEvent::MessageReceived(msg));
    }
    events
}

fn checking_message() -> (r: String)
    ensures
        r@ == checking_msg(),
{
    "checking via bootstrap node...".to_owned()
}

fn waiting_message() -> (r: String)
    ensures
        r@ == waiting_msg(),
{
    "waiting for status check via bootstrap...".to_owned()
}

fn invalid_id_message() -> (r: String)
    ensures
        r@ == invalid_id_msg(),
{
    "invalid peer id".to_owned()
}

fn connected_message() -> (r: String)
    ensures
        r@ == connected_msg(),
{
    "connected directly".to_owned()
}

fn closed_message() -> (r: String)
    ensures
        r@ == closed_msg(),
{
    "connection closed".to_owned()
}

fn found_message(n: usize) -> (r: String)
    ensures
        r@ == found_msg(n as nat),
{
    let mut s = "found in routing table (".to_owned();
    s.append(u64_to_dec(n as u64).as_str());
    s.append(" closest peers)");
    proof {
        assert(s@ =~= found_msg(n as nat));
    }
    s
}

fn not_found_message(n: usize) -> (r: String)
    ensures
        r@ == not_found_msg(n as nat),
{
    let mut s = "not found, but ".to_owned();
    s.append(u64_to_dec(n as u64).as_str());
    s.append(" closest peers returned");
    proof {
        assert(s@ =~= not_found_msg(n as nat));
    }
    s
}

fn empty_result_message() -> (r: String)
    ensures
        r@ == empty_result_msg(),
{
    "not found in routing table".to_owned()
}

fn timeout_message(n: usize) -> (r: String)
    ensures
        r@ == timeout_msg(n as nat),
{
    let mut s = "query timed out (".to_owned();
    s.append(u64_to_dec(n as u64).as_str());
    s.append(" closest peers known so far)");
    proof {
        assert(s@ =~= timeout_msg(n as nat));
    }
    s
}

/// Builds the status report a completed lookup yields for `peer`.
fn status_for_outcome(peer: &str, outcome: &LookupOutcome, now: i64) -> (st: PeerStatus)
    ensures
        st@ == status_of_outcome(peer@, outcome@, now),
{
    match outcome {
        LookupOutcome::Finished { peers } => {
            let found = vec_contains_str(peers, peer);
            let message = if found {
                found_message(peers.len())
            } else if peers.len() == 0 {
                empty_result_message()
            } else {
                not_found_message(peers.len())
            };
            PeerStatus { peer_id: peer.to_owned(), online: found, message, checked_at: now }
        },
        LookupOutcome::TimedOut { peers } => {
            PeerStatus {
                peer_id: peer.to_owned(),
                online: false,
                message: timeout_message(peers.len()),
                checked_at: now,
            }
        },
    }
}

impl P2PClient {
    /// Sets up the core around the friend identifiers loaded by the caller:
    /// duplicates are dropped, every friend is queued for a check, and no
    /// lookup is outstanding.
    pub fn new(enable_chat: bool, friends: Vec<String>) -> (c: P2PClient)
        ensures
            c@ == spec_init(friends.deep_view(), enable_chat),
            c@.wf(),
    {
        let ghost all = friends.deep_view();
        let mut f: Vec<String> = Vec::new();
        let mut i: usize = 0;
        proof {
            assert(f.deep_view() =~= Seq::<Seq<char>>::empty());
            assert(all.skip(0) =~= all);
        }
        while i < friends.len()
            invariant
                i <= friends@.len(),
                all == friends.deep_view(),
                all.len() == friends@.len(),
                forall|k: int| 0 <= k < friends@.len() ==> all[k] == friends@[k]@,
                dedup_ids(f.deep_view(), all.skip(i as int)) == dedup_ids(Seq::empty(), all),
                crate::strutil::distinct_ids(f.deep_view()),
            decreases friends@.len() - i,
        {
            let ghost pre = f.deep_view();
            if !vec_contains_str(&f, friends[i].as_str()) {
                f.push(friends[i].clone());
                proof {
                    assert(f.deep_view() =~= pre.push(all[i as int]));
                }
            }
            proof {
                assert(all.skip(i as int).drop_first() =~= all.skip(i as int + 1));
                assert(all.skip(i as int)[0] == all[i as int]);
            }
            i = i + 1;
        }
        proof {
            assert(all.skip(all.len() as int) =~= Seq::<Seq<char>>::empty());
            assert(Seq::<Seq<char>>::empty() =~= seq![]);
            assert(f.deep_view() == dedup_ids(seq![], all));
        }
        let q = clone_string_vec(&f);
        let c = P2PClient {
            enable_chat,
            local_peer_id: None,
            friend_ids: f,
            friend_queue: q,
            pending_friend_queries: Vec::new(),
            next_query_handle: 0,
            connected_peers: Vec::new(),
        };
        proof {
            assert(c@ =~= spec_init(friends.deep_view(), enable_chat));
        }
        c
    }

    /// Records the local identity once the driver knows it.
    pub fn set_local_peer_id(&mut self, id: String)
        ensures
            final(self)@ == (ClientV { local_peer_id: Some(id@), ..old(self)@ }),
    {
        self.local_peer_id = Some(id);
        proof {
            assert(self@ =~= (ClientV { local_peer_id: Some(id@), ..old(self)@ }));
        }
    }

    /// Queues a reachability check unless one is already queued or running.
    pub fn enqueue_friend_check(&mut self, peer_id: &str)
        requires
            old(self)@.wf(),
        ensures
            final(self)@.wf(),
            final(self)@ == spec_enqueue(old(self)@, peer_id@),
    {
        if pending_contains_peer(&self.pending_friend_queries, peer_id) {
            return;
        }
        if vec_contains_str(&self.friend_queue, peer_id) {
            return;
        }
        let ghost pre = self@;
        self.friend_queue.push(peer_id.to_owned());
        proof {
            assert(self@.queue =~= pre.queue.push(peer_id@));
            assert(self@ =~= spec_enqueue(pre, peer_id@));
            assert forall|i: int, j: int| 0 <= i < j < self@.queue.len() implies self@.queue[i]
                != self@.queue[j] by {
                if j < pre.queue.len() {
                    assert(pre.queue[i] != pre.queue[j]);
                }
            }
            assert forall|i: int, j: int|
                0 <= i < self@.queue.len() && 0 <= j < self@.pending.len() implies self@.queue[i]
                != self@.pending[j].1 by {
                if i < pre.queue.len() {
                    assert(pre.queue[i] != pre.pending[j].1);
                }
            }
        }
    }

    /// Starts lookups for queued peers while a slot is free: the concurrency
    /// bound is never exceeded, and invalid identifiers are dropped without
    /// consuming a slot.
    pub fn try_start_next_friend_queries(&mut self) -> (acts: Vec<Action>)
        requires
            old(self)@.wf(),
        ensures
            final(self)@.wf(),
            final(self)@ == spec_admit(old(self)@).0,
            acts_view(acts@) == spec_admit(old(self)@).1,
    {
        let ghost orig = old(self)@;
        let mut acts: Vec<Action> = Vec::new();
        proof {
            assert(acts_view(acts@) + spec_admit(orig).1 =~= spec_admit(orig).1);
        }
        loop
            invariant
                orig == old(self)@,
                self@.wf(),
                spec_admit(self@).0 == spec_admit(orig).0,
                acts_view(acts@) + spec_admit(self@).1 == spec_admit(orig).1,
            decreases self@.queue.len(),
        {
            if self.pending_friend_queries.len() >= MAX_CONCURRENT_FRIEND_QUERIES
                || self.friend_queue.len() == 0 {
                proof {
                    assert(spec_admit(self@).0 =~= self@);
                    assert(acts_view(acts@) =~= spec_admit(orig).1);
                }
                return acts;
            }
            let head_valid = is_valid_peer_id(self.friend_queue[0].as_str());
            if !head_valid {
                let ghost pre = self@;
                let _dropped = self.friend_queue.remove(0);
                proof {
                    assert(self@.queue =~= pre.queue.drop_first());
                    assert(self@ =~= (ClientV { queue: pre.queue.drop_first(), ..pre }));
                    lemma_drop_head_wf(pre);
                }
            } else if self.next_query_handle == u64::MAX {
                proof {
                    assert(spec_admit(self@) == (self@, Seq::<ActionV>::empty()));
                    assert(acts_view(acts@) =~= spec_admit(orig).1);
                }
                return acts;
            } else {
                let ghost pre = self@;
                let p = self.friend_queue.remove(0);
                let h = self.next_query_handle;
                self.next_query_handle = h + 1;
                self.pending_friend_queries.push((h, p.clone()));
                let ghost before_push = acts@;
                acts.push(Action::StartLookup { handle: h, peer_id: p });
                proof {
                    assert(self@.queue =~= pre.queue.drop_first());
                    assert(self@.pending =~= pre.pending.push((h, pre.queue[0])));
                    assert(self@ =~= admit_step(pre));
                    lemma_admit_step_wf(pre);
                    let a = ActionV::StartLookup { handle: h, peer_id: pre.queue[0] };
                    assert(acts_view(acts@) =~= acts_view(before_push).push(a));
                    assert(spec_admit(pre).1 =~= seq![a] + spec_admit(self@).1);
                    assert(acts_view(before_push).push(a) + spec_admit(self@).1 =~= acts_view(
                        before_push,
                    ) + (seq![a] + spec_admit(self@).1));
                }
            }
        }
    }

    /// Adding a friend: trims the input and ignores an empty result, then
    /// validates the identifier's syntax. A valid one is recorded (and
    /// persisted when new), reported as being checked, and queued for
    /// lookup; an invalid one is only reported rejected.
    pub fn handle_add_friend(&mut self, peer_id: &str, now: i64) -> (acts: Vec<Action>)
        requires
            old(self)@.wf(),
        ensures
            final(self)@.wf(),
            final(self)@ == spec_add_friend(old(self)@, peer_id@, now).0,
            acts_view(acts@) == spec_add_friend(old(self)@, peer_id@, now).1,
    {
        let ghost s0 = self@;
        let p = trim_ws(peer_id);
        let mut acts: Vec<Action> = Vec::new();
        if p.as_str().is_empty() {
            proof {
                assert(acts_view(acts@) =~= spec_add_friend(s0, peer_id@, now).1);
            }
            return acts;
        }
        if is_valid_peer_id(p.as_str()) {
            let was_new = !vec_contains_str(&self.friend_ids, p.as_str());
            if was_new {
                let ghost pre = self@;
                self.friend_ids.push(p.clone());
                acts.push(Action::PersistFriends(clone_string_vec(&self.friend_ids)));
                proof {
                    assert(self@.friends =~= pre.friends.push(p@));
                    assert(self@ =~= (ClientV { friends: pre.friends.push(p@), ..pre }));
                    assert forall|i: int, j: int|
                        0 <= i < j < self@.friends.len() implies self@.friends[i]
                        != self@.friends[j] by {
                        if j < pre.friends.len() {
                            assert(pre.friends[i] != pre.friends[j]);
                        }
                    }
                }
            }
            let ghost s1 = self@;
            acts.push(
                Action::Emit(
                    NetworkEvent::FriendStatus(
                        PeerStatus {
                            peer_id: p.clone(),
                            online: false,
                            message: checking_message(),
                            checked_at: now,
                        },
                    ),
                ),
            );
            self.enqueue_friend_check(p.as_str());
            let ghost before = acts@;
            let mut more = self.try_start_next_friend_queries();
            acts.append(&mut more);
            proof {
                assert(acts_view(acts@) =~= acts_view(before) + spec_admit(
                    spec_enqueue(s1, p@),
                ).1);
                assert(acts_view(acts@) =~= spec_add_friend(s0, peer_id@, now).1);
            }
        } else {
            acts.push(
                Action::Emit(
                    NetworkEvent::FriendStatus(
                        PeerStatus {
                            peer_id: p.clone(),
                            online: false,
                            message: invalid_id_message(),
                            checked_at: now,
                        },
                    ),
                ),
            );
            proof {
                assert(acts_view(acts@) =~= spec_add_friend(s0, peer_id@, now).1);
            }
        }
        acts
    }

    /// Translates one normalized engine occurrence: decoded payloads are
    /// forwarded, connections update the registry and friend statuses,
    /// advertised addresses become routing hints, and completed lookups are
    /// resolved, backfilling the freed slot.
    pub fn handle_engine_event_at(&mut self, evt: EngineEvent, now: i64) -> (acts: Vec<Action>)
        requires
            old(self)@.wf(),
        ensures
            final(self)@.wf(),
            final(self)@ == spec_engine_event(old(self)@, evt@, now).0,
            acts_view(acts@) == spec_engine_event(old(self)@, evt@, now).1,
    {
        let ghost s0 = self@;
        let ghost ev = evt@;
        let mut acts: Vec<Action> = Vec::new();
        match evt {
            EngineEvent::InboundMessage(msg) => {
                acts.push(Action::Emit(NetworkEvent::MessageReceived(msg)));
                proof {
                    assert(acts_view(acts@) =~= spec_engine_event(s0, ev, now).1);
                }
            },
            EngineEvent::ConnectionEstablished { peer_id } => {
                let is_friend = vec_contains_str(&self.friend_ids, peer_id.as_str());
                if !vec_contains_str(&self.connected_peers, peer_id.as_str()) {
                    let ghost pre = self@;
                    self.connected_peers.push(peer_id.clone());
                    proof {
                        assert(self@.connected =~= pre.connected.push(peer_id@));
                        assert(self@ =~= (ClientV {
                            connected: pre.connected.push(peer_id@),
                            ..pre
                        }));
                        assert forall|i: int, j: int|
                            0 <= i < j < self@.connected.len() implies self@.connected[i]
                            != self@.connected[j] by {
                            if j < pre.connected.len() {
                                assert(pre.connected[i] != pre.connected[j]);
                            }
                        }
                    }
                }
                acts.push(Action::Emit(NetworkEvent::PeerConnected(peer_id.clone())));
                if is_friend {
                    acts.push(
                        Action::Emit(
                            NetworkEvent::FriendStatus(
                                PeerStatus {
                                    peer_id,
                                    online: true,
                                    message: connected_message(),
                                    checked_at: now,
                                },
                            ),
                        ),
                    );
                }
                proof {
                    assert(acts_view(acts@) =~= spec_engine_event(s0, ev, now).1);
                    assert(self@ =~= spec_engine_event(s0, ev, now).0);
                }
            },
            EngineEvent::ConnectionClosed { peer_id } => {
                let is_friend = vec_contains_str(&self.friend_ids, peer_id.as_str());
                match index_of_str(&self.connected_peers, peer_id.as_str()) {
                    Some(i) => {
                        let ghost pre = self@;
                        let _gone = self.connected_peers.remove(i);
                        proof {
                            assert(self@.connected =~= pre.connected.remove(i as int));
                            let ci = choose|c: int|
                                0 <= c < pre.connected.len() && pre.connected[c] == peer_id@;
                            assert(pre.connected[i as int] == peer_id@);
                            assert(contains_id(pre.connected, peer_id@));
                            if ci < i as int {
                                assert(pre.connected[ci] != pre.connected[i as int]);
                            }
                            if ci > i as int {
                                assert(pre.connected[i as int] != pre.connected[ci]);
                            }
                            assert(ci == i as int);
                            assert(self@ =~= (ClientV {
                                connected: remove_id(pre.connected, peer_id@),
                                ..pre
                            }));
                            assert forall|a: int, b: int|
                                0 <= a < b < self@.connected.len() implies self@.connected[a]
                                != self@.connected[b] by {
                                let a0 = if a < i as int { a } else { a + 1 };
                                let b0 = if b < i as int { b } else { b + 1 };
                                assert(pre.connected[a0] != pre.connected[b0]);
                            }
                        }
                    },
                    None => {
                        proof {
                            assert(self@ =~= (ClientV {
                                connected: remove_id(s0.connected, peer_id@),
                                ..s0
                            }));
                        }
                    },
                }
                acts.push(Action::Emit(NetworkEvent::PeerDisconnected(peer_id.clone())));
                if is_friend {
                    acts.push(
                        Action::Emit(
                            NetworkEvent::FriendStatus(
                                PeerStatus {
                                    peer_id,
                                    online: false,
                                    message: closed_message(),
                                    checked_at: now,
                                },
                            ),
                        ),
                    );
                }
                proof {
                    assert(acts_view(acts@) =~= spec_engine_event(s0, ev, now).1);
                }
            },
            EngineEvent::IdentifyReceived { peer_id, listen_addrs } => {
                let ghost addrs = listen_addrs.deep_view();
                let ghost pid = peer_id@;
                let mut k: usize = 0;
                while k < listen_addrs.len()
                    invariant
                        self@ == s0,
                        pid == peer_id@,
                        addrs == listen_addrs.deep_view(),
                        addrs.len() == listen_addrs@.len(),
                        forall|t: int|
                            0 <= t < addrs.len() ==> addrs[t] == #[trigger] listen_addrs@[t]@,
                        k <= addrs.len(),
                        acts@.len() == k,
                        forall|t: int|
                            0 <= t < k ==> #[trigger] acts@[t]@ == (ActionV::AddRoutingHint {
                                peer_id: pid,
                                address: addrs[t],
                            }),
                    decreases addrs.len() - k,
                {
                    acts.push(
                        Action::AddRoutingHint {
                            peer_id: peer_id.clone(),
                            address: listen_addrs[k].clone(),
                        },
                    );
                    k = k + 1;
                }
                proof {
                    assert(acts_view(acts@) =~= addrs.map_values(
                        |a: Seq<char>| ActionV::AddRoutingHint { peer_id: pid, address: a },
                    ));
                }
            },
            EngineEvent::LookupCompleted { handle, outcome } => {
                match pending_index_of_handle(&self.pending_friend_queries, handle) {
                    None => {
                        proof {
                            assert(acts_view(acts@) =~= spec_engine_event(s0, ev, now).1);
                        }
                    },
                    Some(i) => {
                        let ghost pre = self@;
                        let entry = self.pending_friend_queries.remove(i);
                        proof {
                            assert(self@.pending =~= pre.pending.remove(i as int));
                            assert(self@ =~= (ClientV {
                                pending: pre.pending.remove(i as int),
                                ..pre
                            }));
                            assert(pre.pending[i as int].0 == handle);
                            assert(pending_has_handle(pre.pending, handle));
                            let ci = choose|c: int|
                                0 <= c < pre.pending.len() && pre.pending[c].0 == handle;
                            if ci < i as int {
                                assert(pre.pending[ci].0 != pre.pending[i as int].0);
                            }
                            if ci > i as int {
                                assert(pre.pending[i as int].0 != pre.pending[ci].0);
                            }
                            assert(ci == i as int);
                            assert(entry.1@ == pre.pending[i as int].1);
                            lemma_remove_pending_wf(pre, i as int);
                        }
                        let ghost mid = self@;
                        let st = status_for_outcome(entry.1.as_str(), &outcome, now);
                        acts.push(Action::Emit(NetworkEvent::FriendStatus(st)));
                        let ghost before = acts@;
                        let mut more = self.try_start_next_friend_queries();
                        acts.append(&mut more);
                        proof {
                            assert(acts_view(before) =~= seq![
                                ActionV::Emit {
                                    event: EventV::FriendStatus {
                                        status: status_of_outcome(entry.1@, outcome@, now),
                                    },
                                },
                            ]);
                            assert(acts_view(acts@) =~= acts_view(before) + spec_admit(mid).1);
                            assert(acts_view(acts@) =~= spec_resolve(pre, handle, outcome@, now).1);
                            assert(self@ == spec_resolve(pre, handle, outcome@, now).0);
                        }
                    },
                }
            },
        }
        acts
    }

    /// Dispatches one UI command: messages are stamped and published, manual
    /// connections are parsed and dialed, friends are added; the reserved
    /// sync request does nothing.
    pub fn handle_command_at(&mut self, cmd: NetworkCommand, now: i64, msg_id: String) -> (acts:
        Vec<Action>)
        requires
            old(self)@.wf(),
        ensures
            final(self)@.wf(),
            final(self)@ == spec_handle_command(old(self)@, cmd@, now, msg_id@).0,
            acts_view(acts@) == spec_handle_command(old(self)@, cmd@, now, msg_id@).1,
    {
        let ghost s0 = self@;
        let ghost cv = cmd@;
        let ghost mid = msg_id@;
        let mut acts: Vec<Action> = Vec::new();
        match cmd {
            NetworkCommand::SendMessage(content) => {
                if self.enable_chat {
                    match &self.local_peer_id {
                        Some(sender) => {
                            let msg = ChatMessage {
                                id: msg_id,
                                sender: sender.clone(),
                                content,
                                timestamp: now,
                            };
                            acts.push(Action::Publish(msg));
                        },
                        None => {},
                    }
                }
                proof {
                    assert(acts_view(acts@) =~= spec_handle_command(s0, cv, now, mid).1);
                }
            },
            NetworkCommand::SyncRequest { to_peer, last_timestamp } => {
                proof {
                    assert(acts_view(acts@) =~= spec_handle_command(s0, cv, now, mid).1);
                }
            },
            NetworkCommand::ConnectToPeer { address } => {
                if is_valid_multiaddr(address.as_str()) {
                    match split_trailing_peer(address.as_str()) {
                        Some(pair) => {
                            acts.push(
                                Action::AddRoutingHint {
                                    peer_id: pair.1,
                                    address: address.clone(),
                                },
                            );
                        },
                        None => {},
                    }
                    acts.push(Action::Dial { address });
                }
                proof {
                    assert(acts_view(acts@) =~= spec_handle_command(s0, cv, now, mid).1);
                }
            },
            NetworkCommand::AddFriend { peer_id } => {
                let r = self.handle_add_friend(peer_id.as_str(), now);
                return r;
            },
        }
        acts
    }

    /// Startup: report every known friend as awaiting a check, queue them
    /// all, and start as many lookups as the concurrency bound allows.
    pub fn startup_actions(&mut self, now: i64) -> (acts: Vec<Action>)
        requires
            old(self)@.wf(),
        ensures
            final(self)@.wf(),
            final(self)@ == spec_startup(old(self)@, now).0,
            acts_view(acts@) == spec_startup(old(self)@, now).1,
    {
        let ghost s0 = self@;
        let ghost fr = s0.friends;
        let mut acts: Vec<Action> = Vec::new();
        let ids = clone_string_vec(&self.friend_ids);
        let mut i: usize = 0;
        while i < ids.len()
            invariant
                self@ == s0,
                fr == s0.friends,
                ids.deep_view() == fr,
                ids@.len() == fr.len(),
                forall|t: int| 0 <= t < fr.len() ==> #[trigger] ids@[t]@ == fr[t],
                i <= fr.len(),
                acts@.len() == i,
                forall|t: int|
                    0 <= t < i ==> #[trigger] acts@[t]@ == status_action(
                        fr[t],
                        false,
                        waiting_msg(),
                        now,
                    ),
            decreases fr.len() - i,
        {
            acts.push(
                Action::Emit(
                    NetworkEvent::FriendStatus(
                        PeerStatus {
                            peer_id: ids[i].clone(),
                            online: false,
                            message: waiting_message(),
                            checked_at: now,
                        },
                    ),
                ),
            );
            i = i + 1;
        }
        proof {
            assert(acts_view(acts@) =~= fr.map_values(
                |p: Seq<char>| status_action(p, false, waiting_msg(), now),
            ));
            assert(fr.skip(0) =~= fr);
        }
        let mut k: usize = 0;
        while k < ids.len()
            invariant
                s0 == old(self)@,
                fr == s0.friends,
                ids.deep_view() == fr,
                ids@.len() == fr.len(),
                forall|t: int| 0 <= t < fr.len() ==> #[trigger] ids@[t]@ == fr[t],
                k <= fr.len(),
                self@.wf(),
                spec_enqueue_all(self@, fr.skip(k as int)) == spec_enqueue_all(s0, fr),
            decreases fr.len() - k,
        {
            let ghost pre = self@;
            self.enqueue_friend_check(ids[k].as_str());
            proof {
                assert(fr.skip(k as int).drop_first() =~= fr.skip(k as int + 1));
                assert(fr.skip(k as int)[0] == fr[k as int]);
            }
            k = k + 1;
        }
        proof {
            assert(fr.skip(fr.len() as int) =~= Seq::<Seq<char>>::empty());
            assert(self@ == spec_enqueue_all(s0, fr));
        }
        let ghost before = acts@;
        let mut more = self.try_start_next_friend_queries();
        acts.append(&mut more);
        proof {
            assert(acts_view(acts@) =~= acts_view(before) + spec_admit(
                spec_enqueue_all(s0, fr),
            ).1);
            assert(acts_view(acts@) =~= spec_startup(s0, now).1);
        }
        acts
    }

    /// Dispatches one UI command, stamping it with the current time and a
    /// fresh message identifier.
    pub fn handle_command(&mut self, cmd: NetworkCommand) -> (acts: Vec<Action>)
        requires
            old(self)@.wf(),
        ensures
            final(self)@.wf(),
            exists|now: i64, msg_id: Seq<char>|
                {
                    &&& msg_id.len() == 36
                    &&& final(self)@ == spec_handle_command(old(self)@, cmd@, now, msg_id).0
                    &&& acts_view(acts@) == spec_handle_command(old(self)@, cmd@, now, msg_id).1
                },
    {
        let now = now_timestamp();
        let msg_id = fresh_message_id();
        let ghost mid = msg_id@;
        let acts = self.handle_command_at(cmd, now, msg_id);
        proof {
            assert({
                &&& mid.len() == 36
                &&& self@ == spec_handle_command(old(self)@, cmd@, now, mid).0
                &&& acts_view(acts@) == spec_handle_command(old(self)@, cmd@, now, mid).1
            });
        }
        acts
    }

    /// Translates one normalized engine occurrence, stamped with the current
    /// time.
    pub fn handle_engine_event(&mut self, evt: EngineEvent) -> (acts: Vec<Action>)
        requires
            old(self)@.wf(),
        ensures
            final(self)@.wf(),
            exists|now: i64|
                {
                    &&& final(self)@ == spec_engine_event(old(self)@, evt@, now).0
                    &&& acts_view(acts@) == spec_engine_event(old(self)@, evt@, now).1
                },
    {
        let now = now_timestamp();
        self.handle_engine_event_at(evt, now)
    }

    /// How many lookups are outstanding.
    pub fn pending_lookup_count(&self) -> (n: usize)
        ensures
            n == self@.pending.len(),
    {
        self.pending_friend_queries.len()
    }

    /// How many checks are queued.
    pub fn queued_check_count(&self) -> (n: usize)
        ensures
            n == self@.queue.len(),
    {
        self.friend_queue.len()
    }

    /// The currently connected peers.
    pub fn connected_peers(&self) -> (r: &Vec<String>)
        ensures
            r.deep_view() == self@.connected,
    {
        &self.connected_peers
    }

    /// The friend identifiers.
    pub fn friend_ids(&self) -> (r: &Vec<String>)
        ensures
            r.deep_view() == self@.friends,
    {
        &self.friend_ids
    }

    /// The local peer identity, once known.
    pub fn local_peer_id(&self) -> (r: &Option<String>)
        ensures
            match r {
                Some(s) => self@.local_peer_id == Some(s@),
                None => self@.local_peer_id is None,
            },
    {
        &self.local_peer_id
    }
}

} // verus!
