use crate::addr::spec_trailing_peer;
use crate::ids::{multiaddr_valid, peer_id_valid, trimmed_of};
use crate::strutil::{contains_id, distinct_ids, spec_dec};
use crate::types::{ActionV, CommandV, EngineEventV, EventV, LookupOutcomeV, MessageV, StatusV};
use vstd::prelude::*;

verus! {

/// The most lookups that may be outstanding at once.
pub const MAX_CONCURRENT_FRIEND_QUERIES: usize = 3;

/// Mathematical state of the orchestration core: the friend set, the FIFO
/// lookup queue, the outstanding lookups keyed by query handle, and the
/// registry of connected peers.
#[verifier::ext_equal]
pub struct ClientV {
    pub enable_chat: bool,
    pub local_peer_id: Option<Seq<char>>,
    pub friends: Seq<Seq<char>>,
    pub queue: Seq<Seq<char>>,
    pub pending: Seq<(u64, Seq<char>)>,
    pub next_handle: u64,
    pub connected: Seq<Seq<char>>,
}

/// How often `x` occurs in a sequence of identifiers.
pub open spec fn count_id(ids: Seq<Seq<char>>, x: Seq<char>) -> int
    decreases ids.len(),
{
    if ids.len() == 0 {
        0
    } else {
        count_id(ids.drop_first(), x) + if ids[0] == x {
            1int
        } else {
            0int
        }
    }
}

/// How often a lookup for `x` is outstanding.
pub open spec fn count_pending(pending: Seq<(u64, Seq<char>)>, x: Seq<char>) -> int
    decreases pending.len(),
{
    if pending.len() == 0 {
        0
    } else {
        count_pending(pending.drop_first(), x) + if pending[0].1 == x {
            1int
        } else {
            0int
        }
    }
}

/// A lookup for `x` is outstanding.
pub open spec fn pending_has_peer(pending: Seq<(u64, Seq<char>)>, x: Seq<char>) -> bool {
    exists|i: int| 0 <= i < pending.len() && pending[i].1 == x
}

/// A lookup is outstanding under handle `h`.
pub open spec fn pending_has_handle(pending: Seq<(u64, Seq<char>)>, h: u64) -> bool {
    exists|i: int| 0 <= i < pending.len() && pending[i].0 == h
}

impl ClientV {
    /// Well-formedness: the friend set holds no duplicates; no peer is queued
    /// twice, looked up twice, or both queued and looked up; query handles are
    /// unique and below the counter; and no more than
    /// `MAX_CONCURRENT_FRIEND_QUERIES` lookups are outstanding.
    pub open spec fn wf(self) -> bool {
        &&& distinct_ids(self.friends)
        &&& distinct_ids(self.queue)
        &&& (forall|i: int, j: int|
            0 <= i < j < self.pending.len() ==> self.pending[i].0 != self.pending[j].0)
        &&& (forall|i: int, j: int|
            0 <= i < j < self.pending.len() ==> self.pending[i].1 != self.pending[j].1)
        &&& (forall|i: int, j: int|
            0 <= i < self.queue.len() && 0 <= j < self.pending.len() ==> self.queue[i]
                != self.pending[j].1)
        &&& self.pending.len() <= MAX_CONCURRENT_FRIEND_QUERIES
        &&& (forall|i: int| 0 <= i < self.pending.len() ==> self.pending[i].0 < self.next_handle)
        &&& distinct_ids(self.connected)
    }
}

// ---------------------------------------------------------------------------
// Status texts.
// ---------------------------------------------------------------------------
/// Status text emitted when a friend's check is first requested.
pub open spec fn checking_msg() -> Seq<char> {
    "checking via bootstrap node..."@
}

/// Status text emitted for every known friend at startup.
pub open spec fn waiting_msg() -> Seq<char> {
    "waiting for status check via bootstrap..."@
}

/// Status text emitted when an added identifier does not parse.
pub open spec fn invalid_id_msg() -> Seq<char> {
    "invalid peer id"@
}

/// Status text emitted when a friend connects directly.
pub open spec fn connected_msg() -> Seq<char> {
    "connected directly"@
}

/// Status text emitted when a friend's connection closes.
pub open spec fn closed_msg() -> Seq<char> {
    "connection closed"@
}

/// Status text for a peer found in the routing table among `n` peers.
pub open spec fn found_msg(n: nat) -> Seq<char> {
    "found in routing table ("@ + spec_dec(n) + " closest peers)"@
}

/// Status text for a peer not found although `n` peers were returned.
pub open spec fn not_found_msg(n: nat) -> Seq<char> {
    "not found, but "@ + spec_dec(n) + " closest peers returned"@
}

/// Status text for a peer not found in an empty result.
pub open spec fn empty_result_msg() -> Seq<char> {
    "not found in routing table"@
}

/// Status text for a lookup that timed out after seeing `n` peers.
pub open spec fn timeout_msg(n: nat) -> Seq<char> {
    "query timed out ("@ + spec_dec(n) + " closest peers known so far)"@
}

// ---------------------------------------------------------------------------
// Transitions.
// ---------------------------------------------------------------------------
/// A friend-status action for `peer`.
pub open spec fn status_action(peer: Seq<char>, online: bool, message: Seq<char>, now: i64) -> ActionV {
    ActionV::Emit {
        event: EventV::FriendStatus {
            status: StatusV { peer_id: peer, online, message, checked_at: now },
        },
    }
}

/// FIFO admission with idempotence: a peer already queued or already being
/// looked up is not queued again.
pub open spec fn spec_enqueue(s: ClientV, p: Seq<char>) -> ClientV {
    if pending_has_peer(s.pending, p) || contains_id(s.queue, p) {
        s
    } else {
        ClientV { queue: s.queue.push(p), ..s }
    }
}

/// Admission: while a lookup slot is free, pop the queue's head; a valid
/// identifier starts a lookup under a fresh handle, an invalid one is
/// dropped without consuming a slot. Admission stops early only in the
/// unreachable case that the handle counter is exhausted.
pub open spec fn spec_admit(s: ClientV) -> (ClientV, Seq<ActionV>)
    decreases s.queue.len(),
{
    if s.pending.len() >= MAX_CONCURRENT_FRIEND_QUERIES || s.queue.len() == 0 {
        (s, seq![])
    } else {
        let p = s.queue[0];
        let s1 = ClientV { queue: s.queue.drop_first(), ..s };
        if !peer_id_valid(p) {
            spec_admit(s1)
        } else if s.next_handle == u64::MAX {
            (s, seq![])
        } else {
            let h = s.next_handle;
            let s2 = ClientV {
                pending: s1.pending.push((h, p)),
                next_handle: (h + 1) as u64,
                ..s1
            };
            let r = spec_admit(s2);
            (r.0, seq![ActionV::StartLookup { handle: h, peer_id: p }] + r.1)
        }
    }
}

/// Adding a friend: trim the input and ignore an empty result; validate the
/// identifier's syntax. A valid one is recorded (and the list persisted when
/// it is new), reported as being checked, and queued for lookup. An invalid
/// one is rejected locally: only an offline status is reported, and nothing
/// is recorded, persisted or queued.
pub open spec fn spec_add_friend(s: ClientV, raw: Seq<char>, now: i64) -> (ClientV, Seq<ActionV>) {
    let p = trimmed_of(raw);
    if p.len() == 0 {
        (s, seq![])
    } else if peer_id_valid(p) {
        let was_new = !contains_id(s.friends, p);
        let s1 = if was_new {
            ClientV { friends: s.friends.push(p), ..s }
        } else {
            s
        };
        let persist: Seq<ActionV> = if was_new {
            seq![ActionV::PersistFriends { friends: s1.friends }]
        } else {
            seq![]
        };
        let r = spec_admit(spec_enqueue(s1, p));
        (r.0, persist + seq![status_action(p, false, checking_msg(), now)] + r.1)
    } else {
        (s, seq![status_action(p, false, invalid_id_msg(), now)])
    }
}

/// The status a completed lookup yields for the queried peer.
pub open spec fn status_of_outcome(peer: Seq<char>, outcome: LookupOutcomeV, now: i64) -> StatusV {
    match outcome {
        LookupOutcomeV::Finished { peers } => {
            if contains_id(peers, peer) {
                StatusV { peer_id: peer, online: true, message: found_msg(peers.len()), checked_at: now }
            } else if peers.len() == 0 {
                StatusV { peer_id: peer, online: false, message: empty_result_msg(), checked_at: now }
            } else {
                StatusV {
                    peer_id: peer,
                    online: false,
                    message: not_found_msg(peers.len()),
                    checked_at: now,
                }
            }
        },
        LookupOutcomeV::TimedOut { peers } => StatusV {
            peer_id: peer,
            online: false,
            message: timeout_msg(peers.len()),
            checked_at: now,
        },
    }
}

/// Completion of the lookup under handle `h`: drop the outstanding entry,
/// report the outcome for its peer, and backfill the freed slot. A handle
/// that is not outstanding is ignored.
pub open spec fn spec_resolve(s: ClientV, h: u64, outcome: LookupOutcomeV, now: i64) -> (
    ClientV,
    Seq<ActionV>,
) {
    if pending_has_handle(s.pending, h) {
        let i = choose|i: int| 0 <= i < s.pending.len() && s.pending[i].0 == h;
        let peer = s.pending[i].1;
        let s1 = ClientV { pending: s.pending.remove(i), ..s };
        let st = status_of_outcome(peer, outcome, now);
        let r = spec_admit(s1);
        (
            r.0,
            seq![ActionV::Emit { event: EventV::FriendStatus { status: st } }] + r.1,
        )
    } else {
        (s, seq![])
    }
}

/// The registry without `x`: since the registry is duplicate-free, removing
/// the one occurrence, if any, removes them all.
pub open spec fn remove_id(ids: Seq<Seq<char>>, x: Seq<char>) -> Seq<Seq<char>> {
    if contains_id(ids, x) {
        ids.remove(choose|i: int| 0 <= i < ids.len() && ids[i] == x)
    } else {
        ids
    }
}

/// Translation of a normalized engine occurrence: decoded chat payloads are
/// forwarded; connections update the registry and, for friends, yield a
/// status transition; advertised addresses become routing hints; completed
/// lookups resolve.
pub open spec fn spec_engine_event(s: ClientV, evt: EngineEventV, now: i64) -> (
    ClientV,
    Seq<ActionV>,
) {
    match evt {
        EngineEventV::InboundMessage { msg } => (
            s,
            seq![ActionV::Emit { event: EventV::MessageReceived { msg } }],
        ),
        EngineEventV::ConnectionEstablished { peer_id } => {
            let s1 = if contains_id(s.connected, peer_id) {
                s
            } else {
                ClientV { connected: s.connected.push(peer_id), ..s }
            };
            let base = seq![ActionV::Emit { event: EventV::PeerConnected { peer_id } }];
            if contains_id(s.friends, peer_id) {
                (s1, base + seq![status_action(peer_id, true, connected_msg(), now)])
            } else {
                (s1, base)
            }
        },
        EngineEventV::ConnectionClosed { peer_id } => {
            let s1 = ClientV { connected: remove_id(s.connected, peer_id), ..s };
            let base = seq![ActionV::Emit { event: EventV::PeerDisconnected { peer_id } }];
            if contains_id(s.friends, peer_id) {
                (s1, base + seq![status_action(peer_id, false, closed_msg(), now)])
            } else {
                (s1, base)
            }
        },
        EngineEventV::IdentifyReceived { peer_id, listen_addrs } => (
            s,
            listen_addrs.map_values(
                |a: Seq<char>| ActionV::AddRoutingHint { peer_id, address: a },
            ),
        ),
        EngineEventV::LookupCompleted { handle, outcome } => spec_resolve(s, handle, outcome, now),
    }
}

/// Sending a chat message: ignored while chat is disabled or no local
/// identity is known; otherwise the freshly stamped message is published.
pub open spec fn spec_send_message(s: ClientV, content: Seq<char>, now: i64, msg_id: Seq<char>) -> (
    ClientV,
    Seq<ActionV>,
) {
    if !s.enable_chat {
        (s, seq![])
    } else {
        match s.local_peer_id {
            Some(sender) => (
                s,
                seq![
                    ActionV::Publish {
                        msg: MessageV { id: msg_id, sender, content, timestamp: now },
                    },
                ],
            ),
            None => (s, seq![]),
        }
    }
}

/// Connecting to a textual address: an unparsable address is dropped; a
/// trailing peer component becomes a routing hint; the address is dialed.
pub open spec fn spec_connect_to_peer(s: ClientV, address: Seq<char>) -> (ClientV, Seq<ActionV>) {
    if multiaddr_valid(address) {
        let hint: Seq<ActionV> = match spec_trailing_peer(address) {
            Some(id) => seq![ActionV::AddRoutingHint { peer_id: id, address }],
            None => seq![],
        };
        (s, hint + seq![ActionV::Dial { address }])
    } else {
        (s, seq![])
    }
}

/// Dispatch of a UI command.
pub open spec fn spec_handle_command(s: ClientV, cmd: CommandV, now: i64, msg_id: Seq<char>) -> (
    ClientV,
    Seq<ActionV>,
) {
    match cmd {
        CommandV::SendMessage { content } => spec_send_message(s, content, now, msg_id),
        CommandV::SyncRequest { to_peer, last_timestamp } => (s, seq![]),
        CommandV::ConnectToPeer { address } => spec_connect_to_peer(s, address),
        CommandV::AddFriend { peer_id } => spec_add_friend(s, peer_id, now),
    }
}

/// Queueing a check for every identifier in turn.
pub open spec fn spec_enqueue_all(s: ClientV, ids: Seq<Seq<char>>) -> ClientV
    decreases ids.len(),
{
    if ids.len() == 0 {
        s
    } else {
        spec_enqueue_all(spec_enqueue(s, ids[0]), ids.drop_first())
    }
}

/// Startup: report every known friend as awaiting a check, queue them all,
/// and start as many lookups as the bound allows.
pub open spec fn spec_startup(s: ClientV, now: i64) -> (ClientV, Seq<ActionV>) {
    let placeholders = s.friends.map_values(
        |p: Seq<char>| status_action(p, false, waiting_msg(), now),
    );
    let r = spec_admit(spec_enqueue_all(s, s.friends));
    (r.0, placeholders + r.1)
}

/// The identifiers with later duplicates dropped, keeping first occurrences.
pub open spec fn dedup_ids(acc: Seq<Seq<char>>, ids: Seq<Seq<char>>) -> Seq<Seq<char>>
    decreases ids.len(),
{
    if ids.len() == 0 {
        acc
    } else {
        dedup_ids(
            if contains_id(acc, ids[0]) {
                acc
            } else {
                acc.push(ids[0])
            },
            ids.drop_first(),
        )
    }
}

/// The initial state: the loaded friend set, deduplicated, with every friend
/// queued for a check and nothing outstanding.
pub open spec fn spec_init(friends: Seq<Seq<char>>, enable_chat: bool) -> ClientV {
    let f = dedup_ids(seq![], friends);
    ClientV {
        enable_chat,
        local_peer_id: None,
        friends: f,
        queue: f,
        pending: seq![],
        next_handle: 0,
        connected: seq![],
    }
}

// ---------------------------------------------------------------------------
// Counting lemmas.
// ---------------------------------------------------------------------------
/// How many lookups a list of actions starts for `x`.
pub open spec fn count_starts(acts: Seq<ActionV>, x: Seq<char>) -> int
    decreases acts.len(),
{
    if acts.len() == 0 {
        0
    } else {
        count_starts(acts.drop_first(), x) + match acts[0] {
            ActionV::StartLookup { handle, peer_id } => if peer_id == x {
                1int
            } else {
                0int
            },
            _ => 0int,
        }
    }
}

/// How many friend-status reports a list of actions emits for `x`.
pub open spec fn count_status(acts: Seq<ActionV>, x: Seq<char>) -> int
    decreases acts.len(),
{
    if acts.len() == 0 {
        0
    } else {
        count_status(acts.drop_first(), x) + match acts[0] {
            ActionV::Emit { event } => match event {
                EventV::FriendStatus { status } => if status.peer_id == x {
                    1int
                } else {
                    0int
                },
                _ => 0int,
            },
            _ => 0int,
        }
    }
}

pub proof fn lemma_count_starts_concat(a: Seq<ActionV>, b: Seq<ActionV>, x: Seq<char>)
    ensures
        count_starts(a + b, x) == count_starts(a, x) + count_starts(b, x),
    decreases a.len(),
{
    if a.len() == 0 {
        assert(a + b =~= b);
    } else {
        assert((a + b).drop_first() =~= a.drop_first() + b);
        lemma_count_starts_concat(a.drop_first(), b, x);
    }
}

pub proof fn lemma_count_status_concat(a: Seq<ActionV>, b: Seq<ActionV>, x: Seq<char>)
    ensures
        count_status(a + b, x) == count_status(a, x) + count_status(b, x),
    decreases a.len(),
{
    if a.len() == 0 {
        assert(a + b =~= b);
    } else {
        assert((a + b).drop_first() =~= a.drop_first() + b);
        lemma_count_status_concat(a.drop_first(), b, x);
    }
}

/// A list of lookup starts emits no status reports.
pub proof fn lemma_starts_have_no_status(acts: Seq<ActionV>, x: Seq<char>)
    requires
        forall|i: int| 0 <= i < acts.len() ==> acts[i] is StartLookup,
    ensures
        count_status(acts, x) == 0,
    decreases acts.len(),
{
    if acts.len() > 0 {
        assert(acts[0] is StartLookup);
        assert forall|i: int| 0 <= i < acts.drop_first().len() implies acts.drop_first()[i]
            is StartLookup by {
            assert(acts[i + 1] is StartLookup);
        }
        lemma_starts_have_no_status(acts.drop_first(), x);
    }
}

pub proof fn lemma_count_id_push(ids: Seq<Seq<char>>, y: Seq<char>, x: Seq<char>)
    ensures
        count_id(ids.push(y), x) == count_id(ids, x) + if y == x {
            1int
        } else {
            0int
        },
    decreases ids.len(),
{
    if ids.len() == 0 {
        assert(ids.push(y).drop_first() =~= ids);
    } else {
        assert(ids.push(y).drop_first() =~= ids.drop_first().push(y));
        lemma_count_id_push(ids.drop_first(), y, x);
    }
}

pub proof fn lemma_count_pending_push(
    pending: Seq<(u64, Seq<char>)>,
    e: (u64, Seq<char>),
    x: Seq<char>,
)
    ensures
        count_pending(pending.push(e), x) == count_pending(pending, x) + if e.1 == x {
            1int
        } else {
            0int
        },
    decreases pending.len(),
{
    if pending.len() == 0 {
        assert(pending.push(e).drop_first() =~= pending);
    } else {
        assert(pending.push(e).drop_first() =~= pending.drop_first().push(e));
        lemma_count_pending_push(pending.drop_first(), e, x);
    }
}

pub proof fn lemma_count_pending_remove(pending: Seq<(u64, Seq<char>)>, i: int, x: Seq<char>)
    requires
        0 <= i < pending.len(),
    ensures
        count_pending(pending.remove(i), x) == count_pending(pending, x) - if pending[i].1 == x {
            1int
        } else {
            0int
        },
    decreases pending.len(),
{
    if i == 0 {
        assert(pending.remove(0) =~= pending.drop_first());
    } else {
        assert(pending.remove(i).drop_first() =~= pending.drop_first().remove(i - 1));
        lemma_count_pending_remove(pending.drop_first(), i - 1, x);
    }
}

/// An identifier equal to no element occurs zero times.
pub proof fn lemma_count_id_absent(ids: Seq<Seq<char>>, x: Seq<char>)
    requires
        forall|k: int| 0 <= k < ids.len() ==> ids[k] != x,
    ensures
        count_id(ids, x) == 0,
    decreases ids.len(),
{
    if ids.len() > 0 {
        assert forall|k: int| 0 <= k < ids.drop_first().len() implies ids.drop_first()[k]
            != x by {
            assert(ids[k + 1] != x);
        }
        lemma_count_id_absent(ids.drop_first(), x);
    }
}

/// A peer with no outstanding entry has zero outstanding lookups.
pub proof fn lemma_count_pending_absent(pending: Seq<(u64, Seq<char>)>, x: Seq<char>)
    requires
        forall|k: int| 0 <= k < pending.len() ==> pending[k].1 != x,
    ensures
        count_pending(pending, x) == 0,
    decreases pending.len(),
{
    if pending.len() > 0 {
        assert forall|k: int| 0 <= k < pending.drop_first().len() implies pending.drop_first()[k].1
            != x by {
            assert(pending[k + 1].1 != x);
        }
        lemma_count_pending_absent(pending.drop_first(), x);
    }
}

/// In a duplicate-free sequence every identifier occurs at most once, and
/// occurrence agrees with membership.
pub proof fn lemma_count_id_bounds(ids: Seq<Seq<char>>, x: Seq<char>)
    ensures
        0 <= count_id(ids, x),
        contains_id(ids, x) == (count_id(ids, x) > 0),
        distinct_ids(ids) ==> count_id(ids, x) <= 1,
    decreases ids.len(),
{
    if ids.len() > 0 {
        lemma_count_id_bounds(ids.drop_first(), x);
        assert(distinct_ids(ids) ==> distinct_ids(ids.drop_first())) by {
            if distinct_ids(ids) {
                assert forall|i: int, j: int|
                    0 <= i < j < ids.drop_first().len() implies ids.drop_first()[i]
                    != ids.drop_first()[j] by {
                    assert(ids[i + 1] != ids[j + 1]);
                }
            }
        }
        if distinct_ids(ids) && ids[0] == x {
            assert forall|k: int| 0 <= k < ids.drop_first().len() implies ids.drop_first()[k]
                != x by {
                assert(ids[0] != ids[k + 1]);
            }
            assert(!contains_id(ids.drop_first(), x));
        }
        if contains_id(ids, x) && ids[0] != x {
            let w = choose|i: int| 0 <= i < ids.len() && ids[i] == x;
            assert(ids.drop_first()[w - 1] == x);
        }
        if contains_id(ids.drop_first(), x) {
            let w = choose|i: int|
                0 <= i < ids.drop_first().len() && ids.drop_first()[i] == x;
            assert(ids[w + 1] == x);
        }
    }
}

/// The analogue of `lemma_count_id_bounds` for the outstanding lookups.
pub proof fn lemma_count_pending_bounds(pending: Seq<(u64, Seq<char>)>, x: Seq<char>)
    ensures
        0 <= count_pending(pending, x),
        pending_has_peer(pending, x) == (count_pending(pending, x) > 0),
        (forall|i: int, j: int| 0 <= i < j < pending.len() ==> pending[i].1 != pending[j].1)
            ==> count_pending(pending, x) <= 1,
    decreases pending.len(),
{
    if pending.len() > 0 {
        lemma_count_pending_bounds(pending.drop_first(), x);
        let tail = pending.drop_first();
        if (forall|i: int, j: int| 0 <= i < j < pending.len() ==> pending[i].1 != pending[j].1) {
            assert forall|i: int, j: int| 0 <= i < j < tail.len() implies tail[i].1
                != tail[j].1 by {
                assert(pending[i + 1].1 != pending[j + 1].1);
            }
            if pending[0].1 == x {
                assert forall|k: int| 0 <= k < tail.len() implies tail[k].1 != x by {
                    assert(pending[0].1 != pending[k + 1].1);
                }
                assert(!pending_has_peer(tail, x));
            }
        }
        if pending_has_peer(pending, x) && pending[0].1 != x {
            let w = choose|i: int| 0 <= i < pending.len() && pending[i].1 == x;
            assert(tail[w - 1].1 == x);
        }
        if pending_has_peer(tail, x) {
            let w = choose|i: int| 0 <= i < tail.len() && tail[i].1 == x;
            assert(pending[w + 1].1 == x);
        }
    }
}

// ---------------------------------------------------------------------------
// Properties of the transitions.
// ---------------------------------------------------------------------------
/// The state reached by admitting the queue's valid head into a free slot.
pub open spec fn admit_step(s: ClientV) -> ClientV {
    ClientV {
        queue: s.queue.drop_first(),
        pending: s.pending.push((s.next_handle, s.queue[0])),
        next_handle: (s.next_handle + 1) as u64,
        ..s
    }
}

/// One admission step preserves well-formedness.
pub proof fn lemma_admit_step_wf(s: ClientV)
    requires
        s.wf(),
        s.pending.len() < MAX_CONCURRENT_FRIEND_QUERIES,
        s.queue.len() > 0,
        s.next_handle < u64::MAX,
    ensures
        admit_step(s).wf(),
{
    let p = s.queue[0];
    let s2 = admit_step(s);
    assert forall|i: int, j: int| 0 <= i < j < s2.queue.len() implies s2.queue[i]
        != s2.queue[j] by {
        assert(s.queue[i + 1] != s.queue[j + 1]);
    }
    assert forall|i: int, j: int| 0 <= i < j < s2.pending.len() implies s2.pending[i].0
        != s2.pending[j].0 && s2.pending[i].1 != s2.pending[j].1 by {
        if j < s.pending.len() {
            assert(s.pending[i].0 != s.pending[j].0);
        } else {
            assert(s2.pending[j] == (s.next_handle, p));
            assert(s.pending[i].0 < s.next_handle);
            assert(s.queue[0] != s.pending[i].1);
        }
    }
    assert forall|i: int, j: int|
        0 <= i < s2.queue.len() && 0 <= j < s2.pending.len() implies s2.queue[i]
        != s2.pending[j].1 by {
        if j < s.pending.len() {
            assert(s.queue[i + 1] != s.pending[j].1);
        } else {
            assert(s2.pending[j].1 == p);
            assert(s.queue[0] != s.queue[i + 1]);
        }
    }
}

/// Dropping the queue's head preserves well-formedness.
pub proof fn lemma_drop_head_wf(s: ClientV)
    requires
        s.wf(),
        s.queue.len() > 0,
    ensures
        (ClientV { queue: s.queue.drop_first(), ..s }).wf(),
{
    let s1 = ClientV { queue: s.queue.drop_first(), ..s };
    assert forall|i: int, j: int| 0 <= i < j < s1.queue.len() implies s1.queue[i]
        != s1.queue[j] by {
        assert(s.queue[i + 1] != s.queue[j + 1]);
    }
    assert forall|i: int, j: int|
        0 <= i < s1.queue.len() && 0 <= j < s1.pending.len() implies s1.queue[i]
        != s1.pending[j].1 by {
        assert(s.queue[i + 1] != s.pending[j].1);
    }
}

/// Dropping an outstanding lookup preserves well-formedness.
pub proof fn lemma_remove_pending_wf(s: ClientV, i: int)
    requires
        s.wf(),
        0 <= i < s.pending.len(),
    ensures
        (ClientV { pending: s.pending.remove(i), ..s }).wf(),
{
    let s1 = ClientV { pending: s.pending.remove(i), ..s };
    assert forall|a: int, b: int| 0 <= a < b < s1.pending.len() implies s1.pending[a].0
        != s1.pending[b].0 && s1.pending[a].1 != s1.pending[b].1 by {
        let a0 = if a < i { a } else { a + 1 };
        let b0 = if b < i { b } else { b + 1 };
        assert(s1.pending[a] == s.pending[a0]);
        assert(s1.pending[b] == s.pending[b0]);
        assert(s.pending[a0].0 != s.pending[b0].0);
    }
    assert forall|a: int, j: int|
        0 <= a < s1.queue.len() && 0 <= j < s1.pending.len() implies s1.queue[a]
        != s1.pending[j].1 by {
        let j0 = if j < i { j } else { j + 1 };
        assert(s1.pending[j] == s.pending[j0]);
        assert(s.queue[a] != s.pending[j0].1);
    }
    assert forall|j: int| 0 <= j < s1.pending.len() implies s1.pending[j].0 < s1.next_handle by {
        let j0 = if j < i { j } else { j + 1 };
        assert(s1.pending[j] == s.pending[j0]);
    }
}

/// What admission does: it preserves well-formedness and every field but the
/// scheduler's; it fills slots up to the bound while the queue lasts; it
/// conserves, for valid identifiers, the total of queued and outstanding
/// checks; it starts exactly the lookups that become outstanding; and it
/// leaves a suffix of the queue.
pub proof fn lemma_admit(s: ClientV)
    requires
        s.wf(),
    ensures
        ({
            let r = spec_admit(s);
            &&& r.0.wf()
            &&& r.0.friends == s.friends
            &&& r.0.connected == s.connected
            &&& r.0.enable_chat == s.enable_chat
            &&& r.0.local_peer_id == s.local_peer_id
            &&& r.0.next_handle >= s.next_handle
            &&& r.0.next_handle <= s.next_handle + s.queue.len()
            &&& r.0.next_handle + r.0.queue.len() <= s.next_handle + s.queue.len()
            &&& r.0.pending.len() >= s.pending.len()
            &&& ((forall|i: int| 0 <= i < s.queue.len() ==> peer_id_valid(#[trigger] s.queue[i]))
                && (forall|i: int|
                0 <= i < s.pending.len() ==> peer_id_valid(#[trigger] s.pending[i].1)) ==> (
            forall|i: int|
                0 <= i < r.0.pending.len() ==> peer_id_valid(#[trigger] r.0.pending[i].1)))
            &&& ((forall|i: int| 0 <= i < s.queue.len() ==> peer_id_valid(#[trigger] s.queue[i]))
                && s.next_handle + s.queue.len() <= u64::MAX ==> r.0.queue.len()
                + r.0.pending.len() == s.queue.len() + s.pending.len())
            &&& (r.0.queue.len() > 0 && r.0.next_handle < u64::MAX ==> r.0.pending.len()
                == MAX_CONCURRENT_FRIEND_QUERIES)
            &&& (forall|p: Seq<char>|
                peer_id_valid(p) ==> count_id(r.0.queue, p) + count_pending(r.0.pending, p)
                    == count_id(s.queue, p) + count_pending(s.pending, p))
            &&& (forall|p: Seq<char>|
                count_pending(r.0.pending, p) == count_pending(s.pending, p) + count_starts(
                    r.1,
                    p,
                ))
            &&& (forall|p: Seq<char>| #[trigger]
                count_id(r.0.queue, p) <= count_id(s.queue, p))
            &&& (forall|i: int| 0 <= i < r.1.len() ==> r.1[i] is StartLookup)
            &&& exists|k: int| 0 <= k <= s.queue.len() && r.0.queue == s.queue.skip(k)
        }),
    decreases s.queue.len(),
{
    let r = spec_admit(s);
    if s.pending.len() >= MAX_CONCURRENT_FRIEND_QUERIES || s.queue.len() == 0 {
        assert(r.0.queue =~= s.queue.skip(0));
        assert forall|p: Seq<char>| #[trigger]
            count_starts(r.1, p) == 0 by {}
    } else {
        let p0 = s.queue[0];
        if !peer_id_valid(p0) {
            let s1 = ClientV { queue: s.queue.drop_first(), ..s };
            lemma_drop_head_wf(s);
            lemma_admit(s1);
            let k1 = choose|k: int| 0 <= k <= s1.queue.len() && spec_admit(s1).0.queue
                == s1.queue.skip(k);
            assert(s1.queue.skip(k1) =~= s.queue.skip(k1 + 1));
        } else if s.next_handle == u64::MAX {
            assert(r.0.queue =~= s.queue.skip(0));
            assert forall|p: Seq<char>| #[trigger]
                count_starts(r.1, p) == 0 by {}
        } else {
            let h = s.next_handle;
            let s2 = admit_step(s);
            lemma_admit_step_wf(s);
            lemma_admit(s2);
            let r2 = spec_admit(s2);
            assert(r.0 == r2.0);
            assert(r.1 =~= seq![ActionV::StartLookup { handle: h, peer_id: p0 }] + r2.1);
            assert(r.1.drop_first() =~= r2.1);
            assert forall|p: Seq<char>|
                count_pending(r.0.pending, p) == count_pending(s.pending, p) + count_starts(
                    r.1,
                    p,
                ) by {
                lemma_count_pending_push(s.pending, (h, p0), p);
            }
            assert forall|p: Seq<char>|
                peer_id_valid(p) implies count_id(r.0.queue, p) + count_pending(r.0.pending, p)
                == count_id(s.queue, p) + count_pending(s.pending, p) by {
                lemma_count_pending_push(s.pending, (h, p0), p);
            }
            let k2 = choose|k: int| 0 <= k <= s2.queue.len() && r2.0.queue == s2.queue.skip(k);
            assert(s2.queue.skip(k2) =~= s.queue.skip(k2 + 1));
        }
    }
}

} // verus!
