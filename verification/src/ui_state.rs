use crate::strutil::{
    contains_id, distinct_ids, format_clock, format_secs1, lemma_lex_transitive,
    lemma_lex_trichotomy, lex_less, spec_clock, spec_lex_lt, spec_secs1, str_eq,
    vec_contains_str,
};
use crate::types::{ChatMessage, MessageV, PeerStatus, StatusV};
use vstd::prelude::*;

verus! {

/// The most debug events the panel keeps.
pub const MAX_DEBUG_EVENTS: usize = 100;

/// Mathematical view of a debug event.
pub struct DebugEventV {
    pub timestamp: i64,
    pub event_type: Seq<char>,
    pub peer_id: Option<Seq<char>>,
    pub message: Seq<char>,
}

/// A debug event shown in the diagnostics panel.
#[derive(Debug)]
pub struct DebugEvent {
    /// Epoch time in milliseconds.
    pub timestamp: i64,
    pub event_type: String,
    pub peer_id: Option<String>,
    pub message: String,
}

impl View for DebugEvent {
    type V = DebugEventV;

    open spec fn view(&self) -> DebugEventV {
        DebugEventV {
            timestamp: self.timestamp,
            event_type: self.event_type@,
            peer_id: match self.peer_id {
                Some(ref p) => Some(p@),
                None => None,
            },
            message: self.message@,
        }
    }
}

/// What the sidebar asks of the application after a frame.
pub struct SidebarActions {
    pub connect_address: Option<String>,
    pub friend_peer_id: Option<String>,
}

impl Default for SidebarActions {
    fn default() -> (r: Self)
        ensures
            r.connect_address is None,
            r.friend_peer_id is None,
    {
        SidebarActions { connect_address: None, friend_peer_id: None }
    }
}

/// Mathematical view of the UI state.
#[verifier::ext_equal]
pub struct AppStateV {
    pub messages: Seq<MessageV>,
    pub input_text: Seq<char>,
    pub peer_address_input: Seq<char>,
    pub peers: Seq<Seq<char>>,
    pub debug_events: Seq<DebugEventV>,
    pub peer_last_seen: Seq<(Seq<char>, i64)>,
    pub friend_input: Seq<char>,
    pub friends: Seq<(Seq<char>, StatusV)>,
}

impl AppStateV {
    /// Well-formedness: the peer list and both keyed collections hold each
    /// key once, and recorded times are non-negative.
    pub open spec fn wf(self) -> bool {
        &&& distinct_ids(self.peers)
        &&& (forall|i: int, j: int|
            0 <= i < j < self.peer_last_seen.len() ==> self.peer_last_seen[i].0
                != self.peer_last_seen[j].0)
        &&& (forall|i: int| 0 <= i < self.peer_last_seen.len() ==> self.peer_last_seen[i].1 >= 0)
        &&& (forall|i: int, j: int|
            0 <= i < j < self.friends.len() ==> spec_lex_lt(self.friends[i].0, self.friends[j].0))
        &&& (forall|i: int| 0 <= i < self.friends.len() ==> self.friends[i].1.peer_id
            == self.friends[i].0)
    }
}

/// A key's recorded time, if any.
pub open spec fn seen_lookup(entries: Seq<(Seq<char>, i64)>, key: Seq<char>) -> Option<i64> {
    if exists|i: int| 0 <= i < entries.len() && entries[i].0 == key {
        Some(entries[choose|i: int| 0 <= i < entries.len() && entries[i].0 == key].1)
    } else {
        None
    }
}

/// The entries with `key` now carrying `val`, added if absent.
pub open spec fn seen_upsert(entries: Seq<(Seq<char>, i64)>, key: Seq<char>, val: i64) -> Seq<
    (Seq<char>, i64),
> {
    if exists|i: int| 0 <= i < entries.len() && entries[i].0 == key {
        entries.update(
            choose|i: int| 0 <= i < entries.len() && entries[i].0 == key,
            (key, val),
        )
    } else {
        entries.push((key, val))
    }
}

/// The friend records with `key` now carrying `st`: a present key's record
/// is replaced in place, an absent key's record is inserted at its place in
/// the ascending identifier order.
pub open spec fn friends_upsert(
    entries: Seq<(Seq<char>, StatusV)>,
    key: Seq<char>,
    st: StatusV,
) -> Seq<(Seq<char>, StatusV)>
    decreases entries.len(),
{
    if entries.len() == 0 {
        seq![(key, st)]
    } else if entries[0].0 == key {
        seq![(key, st)] + entries.drop_first()
    } else if spec_lex_lt(key, entries[0].0) {
        seq![(key, st)] + entries
    } else {
        seq![entries[0]] + friends_upsert(entries.drop_first(), key, st)
    }
}

/// The debug event an incoming friend status yields.
pub open spec fn friend_status_event(st: StatusV, now_ms: i64) -> DebugEventV {
    DebugEventV {
        timestamp: now_ms,
        event_type: if st.online {
            "FRIEND_ONLINE"@
        } else {
            "FRIEND_OFFLINE"@
        },
        peer_id: Some(st.peer_id),
        message: if st.online {
            friend_online_text(st.message)
        } else {
            friend_offline_text(st.message)
        },
    }
}

/// The events with `e` appended, the oldest dropped over the cap.
pub open spec fn events_push_capped(events: Seq<DebugEventV>, e: DebugEventV) -> Seq<DebugEventV> {
    let s = events.push(e);
    if s.len() > MAX_DEBUG_EVENTS {
        s.drop_first()
    } else {
        s
    }
}

// ---------------------------------------------------------------------------
// The texts of the debug events.
// ---------------------------------------------------------------------------
pub open spec fn message_received_text(sender: Seq<char>, content: Seq<char>) -> Seq<char> {
    "Message from "@ + sender.subrange(0, 8) + ": "@ + content
}

pub open spec fn peer_connected_text(now_ms: int) -> Seq<char> {
    "Peer connected at "@ + spec_clock(now_ms)
}

pub open spec fn peer_refreshed_text(now_ms: int) -> Seq<char> {
    "Peer refreshed at "@ + spec_clock(now_ms)
}

pub open spec fn peer_disconnected_text(now_ms: int, dur_ms: Option<int>) -> Seq<char> {
    "Peer disconnected at "@ + spec_clock(now_ms) + match dur_ms {
        Some(d) => " (Was online for "@ + spec_secs1(d) + "s)"@,
        None => Seq::<char>::empty(),
    }
}

pub open spec fn friend_online_text(message: Seq<char>) -> Seq<char> {
    "Friend online: "@ + message
}

pub open spec fn friend_offline_text(message: Seq<char>) -> Seq<char> {
    "Friend offline: "@ + message
}

/// The UI's local state: messages, inputs, connected peers, their last-seen
/// times, friends with their latest status, and recent debug events.
pub struct AppState {
    pub messages: Vec<ChatMessage>,
    pub input_text: String,
    pub peer_address_input: String,
    pub peers: Vec<String>,
    pub debug_events: Vec<DebugEvent>,
    /// Last time each peer was seen, in epoch milliseconds.
    pub peer_last_seen: Vec<(String, i64)>,
    pub friend_input: String,
    /// Friends by identifier with their latest status.
    pub friends: Vec<(String, PeerStatus)>,
}

impl View for AppState {
    type V = AppStateV;

    open spec fn view(&self) -> AppStateV {
        AppStateV {
            messages: self.messages@.map_values(|m: ChatMessage| m@),
            input_text: self.input_text@,
            peer_address_input: self.peer_address_input@,
            peers: self.peers.deep_view(),
            debug_events: self.debug_events@.map_values(|e: DebugEvent| e@),
            peer_last_seen: self.peer_last_seen.deep_view(),
            friend_input: self.friend_input@,
            friends: self.friends@.map_values(|f: (String, PeerStatus)| (f.0@, f.1@)),
        }
    }
}

/// Messages ordered by their send time.
pub open spec fn sorted_by_timestamp(msgs: Seq<MessageV>) -> bool {
    forall|i: int, j: int| 0 <= i <= j < msgs.len() ==> msgs[i].timestamp <= msgs[j].timestamp
}

/// Holding a given send time.
pub open spec fn at_time(t: i64) -> spec_fn(MessageV) -> bool {
    |m: MessageV| m.timestamp == t
}

/// A sequence none of whose elements satisfies the predicate filters to
/// nothing.
proof fn lemma_filter_none<T>(s: Seq<T>, pred: spec_fn(T) -> bool)
    requires
        forall|i: int| 0 <= i < s.len() ==> !pred(s[i]),
    ensures
        s.filter(pred) == Seq::<T>::empty(),
    decreases s.len(),
{
    reveal(Seq::filter);
    if s.len() > 0 {
        assert forall|i: int| 0 <= i < s.drop_last().len() implies !pred(s.drop_last()[i]) by {
            assert(!pred(s[i]));
        }
        lemma_filter_none(s.drop_last(), pred);
        assert(!pred(s.last()));
    }
}

/// A single element filters to itself or to nothing.
proof fn lemma_filter_one<T>(x: T, pred: spec_fn(T) -> bool)
    ensures
        pred(x) ==> seq![x].filter(pred) == seq![x],
        !pred(x) ==> seq![x].filter(pred) == Seq::<T>::empty(),
{
    reveal(Seq::filter);
    assert(seq![x].drop_last() =~= Seq::<T>::empty());
    lemma_filter_none(seq![x].drop_last(), pred);
    assert(seq![x].last() == x);
    if pred(x) {
        assert(seq![x].filter(pred) =~= Seq::<T>::empty().push(x));
        assert(Seq::<T>::empty().push(x) =~= seq![x]);
    }
}

/// Orders messages by send time, by repeatedly moving the earliest-sent,
/// first-listed remaining message over: a stable ordering, so messages with
/// equal send times keep their relative order.
fn sort_messages(v: Vec<ChatMessage>) -> (r: Vec<ChatMessage>)
    ensures
        sorted_by_timestamp(r@.map_values(|m: ChatMessage| m@)),
        r@.map_values(|m: ChatMessage| m@).to_multiset() == v@.map_values(
            |m: ChatMessage| m@,
        ).to_multiset(),
        forall|t: i64|
            #![trigger at_time(t)]
            r@.map_values(|m: ChatMessage| m@).filter(at_time(t)) == v@.map_values(
                |m: ChatMessage| m@,
            ).filter(at_time(t)),
{
    broadcast use vstd::seq_lib::group_to_multiset_ensures;

    let ghost orig = v@.map_values(|m: ChatMessage| m@);
    let mut rest = v;
    let mut out: Vec<ChatMessage> = Vec::new();
    proof {
        assert(out@.map_values(|m: ChatMessage| m@) =~= Seq::<MessageV>::empty());
        assert(out@.map_values(|m: ChatMessage| m@).to_multiset().add(
            rest@.map_values(|m: ChatMessage| m@).to_multiset(),
        ) =~= orig.to_multiset());
        assert forall|t: i64|
            #![trigger at_time(t)]
            out@.map_values(|m: ChatMessage| m@).filter(at_time(t)) + rest@.map_values(
                |m: ChatMessage| m@,
            ).filter(at_time(t)) == orig.filter(at_time(t)) by {
            lemma_filter_none(out@.map_values(|m: ChatMessage| m@), at_time(t));
            assert(Seq::<MessageV>::empty() + orig.filter(at_time(t)) =~= orig.filter(
                at_time(t),
            ));
        }
    }
    while rest.len() > 0
        invariant
            orig == v@.map_values(|m: ChatMessage| m@),
            sorted_by_timestamp(out@.map_values(|m: ChatMessage| m@)),
            out@.map_values(|m: ChatMessage| m@).to_multiset().add(
                rest@.map_values(|m: ChatMessage| m@).to_multiset(),
            ) == orig.to_multiset(),
            forall|t: i64|
                #![trigger at_time(t)]
                out@.map_values(|m: ChatMessage| m@).filter(at_time(t)) + rest@.map_values(
                    |m: ChatMessage| m@,
                ).filter(at_time(t)) == orig.filter(at_time(t)),
            forall|a: int, b: int|
                0 <= a < out@.len() && 0 <= b < rest@.len() ==> out@[a].timestamp
                    <= rest@[b].timestamp,
        decreases rest@.len(),
    {
        let mut mi: usize = 0;
        let mut j: usize = 1;
        while j < rest.len()
            invariant
                rest@.len() > 0,
                mi < rest@.len(),
                j <= rest@.len(),
                forall|k: int| 0 <= k < j ==> rest@[mi as int].timestamp <= rest@[k].timestamp,
                forall|k: int| 0 <= k < mi ==> rest@[k].timestamp > rest@[mi as int].timestamp,
            decreases rest@.len() - j,
        {
            if rest[j].timestamp < rest[mi].timestamp {
                mi = j;
            }
            j = j + 1;
        }
        let ghost out_m = out@.map_values(|m: ChatMessage| m@);
        let ghost rest_m = rest@.map_values(|m: ChatMessage| m@);
        let m = rest.remove(mi);
        out.push(m);
        proof {
            broadcast use vstd::seq_lib::group_to_multiset_ensures;

            assert(out@.map_values(|m2: ChatMessage| m2@) =~= out_m.push(m@));
            assert(rest@.map_values(|m2: ChatMessage| m2@) =~= rest_m.remove(mi as int));
            assert(out_m.push(m@).to_multiset() =~= out_m.to_multiset().insert(m@));
            assert(rest_m.remove(mi as int).to_multiset() =~= rest_m.to_multiset().remove(
                rest_m[mi as int],
            ));
            assert(rest_m[mi as int] == m@);
            assert(rest_m.to_multiset().count(m@) > 0) by {
                assert(rest_m.contains(m@));
            }
            assert(out_m.to_multiset().insert(m@).add(rest_m.to_multiset().remove(m@))
                =~= out_m.to_multiset().add(rest_m.to_multiset()));
            assert forall|a: int, b: int|
                #![trigger out@[a], rest@[b]]
                0 <= a < out@.len() && 0 <= b < rest@.len() implies out@[a].timestamp
                <= rest@[b].timestamp by {
                let b0 = if b < mi as int {
                    b
                } else {
                    b + 1
                };
                if a < out@.len() - 1 {
                } else {
                    assert(rest_m[mi as int].timestamp <= rest_m[b0].timestamp);
                }
            }
            let ghost om = out@.map_values(|m2: ChatMessage| m2@);
            assert forall|a: int, b: int|
                #![trigger om[a], om[b]]
                0 <= a <= b < om.len() implies om[a].timestamp <= om[b].timestamp by {
                if b == om.len() - 1 && a < b {
                    assert(out_m[a].timestamp <= rest_m[mi as int].timestamp);
                }
            }
            assert(sorted_by_timestamp(om));
            let prefix = rest_m.subrange(0, mi as int);
            let picked = seq![m@];
            let suffix = rest_m.subrange(mi as int + 1, rest_m.len() as int);
            assert(rest_m =~= (prefix + picked) + suffix);
            assert(rest@.map_values(|m2: ChatMessage| m2@) =~= prefix + suffix);
            assert(out_m.push(m@) =~= out_m + picked);
            assert forall|t: i64|
                #![trigger at_time(t)]
                out@.map_values(|m2: ChatMessage| m2@).filter(at_time(t)) + rest@.map_values(
                    |m2: ChatMessage| m2@,
                ).filter(at_time(t)) == orig.filter(at_time(t)) by {
                let p = at_time(t);
                Seq::filter_distributes_over_add(prefix + picked, suffix, p);
                Seq::filter_distributes_over_add(prefix, picked, p);
                Seq::filter_distributes_over_add(prefix, suffix, p);
                Seq::filter_distributes_over_add(out_m, picked, p);
                assert(rest_m.filter(p) == (prefix.filter(p) + picked.filter(p)) + suffix.filter(
                    p,
                ));
                if m@.timestamp == t {
                    assert forall|k2: int| 0 <= k2 < prefix.len() implies !p(prefix[k2]) by {
                        assert(prefix[k2] == rest_m[k2]);
                        assert(rest_m[k2].timestamp > m@.timestamp);
                    }
                    lemma_filter_none(prefix, p);
                    assert((out_m + picked).filter(p) + (prefix + suffix).filter(p)
                        =~= out_m.filter(p) + rest_m.filter(p));
                } else {
                    lemma_filter_one(m@, p);
                    assert((out_m + picked).filter(p) + (prefix + suffix).filter(p)
                        =~= out_m.filter(p) + rest_m.filter(p));
                }
            }
        }
    }
    proof {
        assert(rest@.map_values(|m: ChatMessage| m@) =~= Seq::<MessageV>::empty());
        assert(out@.map_values(|m: ChatMessage| m@).to_multiset().add(
            Seq::<MessageV>::empty().to_multiset(),
        ) =~= out@.map_values(|m: ChatMessage| m@).to_multiset());
        assert forall|t: i64|
            #![trigger at_time(t)]
            out@.map_values(|m: ChatMessage| m@).filter(at_time(t)) == orig.filter(
                at_time(t),
            ) by {
            lemma_filter_none(rest@.map_values(|m: ChatMessage| m@), at_time(t));
            assert(out@.map_values(|m: ChatMessage| m@).filter(at_time(t))
                + Seq::<MessageV>::empty() =~= out@.map_values(|m: ChatMessage| m@).filter(
                at_time(t),
            ));
        }
    }
    out
}

/// Finds the entry recorded for `key`.
fn seen_index_of(v: &Vec<(String, i64)>, key: &str) -> (r: Option<usize>)
    ensures
        match r {
            Some(i) => i < v.deep_view().len() && v.deep_view()[i as int].0 == key@,
            None => !(exists|i: int|
                0 <= i < v.deep_view().len() && v.deep_view()[i as int].0 == key@),
        },
{
    let mut i: usize = 0;
    while i < v.len()
        invariant
            i <= v@.len(),
            v.deep_view().len() == v@.len(),
            forall|k: int| 0 <= k < v@.len() ==> #[trigger] v.deep_view()[k] == (
                v@[k].0@,
                v@[k].1,
            ),
            forall|k: int| 0 <= k < i ==> v@[k].0@ != key@,
        decreases v@.len() - i,
    {
        if str_eq(v[i].0.as_str(), key) {
            proof {
                assert(v.deep_view()[i as int].0 == key@);
            }
            return Some(i);
        }
        i = i + 1;
    }
    None
}

impl AppState {
    /// A fresh, empty UI state.
    pub fn new() -> (s: AppState)
        ensures
            s@.messages.len() == 0,
            s@.input_text.len() == 0,
            s@.peer_address_input.len() == 0,
            s@.peers.len() == 0,
            s@.debug_events.len() == 0,
            s@.peer_last_seen.len() == 0,
            s@.friend_input.len() == 0,
            s@.friends.len() == 0,
            s@.wf(),
    {
        let s = AppState {
            messages: Vec::new(),
            input_text: String::new(),
            peer_address_input: String::new(),
            peers: Vec::new(),
            debug_events: Vec::new(),
            peer_last_seen: Vec::new(),
            friend_input: String::new(),
            friends: Vec::new(),
        };
        proof {
            reveal_strlit("");
        }
        s
    }

    /// Appends a debug event, dropping the oldest past the cap.
    pub fn add_debug_event(
        &mut self,
        event_type: String,
        peer_id: Option<String>,
        message: String,
        now_ms: i64,
    )
        requires
            old(self)@.wf(),
        ensures
            final(self)@.wf(),
            final(self)@ == (AppStateV {
                debug_events: events_push_capped(
                    old(self)@.debug_events,
                    DebugEventV {
                        timestamp: now_ms,
                        event_type: event_type@,
                        peer_id: match peer_id {
                            Some(ref p) => Some(p@),
                            None => None,
                        },
                        message: message@,
                    },
                ),
                ..old(self)@
            }),
    {
        let ghost pre = self@;
        let ghost ev = (DebugEventV {
            timestamp: now_ms,
            event_type: event_type@,
            peer_id: match peer_id {
                Some(ref p) => Some(p@),
                None => None,
            },
            message: message@,
        });
        let event = DebugEvent { timestamp: now_ms, event_type, peer_id, message };
        self.debug_events.push(event);
        proof {
            assert(self@.debug_events =~= pre.debug_events.push(ev));
        }
        if self.debug_events.len() > MAX_DEBUG_EVENTS {
            let _oldest = self.debug_events.remove(0);
            proof {
                assert(self@.debug_events =~= pre.debug_events.push(ev).drop_first());
            }
        }
        proof {
            assert(self@ =~= (AppStateV {
                debug_events: events_push_capped(pre.debug_events, ev),
                ..pre
            }));
        }
    }

    /// Records an incoming message and a debug event quoting its sender.
    pub fn push_message(&mut self, message: ChatMessage, now_ms: i64)
        requires
            old(self)@.wf(),
            message.sender@.len() >= 8,
        ensures
            final(self)@.wf(),
            final(self)@ == (AppStateV {
                messages: old(self)@.messages.push(message@),
                debug_events: events_push_capped(
                    old(self)@.debug_events,
                    DebugEventV {
                        timestamp: now_ms,
                        event_type: "MESSAGE_RECEIVED"@,
                        peer_id: Some(message.sender@),
                        message: message_received_text(message.sender@, message.content@),
                    },
                ),
                ..old(self)@
            }),
    {
        let ghost pre = self@;
        let sender = message.sender.clone();
        let mut text = "Message from ".to_owned();
        text.append(sender.as_str().substring_char(0, 8));
        text.append(": ");
        text.append(message.content.as_str());
        proof {
            assert(text@ =~= message_received_text(message.sender@, message.content@));
        }
        self.messages.push(message);
        proof {
            assert(self@.messages =~= pre.messages.push(message@));
        }
        self.add_debug_event("MESSAGE_RECEIVED".to_owned(), Some(sender), text, now_ms);
        proof {
            assert(self@ =~= (AppStateV {
                messages: pre.messages.push(message@),
                debug_events: self@.debug_events,
                ..pre
            }));
        }
    }

    /// Records a newly connected or refreshed peer: a new peer is appended,
    /// its last-seen time is set either way, and a debug event tells the two
    /// apart.
    pub fn add_peer(&mut self, peer_id: String, now_ms: i64)
        requires
            old(self)@.wf(),
            now_ms >= 0,
        ensures
            final(self)@.wf(),
            final(self)@ == (AppStateV {
                peers: if contains_id(old(self)@.peers, peer_id@) {
                    old(self)@.peers
                } else {
                    old(self)@.peers.push(peer_id@)
                },
                peer_last_seen: seen_upsert(old(self)@.peer_last_seen, peer_id@, now_ms),
                debug_events: events_push_capped(
                    old(self)@.debug_events,
                    DebugEventV {
                        timestamp: now_ms,
                        event_type: if contains_id(old(self)@.peers, peer_id@) {
                            "PEER_REFRESHED"@
                        } else {
                            "PEER_CONNECTED"@
                        },
                        peer_id: Some(peer_id@),
                        message: if contains_id(old(self)@.peers, peer_id@) {
                            peer_refreshed_text(now_ms as int)
                        } else {
                            peer_connected_text(now_ms as int)
                        },
                    },
                ),
                ..old(self)@
            }),
    {
        let ghost pre = self@;
        let is_new = !vec_contains_str(&self.peers, peer_id.as_str());
        if is_new {
            self.peers.push(peer_id.clone());
            proof {
                assert(self@.peers =~= pre.peers.push(peer_id@));
                assert(self@ =~= (AppStateV { peers: pre.peers.push(peer_id@), ..pre }));
                assert forall|i: int, j: int| 0 <= i < j < self@.peers.len() implies self@.peers[i]
                    != self@.peers[j] by {
                    if j < pre.peers.len() {
                        assert(pre.peers[i] != pre.peers[j]);
                    }
                }
            }
        }
        let ghost mid = self@;
        match seen_index_of(&self.peer_last_seen, peer_id.as_str()) {
            Some(i) => {
                self.peer_last_seen.set(i, (peer_id.clone(), now_ms));
                proof {
                    assert(self@.peer_last_seen =~= mid.peer_last_seen.update(
                        i as int,
                        (peer_id@, now_ms),
                    ));
                    let ci = choose|c: int|
                        0 <= c < mid.peer_last_seen.len() && mid.peer_last_seen[c].0 == peer_id@;
                    if ci < i as int {
                        assert(mid.peer_last_seen[ci].0 != mid.peer_last_seen[i as int].0);
                    }
                    if ci > i as int {
                        assert(mid.peer_last_seen[i as int].0 != mid.peer_last_seen[ci].0);
                    }
                    assert(ci == i as int);
                    assert(self@.peer_last_seen =~= seen_upsert(
                        mid.peer_last_seen,
                        peer_id@,
                        now_ms,
                    ));
                    assert forall|a: int, b: int|
                        0 <= a < b < self@.peer_last_seen.len() implies self@.peer_last_seen[a].0
                        != self@.peer_last_seen[b].0 by {
                        assert(mid.peer_last_seen[a].0 != mid.peer_last_seen[b].0);
                    }
                }
            },
            None => {
                self.peer_last_seen.push((peer_id.clone(), now_ms));
                proof {
                    assert(self@.peer_last_seen =~= mid.peer_last_seen.push((peer_id@, now_ms)));
                    assert(self@.peer_last_seen =~= seen_upsert(
                        mid.peer_last_seen,
                        peer_id@,
                        now_ms,
                    ));
                    assert forall|a: int, b: int|
                        0 <= a < b < self@.peer_last_seen.len() implies self@.peer_last_seen[a].0
                        != self@.peer_last_seen[b].0 by {
                        if b < mid.peer_last_seen.len() {
                            assert(mid.peer_last_seen[a].0 != mid.peer_last_seen[b].0);
                        }
                    }
                }
            },
        }
        let ghost mid2 = self@;
        if is_new {
            let mut text = "Peer connected at ".to_owned();
            text.append(format_clock(now_ms).as_str());
            proof {
                assert(text@ =~= peer_connected_text(now_ms as int));
            }
            self.add_debug_event("PEER_CONNECTED".to_owned(), Some(peer_id), text, now_ms);
        } else {
            let mut text = "Peer refreshed at ".to_owned();
            text.append(format_clock(now_ms).as_str());
            proof {
                assert(text@ =~= peer_refreshed_text(now_ms as int));
            }
            self.add_debug_event("PEER_REFRESHED".to_owned(), Some(peer_id), text, now_ms);
        }
        proof {
            assert(self@ =~= (AppStateV {
                peers: mid.peers,
                peer_last_seen: mid2.peer_last_seen,
                debug_events: self@.debug_events,
                ..pre
            }));
        }
    }

    /// Records a disconnected peer: a connected peer is removed and a debug
    /// event reports how long it had been online; an unknown peer changes
    /// nothing.
    pub fn remove_peer(&mut self, peer_id: &str, now_ms: i64)
        requires
            old(self)@.wf(),
            now_ms >= 0,
        ensures
            final(self)@.wf(),
            !contains_id(old(self)@.peers, peer_id@) ==> final(self)@ == old(self)@,
            contains_id(old(self)@.peers, peer_id@) ==> final(self)@ == (AppStateV {
                peers: crate::model::remove_id(old(self)@.peers, peer_id@),
                debug_events: events_push_capped(
                    old(self)@.debug_events,
                    DebugEventV {
                        timestamp: now_ms,
                        event_type: "PEER_DISCONNECTED"@,
                        peer_id: Some(peer_id@),
                        message: peer_disconnected_text(
                            now_ms as int,
                            match seen_lookup(old(self)@.peer_last_seen, peer_id@) {
                                Some(last) => Some(
                                    if now_ms >= last {
                                        now_ms - last
                                    } else {
                                        0
                                    },
                                ),
                                None => None,
                            },
                        ),
                    },
                ),
                ..old(self)@
            }),
    {
        let ghost pre = self@;
        let idx = match crate::strutil::index_of_str(&self.peers, peer_id) {
            Some(i) => i,
            None => {
                return ;
            },
        };
        let _gone = self.peers.remove(idx);
        proof {
            assert(self@.peers =~= pre.peers.remove(idx as int));
            assert(contains_id(pre.peers, peer_id@));
            let ci = choose|c: int| 0 <= c < pre.peers.len() && pre.peers[c] == peer_id@;
            if ci < idx as int {
                assert(pre.peers[ci] != pre.peers[idx as int]);
            }
            if ci > idx as int {
                assert(pre.peers[idx as int] != pre.peers[ci]);
            }
            assert(ci == idx as int);
            assert(self@.peers =~= crate::model::remove_id(pre.peers, peer_id@));
            assert forall|a: int, b: int| 0 <= a < b < self@.peers.len() implies self@.peers[a]
                != self@.peers[b] by {
                let a0 = if a < idx as int {
                    a
                } else {
                    a + 1
                };
                let b0 = if b < idx as int {
                    b
                } else {
                    b + 1
                };
                assert(pre.peers[a0] != pre.peers[b0]);
            }
        }
        let mut text = "Peer disconnected at ".to_owned();
        text.append(format_clock(now_ms).as_str());
        let ghost base = text@;
        proof {
            assert(base =~= "Peer disconnected at "@ + spec_clock(now_ms as int));
        }
        match seen_index_of(&self.peer_last_seen, peer_id) {
            Some(i) => {
                let last = self.peer_last_seen[i].1;
                let dur: i64 = if now_ms >= last {
                    now_ms - last
                } else {
                    0
                };
                text.append(" (Was online for ");
                text.append(format_secs1(dur).as_str());
                text.append("s)");
                proof {
                    let ci = choose|c: int|
                        0 <= c < pre.peer_last_seen.len() && pre.peer_last_seen[c].0 == peer_id@;
                    if ci < i as int {
                        assert(pre.peer_last_seen[ci].0 != pre.peer_last_seen[i as int].0);
                    }
                    if ci > i as int {
                        assert(pre.peer_last_seen[i as int].0 != pre.peer_last_seen[ci].0);
                    }
                    assert(ci == i as int);
                    assert(pre.peer_last_seen[i as int].1 == last);
                    assert(seen_lookup(pre.peer_last_seen, peer_id@) == Some(last));
                    assert(text@ =~= peer_disconnected_text(now_ms as int, Some(dur as int)));
                }
            },
            None => {
                proof {
                    assert(seen_lookup(pre.peer_last_seen, peer_id@) is None);
                    assert(text@ =~= peer_disconnected_text(now_ms as int, None));
                }
            },
        }
        self.add_debug_event("PEER_DISCONNECTED".to_owned(), Some(peer_id.to_owned()), text, now_ms);
        proof {
            assert(self@ =~= (AppStateV {
                peers: crate::model::remove_id(pre.peers, peer_id@),
                debug_events: self@.debug_events,
                ..pre
            }));
        }
    }

    /// How long the peer has been unseen, in milliseconds: `None` while it
    /// is connected or was never seen.
    pub fn get_time_since_last_seen(&self, peer_id: &str, now_ms: i64) -> (r: Option<i64>)
        requires
            self@.wf(),
            now_ms >= 0,
        ensures
            contains_id(self@.peers, peer_id@) ==> r is None,
            !contains_id(self@.peers, peer_id@) ==> r == (
            match seen_lookup(self@.peer_last_seen, peer_id@) {
                Some(last) => Some((now_ms - last) as i64),
                None => None::<i64>,
            }),
    {
        if vec_contains_str(&self.peers, peer_id) {
            return None;
        }
        match seen_index_of(&self.peer_last_seen, peer_id) {
            Some(i) => {
                let last = self.peer_last_seen[i].1;
                proof {
                    let ci = choose|c: int|
                        0 <= c < self@.peer_last_seen.len() && self@.peer_last_seen[c].0
                            == peer_id@;
                    if ci < i as int {
                        assert(self@.peer_last_seen[ci].0 != self@.peer_last_seen[i as int].0);
                    }
                    if ci > i as int {
                        assert(self@.peer_last_seen[i as int].0 != self@.peer_last_seen[ci].0);
                    }
                    assert(ci == i as int);
                    assert(self@.peer_last_seen[i as int].1 >= 0);
                }
                Some(now_ms - last)
            },
            None => None,
        }
    }

    /// Records a friend's latest status and a debug event saying whether the
    /// friend came online or went offline.
    pub fn upsert_friend_status(&mut self, status: PeerStatus, now_ms: i64)
        requires
            old(self)@.wf(),
        ensures
            final(self)@.wf(),
            final(self)@ == (AppStateV {
                friends: friends_upsert(old(self)@.friends, status.peer_id@, status@),
                debug_events: events_push_capped(
                    old(self)@.debug_events,
                    friend_status_event(status@, now_ms),
                ),
                ..old(self)@
            }),
    {
        let ghost pre = self@;
        let ghost sv = status@;
        let key = status.peer_id.clone();
        if status.online {
            let mut text = "Friend online: ".to_owned();
            text.append(status.message.as_str());
            proof {
                assert(text@ =~= friend_online_text(status.message@));
            }
            self.add_debug_event("FRIEND_ONLINE".to_owned(), Some(key.clone()), text, now_ms);
        } else {
            let mut text = "Friend offline: ".to_owned();
            text.append(status.message.as_str());
            proof {
                assert(text@ =~= friend_offline_text(status.message@));
            }
            self.add_debug_event("FRIEND_OFFLINE".to_owned(), Some(key.clone()), text, now_ms);
        }
        let ghost mid = self@;
        proof {
            assert(mid == (AppStateV {
                debug_events: events_push_capped(pre.debug_events, friend_status_event(sv, now_ms)),
                ..pre
            }));
            assert(mid.friends.skip(0) =~= mid.friends);
            assert(mid.friends.take(0) + friends_upsert(mid.friends.skip(0), sv.peer_id, sv)
                =~~= friends_upsert(mid.friends, sv.peer_id, sv));
        }
        let n = self.friends.len();
        let mut i: usize = 0;
        while i < n
            invariant
                pre == old(self)@,
                pre.wf(),
                sv == status@,
                key@ == sv.peer_id,
                mid == (AppStateV {
                    debug_events: events_push_capped(
                        pre.debug_events,
                        friend_status_event(sv, now_ms),
                    ),
                    ..pre
                }),
                self@ == mid,
                mid.wf(),
                n == self.friends@.len(),
                mid.friends.len() == n,
                forall|k: int| 0 <= k < n ==> #[trigger] mid.friends[k] == (
                    self.friends@[k].0@,
                    self.friends@[k].1@,
                ),
                i <= n,
                forall|k: int| 0 <= k < i ==> spec_lex_lt(#[trigger] mid.friends[k].0, sv.peer_id),
                friends_upsert(mid.friends, sv.peer_id, sv) == mid.friends.take(i as int)
                    + friends_upsert(mid.friends.skip(i as int), sv.peer_id, sv),
            decreases n - i,
        {
            if str_eq(self.friends[i].0.as_str(), key.as_str()) {
                proof {
                    assert(mid.friends[i as int].0 == sv.peer_id);
                }
                self.friends.set(i, (key, status));
                proof {
                    assert(self@.friends =~~= mid.friends.update(i as int, (sv.peer_id, sv)));
                    assert(mid.friends.skip(i as int)[0] == mid.friends[i as int]);
                    assert(mid.friends.skip(i as int).drop_first() =~= mid.friends.skip(
                        i as int + 1,
                    ));
                    assert(friends_upsert(mid.friends.skip(i as int), sv.peer_id, sv)
                        =~~= seq![(sv.peer_id, sv)] + mid.friends.skip(i as int + 1));
                    assert(mid.friends.take(i as int) + (seq![(sv.peer_id, sv)]
                        + mid.friends.skip(i as int + 1)) =~~= mid.friends.update(
                        i as int,
                        (sv.peer_id, sv),
                    ));
                    assert(self@.friends =~~= friends_upsert(mid.friends, sv.peer_id, sv));
                    assert forall|a: int, b: int|
                        0 <= a < b < self@.friends.len() implies spec_lex_lt(
                        self@.friends[a].0,
                        self@.friends[b].0,
                    ) by {
                        assert(spec_lex_lt(mid.friends[a].0, mid.friends[b].0));
                    }
                    assert forall|a: int|
                        0 <= a < self@.friends.len() implies self@.friends[a].1.peer_id
                        == self@.friends[a].0 by {
                        if a != i as int {
                            assert(mid.friends[a].1.peer_id == mid.friends[a].0);
                        }
                    }
                    assert(self@ =~~= (AppStateV {
                        friends: friends_upsert(pre.friends, sv.peer_id, sv),
                        debug_events: events_push_capped(
                            pre.debug_events,
                            friend_status_event(sv, now_ms),
                        ),
                        ..pre
                    }));
                }
                return ;
            }
            if lex_less(key.as_str(), self.friends[i].0.as_str()) {
                proof {
                    assert(mid.friends[i as int].0 != sv.peer_id);
                    assert(spec_lex_lt(sv.peer_id, mid.friends[i as int].0));
                }
                self.friends.insert(i, (key, status));
                proof {
                    assert(self@.friends =~~= mid.friends.insert(i as int, (sv.peer_id, sv)));
                    assert(mid.friends.skip(i as int)[0] == mid.friends[i as int]);
                    assert(friends_upsert(mid.friends.skip(i as int), sv.peer_id, sv)
                        =~~= seq![(sv.peer_id, sv)] + mid.friends.skip(i as int));
                    assert(mid.friends.take(i as int) + (seq![(sv.peer_id, sv)]
                        + mid.friends.skip(i as int)) =~~= mid.friends.insert(
                        i as int,
                        (sv.peer_id, sv),
                    ));
                    assert(self@.friends =~~= friends_upsert(mid.friends, sv.peer_id, sv));
                    let nf = self@.friends;
                    let ia = i as int;
                    assert forall|a: int, b: int| 0 <= a < b < nf.len() implies spec_lex_lt(
                        nf[a].0,
                        nf[b].0,
                    ) by {
                        if b < ia {
                            assert(spec_lex_lt(mid.friends[a].0, mid.friends[b].0));
                        } else if b == ia {
                            assert(spec_lex_lt(mid.friends[a].0, sv.peer_id));
                        } else if a < ia {
                            assert(spec_lex_lt(mid.friends[a].0, mid.friends[b - 1].0));
                        } else if a == ia {
                            if b - 1 == ia {
                                assert(spec_lex_lt(sv.peer_id, mid.friends[ia].0));
                            } else {
                                assert(spec_lex_lt(mid.friends[ia].0, mid.friends[b - 1].0));
                                lemma_lex_transitive(
                                    sv.peer_id,
                                    mid.friends[ia].0,
                                    mid.friends[b - 1].0,
                                );
                            }
                        } else {
                            assert(spec_lex_lt(mid.friends[a - 1].0, mid.friends[b - 1].0));
                        }
                    }
                    assert forall|a: int| 0 <= a < nf.len() implies nf[a].1.peer_id
                        == nf[a].0 by {
                        if a < ia {
                            assert(mid.friends[a].1.peer_id == mid.friends[a].0);
                        } else if a > ia {
                            assert(mid.friends[a - 1].1.peer_id == mid.friends[a - 1].0);
                        }
                    }
                    assert(self@ =~~= (AppStateV {
                        friends: friends_upsert(pre.friends, sv.peer_id, sv),
                        debug_events: events_push_capped(
                            pre.debug_events,
                            friend_status_event(sv, now_ms),
                        ),
                        ..pre
                    }));
                }
                return ;
            }
            proof {
                assert(mid.friends[i as int].0 != sv.peer_id);
                assert(!spec_lex_lt(sv.peer_id, mid.friends[i as int].0));
                lemma_lex_trichotomy(sv.peer_id, mid.friends[i as int].0);
                assert(spec_lex_lt(mid.friends[i as int].0, sv.peer_id));
                assert(mid.friends.skip(i as int)[0] == mid.friends[i as int]);
                assert(mid.friends.skip(i as int).drop_first() =~= mid.friends.skip(i as int + 1));
                assert(friends_upsert(mid.friends.skip(i as int), sv.peer_id, sv)
                    =~~= seq![mid.friends[i as int]] + friends_upsert(
                    mid.friends.skip(i as int + 1),
                    sv.peer_id,
                    sv,
                ));
                assert(mid.friends.take(i as int + 1) =~= mid.friends.take(i as int)
                    + seq![mid.friends[i as int]]);
                assert(mid.friends.take(i as int) + (seq![mid.friends[i as int]] + friends_upsert(
                    mid.friends.skip(i as int + 1),
                    sv.peer_id,
                    sv,
                )) =~~= mid.friends.take(i as int + 1) + friends_upsert(
                    mid.friends.skip(i as int + 1),
                    sv.peer_id,
                    sv,
                ));
            }
            i = i + 1;
        }
        proof {
            assert(mid.friends.skip(n as int).len() == 0);
            assert(friends_upsert(mid.friends.skip(n as int), sv.peer_id, sv) =~~= seq![
                (sv.peer_id, sv),
            ]);
            assert(mid.friends.take(n as int) =~= mid.friends);
        }
        self.friends.push((key, status));
        proof {
            assert(self@.friends =~~= mid.friends.push((sv.peer_id, sv)));
            assert(mid.friends + seq![(sv.peer_id, sv)] =~~= mid.friends.push((sv.peer_id, sv)));
            assert(self@.friends =~~= friends_upsert(mid.friends, sv.peer_id, sv));
            assert forall|a: int, b: int|
                0 <= a < b < self@.friends.len() implies spec_lex_lt(
                self@.friends[a].0,
                self@.friends[b].0,
            ) by {
                if b < mid.friends.len() {
                    assert(spec_lex_lt(mid.friends[a].0, mid.friends[b].0));
                } else {
                    assert(spec_lex_lt(mid.friends[a].0, sv.peer_id));
                }
            }
            assert forall|a: int| 0 <= a < self@.friends.len() implies self@.friends[a].1.peer_id
                == self@.friends[a].0 by {
                if a < mid.friends.len() {
                    assert(mid.friends[a].1.peer_id == mid.friends[a].0);
                }
            }
            assert(self@ =~~= (AppStateV {
                friends: friends_upsert(pre.friends, sv.peer_id, sv),
                debug_events: events_push_capped(
                    pre.debug_events,
                    friend_status_event(sv, now_ms),
                ),
                ..pre
            }));
        }
    }

    /// Merges a batch of synced history into the message list and orders the
    /// whole list by send time; the ordering is stable, so messages with
    /// equal send times keep their relative order.
    pub fn push_history(&mut self, history: Vec<ChatMessage>)
        requires
            old(self)@.wf(),
        ensures
            final(self)@.wf(),
            sorted_by_timestamp(final(self)@.messages),
            final(self)@.messages.to_multiset() == (old(self)@.messages + history@.map_values(
                |m: ChatMessage| m@,
            )).to_multiset(),
            forall|t: i64|
                #![trigger at_time(t)]
                final(self)@.messages.filter(at_time(t)) == (old(self)@.messages
                    + history@.map_values(|m: ChatMessage| m@)).filter(at_time(t)),
            final(self)@ == (AppStateV { messages: final(self)@.messages, ..old(self)@ }),
    {
        let ghost pre = self@;
        let mut h = history;
        self.messages.append(&mut h);
        proof {
            assert(self@.messages =~= pre.messages + history@.map_values(|m: ChatMessage| m@));
        }
        let mut msgs: Vec<ChatMessage> = Vec::new();
        core::mem::swap(&mut msgs, &mut self.messages);
        let sorted = sort_messages(msgs);
        self.messages = sorted;
        proof {
            assert(self@ =~= (AppStateV { messages: self@.messages, ..pre }));
        }
    }

    /// The latest status of each friend, in ascending identifier order (the
    /// order the records are kept in).
    pub fn friend_statuses(&self) -> (r: Vec<PeerStatus>)
        ensures
            r@.len() == self@.friends.len(),
            forall|i: int| 0 <= i < r@.len() ==> #[trigger] r@[i]@ == self@.friends[i].1,
    {
        let mut r: Vec<PeerStatus> = Vec::new();
        let mut i: usize = 0;
        while i < self.friends.len()
            invariant
                i <= self.friends@.len(),
                r@.len() == i,
                forall|k: int| 0 <= k < i ==> #[trigger] r@[k]@ == self@.friends[k].1,
            decreases self.friends@.len() - i,
        {
            r.push(self.friends[i].1.clone());
            i = i + 1;
        }
        r
    }
}

} // verus!
