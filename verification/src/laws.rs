use crate::ids::{peer_id_valid, trimmed_of};
use crate::model::{
    count_id, count_pending, count_starts, count_status, lemma_admit, lemma_count_id_absent,
    lemma_count_id_bounds, lemma_count_id_push, lemma_count_pending_absent,
    lemma_count_pending_bounds, lemma_count_pending_remove, lemma_count_starts_concat,
    lemma_count_status_concat, lemma_remove_pending_wf, lemma_starts_have_no_status,
    pending_has_handle, pending_has_peer, spec_add_friend, spec_admit, spec_enqueue,
    spec_resolve, ClientV, MAX_CONCURRENT_FRIEND_QUERIES,
};
use crate::nat_traversal::{
    retry_has_peer, spec_discover_relays_from, spec_reservation_accepted, spec_retry_with_relay,
    take_out_retry, NatV,
};
use crate::strutil::{
    contains_id, insert_id, lemma_insert_id_distinct, lemma_take_out_id_distinct, take_out_id,
};
use crate::types::{ActionV, LookupOutcomeV};
use vstd::prelude::*;

verus! {

/// What queueing a check does: only the queue changes, and the queued-or-
/// outstanding total for the peer becomes one if it was zero.
pub proof fn lemma_enqueue_props(s: ClientV, p: Seq<char>)
    requires
        s.wf(),
    ensures
        ({
            let t = spec_enqueue(s, p);
            &&& t.wf()
            &&& t.friends == s.friends
            &&& t.pending == s.pending
            &&& t.connected == s.connected
            &&& t.enable_chat == s.enable_chat
            &&& t.local_peer_id == s.local_peer_id
            &&& t.next_handle == s.next_handle
            &&& (forall|x: Seq<char>|
                x != p ==> count_id(t.queue, x) + count_pending(t.pending, x) == count_id(
                    s.queue,
                    x,
                ) + count_pending(s.pending, x))
            &&& count_id(t.queue, p) + count_pending(t.pending, p) == (
            if count_id(s.queue, p) + count_pending(s.pending, p) == 0 {
                1int
            } else {
                count_id(s.queue, p) + count_pending(s.pending, p)
            })
        }),
{
    let t = spec_enqueue(s, p);
    lemma_count_id_bounds(s.queue, p);
    lemma_count_pending_bounds(s.pending, p);
    if !(pending_has_peer(s.pending, p) || contains_id(s.queue, p)) {
        assert(t.queue == s.queue.push(p));
        assert forall|x: Seq<char>| x != p implies count_id(t.queue, x) == count_id(
            s.queue,
            x,
        ) by {
            lemma_count_id_push(s.queue, p, x);
        }
        lemma_count_id_push(s.queue, p, p);
        assert forall|i: int, j: int| 0 <= i < j < t.queue.len() implies t.queue[i]
            != t.queue[j] by {
            if j < s.queue.len() {
                assert(s.queue[i] != s.queue[j]);
            }
        }
        assert forall|i: int, j: int|
            0 <= i < t.queue.len() && 0 <= j < t.pending.len() implies t.queue[i]
            != t.pending[j].1 by {
            if i < s.queue.len() {
                assert(s.queue[i] != s.pending[j].1);
            } else {
                assert(t.queue[i] == p);
            }
        }
    }
}

/// What adding a friend does to the friend set and to the checks queued or
/// outstanding for the added identifier.
pub proof fn lemma_add_friend_props(s: ClientV, raw: Seq<char>, now: i64)
    requires
        s.wf(),
    ensures
        ({
            let r = spec_add_friend(s, raw, now);
            let p = trimmed_of(raw);
            &&& r.0.wf()
            &&& r.0.connected == s.connected
            &&& r.0.enable_chat == s.enable_chat
            &&& r.0.local_peer_id == s.local_peer_id
            &&& (p.len() == 0 ==> r.0 == s && r.1 == Seq::<ActionV>::empty())
            &&& (p.len() > 0 && peer_id_valid(p) ==> {
                &&& r.0.friends == insert_id(s.friends, p)
                &&& count_id(r.0.queue, p) + count_pending(r.0.pending, p) == (
                if count_id(s.queue, p) + count_pending(s.pending, p) == 0 {
                    1int
                } else {
                    count_id(s.queue, p) + count_pending(s.pending, p)
                })
                &&& (forall|x: Seq<char>|
                    peer_id_valid(x) && x != p ==> count_id(r.0.queue, x) + count_pending(
                        r.0.pending,
                        x,
                    ) == count_id(s.queue, x) + count_pending(s.pending, x))
                &&& (forall|x: Seq<char>|
                    count_starts(r.1, x) == count_pending(r.0.pending, x) - count_pending(
                        s.pending,
                        x,
                    ))
            })
            &&& (p.len() > 0 && !peer_id_valid(p) ==> r.0 == s && (forall|x: Seq<char>|
                count_starts(r.1, x) == 0))
        }),
{
    let r = spec_add_friend(s, raw, now);
    let p = trimmed_of(raw);
    if p.len() > 0 {
        if peer_id_valid(p) {
            lemma_insert_id_distinct(s.friends, p);
            let was_new = !contains_id(s.friends, p);
            let s1 = if was_new {
                ClientV { friends: s.friends.push(p), ..s }
            } else {
                s
            };
            assert(s1.friends == insert_id(s.friends, p));
            assert(s1.wf());
            let persist: Seq<ActionV> = if was_new {
                seq![ActionV::PersistFriends { friends: s1.friends }]
            } else {
                seq![]
            };
            assert forall|x: Seq<char>| #[trigger] count_starts(persist, x) == 0 by {
                reveal_with_fuel(count_starts, 2);
                if was_new {
                    assert(persist.drop_first() =~= Seq::<ActionV>::empty());
                }
            }
            let s2 = spec_enqueue(s1, p);
            lemma_enqueue_props(s1, p);
            lemma_admit(s2);
            let ra = spec_admit(s2);
            let checking = seq![
                crate::model::status_action(p, false, crate::model::checking_msg(), now),
            ];
            assert(r.1 == persist + checking + ra.1);
            assert forall|x: Seq<char>| #[trigger] count_starts(r.1, x) == count_pending(
                r.0.pending,
                x,
            ) - count_pending(s.pending, x) by {
                lemma_count_starts_concat(persist + checking, ra.1, x);
                lemma_count_starts_concat(persist, checking, x);
                assert(count_starts(checking, x) == 0) by {
                    reveal_with_fuel(count_starts, 2);
                    assert(checking.drop_first() =~= Seq::<ActionV>::empty());
                }
            }
        } else {
            assert forall|x: Seq<char>| #[trigger] count_starts(r.1, x) == 0 by {
                reveal_with_fuel(count_starts, 2);
                let status = seq![
                    crate::model::status_action(p, false, crate::model::invalid_id_msg(), now),
                ];
                assert(r.1 == status);
                assert(status.drop_first() =~= Seq::<ActionV>::empty());
            }
        }
    }
}

/// Idempotent friend add: adding the same valid identifier twice leaves the
/// friend set as after the first add, keeps at most one check queued or
/// outstanding for it, and starts at most one lookup for it over both calls.
pub proof fn lemma_add_friend_idempotent(s: ClientV, raw: Seq<char>, now1: i64, now2: i64)
    requires
        s.wf(),
        trimmed_of(raw).len() > 0,
        peer_id_valid(trimmed_of(raw)),
    ensures
        ({
            let r1 = spec_add_friend(s, raw, now1);
            let r2 = spec_add_friend(r1.0, raw, now2);
            let p = trimmed_of(raw);
            &&& r2.0.friends == r1.0.friends
            &&& count_id(r2.0.queue, p) + count_pending(r2.0.pending, p) <= 1
            &&& count_starts(r1.1, p) + count_starts(r2.1, p) + count_id(r2.0.queue, p) <= 1
        }),
{
    let p = trimmed_of(raw);
    let r1 = spec_add_friend(s, raw, now1);
    let r2 = spec_add_friend(r1.0, raw, now2);
    lemma_add_friend_props(s, raw, now1);
    lemma_add_friend_props(r1.0, raw, now2);
    lemma_insert_id_distinct(s.friends, p);
    lemma_insert_id_distinct(r1.0.friends, p);
    assert(contains_id(r1.0.friends, p));
    assert(r2.0.friends =~= r1.0.friends);
    lemma_count_id_bounds(s.queue, p);
    lemma_count_pending_bounds(s.pending, p);
    lemma_count_id_bounds(r1.0.queue, p);
    lemma_count_pending_bounds(r1.0.pending, p);
    lemma_count_id_bounds(r2.0.queue, p);
    lemma_count_pending_bounds(r2.0.pending, p);
}

// ---------------------------------------------------------------------------
// Bounded concurrency over arbitrary operation sequences.
// ---------------------------------------------------------------------------
/// One scheduler operation: queueing a check, admitting from the queue,
/// adding a friend, or resolving a completed lookup.
pub enum SchedulerOp {
    Enqueue { peer_id: Seq<char> },
    Admit,
    AddFriend { raw: Seq<char>, now: i64 },
    Resolve { handle: u64, outcome: LookupOutcomeV, now: i64 },
}

/// The state after one scheduler operation.
pub open spec fn apply_op(s: ClientV, op: SchedulerOp) -> ClientV {
    match op {
        SchedulerOp::Enqueue { peer_id } => spec_enqueue(s, peer_id),
        SchedulerOp::Admit => spec_admit(s).0,
        SchedulerOp::AddFriend { raw, now } => spec_add_friend(s, raw, now).0,
        SchedulerOp::Resolve { handle, outcome, now } => spec_resolve(s, handle, outcome, now).0,
    }
}

/// The state after a sequence of scheduler operations.
pub open spec fn apply_ops(s: ClientV, ops: Seq<SchedulerOp>) -> ClientV
    decreases ops.len(),
{
    if ops.len() == 0 {
        s
    } else {
        apply_ops(apply_op(s, ops[0]), ops.drop_first())
    }
}

/// Resolution preserves well-formedness.
pub proof fn lemma_resolve_wf(s: ClientV, h: u64, outcome: LookupOutcomeV, now: i64)
    requires
        s.wf(),
    ensures
        spec_resolve(s, h, outcome, now).0.wf(),
{
    if pending_has_handle(s.pending, h) {
        let i = choose|i: int| 0 <= i < s.pending.len() && s.pending[i].0 == h;
        lemma_remove_pending_wf(s, i);
        lemma_admit(ClientV { pending: s.pending.remove(i), ..s });
    }
}

/// What resolving a completed lookup does, in a state where every queued and
/// outstanding identifier is valid and the handle counter has room.
pub proof fn lemma_resolve_props(s: ClientV, h: u64, outcome: LookupOutcomeV, now: i64)
    requires
        s.wf(),
        pending_has_handle(s.pending, h),
        forall|i: int| 0 <= i < s.queue.len() ==> peer_id_valid(#[trigger] s.queue[i]),
        forall|i: int| 0 <= i < s.pending.len() ==> peer_id_valid(#[trigger] s.pending[i].1),
        s.next_handle + s.queue.len() <= u64::MAX,
    ensures
        ({
            let r = spec_resolve(s, h, outcome, now);
            let i = choose|i: int| 0 <= i < s.pending.len() && s.pending[i].0 == h;
            let peer = s.pending[i].1;
            &&& r.0.wf()
            &&& (forall|x: Seq<char>|
                count_status(r.1, x) == if x == peer {
                    1int
                } else {
                    0int
                })
            &&& (forall|x: Seq<char>|
                peer_id_valid(x) ==> count_id(r.0.queue, x) + count_pending(r.0.pending, x)
                    == count_id(s.queue, x) + count_pending(s.pending, x) - (
                if x == peer {
                    1int
                } else {
                    0int
                }))
            &&& r.0.queue.len() + r.0.pending.len() == s.queue.len() + s.pending.len() - 1
            &&& (forall|k: int| 0 <= k < r.0.queue.len() ==> peer_id_valid(#[trigger] r.0.queue[k]))
            &&& (forall|k: int|
                0 <= k < r.0.pending.len() ==> peer_id_valid(#[trigger] r.0.pending[k].1))
            &&& r.0.next_handle + r.0.queue.len() <= u64::MAX
            &&& (r.0.queue.len() > 0 ==> r.0.pending.len() == MAX_CONCURRENT_FRIEND_QUERIES)
        }),
{
    let r = spec_resolve(s, h, outcome, now);
    let i = choose|i: int| 0 <= i < s.pending.len() && s.pending[i].0 == h;
    let peer = s.pending[i].1;
    let mid = ClientV { pending: s.pending.remove(i), ..s };
    lemma_remove_pending_wf(s, i);
    assert forall|k: int| 0 <= k < mid.pending.len() implies peer_id_valid(
        #[trigger] mid.pending[k].1,
    ) by {
        let k0 = if k < i {
            k
        } else {
            k + 1
        };
        assert(mid.pending[k] == s.pending[k0]);
        assert(peer_id_valid(s.pending[k0].1));
    }
    lemma_admit(mid);
    let ra = spec_admit(mid);
    let status = seq![
        ActionV::Emit {
            event: crate::types::EventV::FriendStatus {
                status: crate::model::status_of_outcome(peer, outcome, now),
            },
        },
    ];
    assert(r.1 == status + ra.1);
    assert forall|x: Seq<char>| count_status(r.1, x) == (
    if x == peer {
        1int
    } else {
        0int
    }) by {
        lemma_count_status_concat(status, ra.1, x);
        assert(count_status(status, x) == if x == peer {
            1int
        } else {
            0int
        }) by {
            reveal_with_fuel(count_status, 2);
            assert(status.drop_first() =~= Seq::<ActionV>::empty());
        }
        lemma_starts_have_no_status(ra.1, x);
    }
    assert forall|x: Seq<char>| peer_id_valid(x) implies count_id(r.0.queue, x) + count_pending(
        r.0.pending,
        x,
    ) == count_id(s.queue, x) + count_pending(s.pending, x) - (
    if x == peer {
        1int
    } else {
        0int
    }) by {
        lemma_count_pending_remove(s.pending, i, x);
    }
}

/// Resolving the outstanding lookups in order, feeding each its result and
/// letting every freed slot be backfilled from the queue.
pub open spec fn spec_drain(s: ClientV, results: Seq<LookupOutcomeV>, now: i64) -> (
    ClientV,
    Seq<ActionV>,
)
    decreases results.len(),
{
    if results.len() == 0 || s.pending.len() == 0 {
        (s, seq![])
    } else {
        let r = spec_resolve(s, s.pending[0].0, results[0], now);
        let rest = spec_drain(r.0, results.drop_first(), now);
        (rest.0, r.1 + rest.1)
    }
}

/// The queue drains to completion: with every queued or outstanding
/// identifier valid, no new arrivals, enough results, and room in the handle
/// counter, draining leaves nothing queued or outstanding, and each
/// identifier is reported resolved exactly as often as it was held.
pub proof fn lemma_queue_drains(s: ClientV, results: Seq<LookupOutcomeV>, now: i64)
    requires
        s.wf(),
        forall|i: int| 0 <= i < s.queue.len() ==> peer_id_valid(#[trigger] s.queue[i]),
        forall|i: int| 0 <= i < s.pending.len() ==> peer_id_valid(#[trigger] s.pending[i].1),
        s.next_handle + s.queue.len() <= u64::MAX,
        s.queue.len() > 0 ==> s.pending.len() == MAX_CONCURRENT_FRIEND_QUERIES,
        results.len() >= s.queue.len() + s.pending.len(),
    ensures
        ({
            let d = spec_drain(s, results, now);
            &&& d.0.queue.len() == 0
            &&& d.0.pending.len() == 0
            &&& (forall|x: Seq<char>|
                count_status(d.1, x) == count_id(s.queue, x) + count_pending(s.pending, x))
        }),
    decreases results.len(),
{
    let d = spec_drain(s, results, now);
    if s.pending.len() == 0 {
        assert(s.queue.len() == 0);
        assert forall|x: Seq<char>| count_status(d.1, x) == count_id(s.queue, x) + count_pending(
            s.pending,
            x,
        ) by {
            assert(count_status(d.1, x) == 0);
            assert(count_id(s.queue, x) == 0);
            assert(count_pending(s.pending, x) == 0);
        }
    } else {
        let h = s.pending[0].0;
        assert(pending_has_handle(s.pending, h));
        let ci = choose|c: int| 0 <= c < s.pending.len() && s.pending[c].0 == h;
        if ci != 0 {
            assert(s.pending[0].0 != s.pending[ci].0);
        }
        assert(ci == 0);
        let peer = s.pending[0].1;
        lemma_resolve_props(s, h, results[0], now);
        let r = spec_resolve(s, h, results[0], now);
        lemma_queue_drains(r.0, results.drop_first(), now);
        let rest = spec_drain(r.0, results.drop_first(), now);
        assert forall|x: Seq<char>| count_status(d.1, x) == count_id(s.queue, x) + count_pending(
            s.pending,
            x,
        ) by {
            lemma_count_status_concat(r.1, rest.1, x);
            if !peer_id_valid(x) {
                lemma_count_id_absent(s.queue, x);
                lemma_count_pending_absent(s.pending, x);
                lemma_count_id_absent(r.0.queue, x);
                lemma_count_pending_absent(r.0.pending, x);
                assert(peer_id_valid(peer));
                assert(x != peer);
            }
        }
    }
}

/// Bounded concurrency: starting from any well-formed state, any sequence of
/// scheduler operations leaves a well-formed state, so the number of
/// simultaneously outstanding lookups never exceeds the bound. For the bound
/// after any prefix, instantiate this lemma with that prefix.
pub proof fn lemma_bounded_concurrency(s: ClientV, ops: Seq<SchedulerOp>)
    requires
        s.wf(),
    ensures
        apply_ops(s, ops).wf(),
        apply_ops(s, ops).pending.len() <= MAX_CONCURRENT_FRIEND_QUERIES,
    decreases ops.len(),
{
    if ops.len() == 0 {
    } else {
        let t = apply_op(s, ops[0]);
        match ops[0] {
            SchedulerOp::Enqueue { peer_id } => {
                lemma_enqueue_props(s, peer_id);
            },
            SchedulerOp::Admit => {
                lemma_admit(s);
            },
            SchedulerOp::AddFriend { raw, now } => {
                lemma_add_friend_props(s, raw, now);
            },
            SchedulerOp::Resolve { handle, outcome, now } => {
                lemma_resolve_wf(s, handle, outcome, now);
            },
        }
        lemma_bounded_concurrency(t, ops.drop_first());
    }
}

// ---------------------------------------------------------------------------
// NAT retry exclusivity.
// ---------------------------------------------------------------------------
/// How many relay retries are under way for `x`.
pub open spec fn count_retries(retries: Seq<(Seq<char>, Seq<Seq<char>>)>, x: Seq<char>) -> int
    decreases retries.len(),
{
    if retries.len() == 0 {
        0
    } else {
        count_retries(retries.drop_first(), x) + if retries[0].0 == x {
            1int
        } else {
            0int
        }
    }
}

/// With unique retry keys, no peer has more than one retry under way.
pub proof fn lemma_count_retries_bounds(retries: Seq<(Seq<char>, Seq<Seq<char>>)>, x: Seq<char>)
    ensures
        0 <= count_retries(retries, x),
        (forall|i: int, j: int| 0 <= i < j < retries.len() ==> retries[i].0 != retries[j].0)
            ==> count_retries(retries, x) <= 1,
    decreases retries.len(),
{
    if retries.len() > 0 {
        let tail = retries.drop_first();
        lemma_count_retries_bounds(tail, x);
        if (forall|i: int, j: int| 0 <= i < j < retries.len() ==> retries[i].0 != retries[j].0) {
            assert forall|i: int, j: int| 0 <= i < j < tail.len() implies tail[i].0
                != tail[j].0 by {
                assert(retries[i + 1].0 != retries[j + 1].0);
            }
            if retries[0].0 == x {
                assert forall|k: int| 0 <= k < tail.len() implies tail[k].0 != x by {
                    assert(retries[0].0 != retries[k + 1].0);
                }
                lemma_count_retries_absent(tail, x);
            }
        }
    }
}

/// A peer with no retry entry has zero retries under way.
pub proof fn lemma_count_retries_absent(retries: Seq<(Seq<char>, Seq<Seq<char>>)>, x: Seq<char>)
    requires
        forall|k: int| 0 <= k < retries.len() ==> retries[k].0 != x,
    ensures
        count_retries(retries, x) == 0,
    decreases retries.len(),
{
    if retries.len() > 0 {
        assert forall|k: int| 0 <= k < retries.drop_first().len() implies retries.drop_first()[k].0
            != x by {
            assert(retries[k + 1].0 != x);
        }
        lemma_count_retries_absent(retries.drop_first(), x);
    }
}

/// One coordinator operation.
pub enum CoordinatorOp {
    ReservationAccepted { relay: Seq<char> },
    Retry { peer: Seq<char>, connected: Seq<Seq<char>> },
    DialFailed { peer: Seq<char> },
    MarkFailed { peer: Seq<char> },
    ClearFailed { peer: Seq<char> },
}

/// The coordinator state after one operation.
pub open spec fn apply_coordinator_op(s: NatV, op: CoordinatorOp) -> NatV {
    match op {
        CoordinatorOp::ReservationAccepted { relay } => spec_reservation_accepted(s, relay).0,
        CoordinatorOp::Retry { peer, connected } => spec_retry_with_relay(s, peer, connected).0,
        CoordinatorOp::DialFailed { peer } => NatV {
            retries: take_out_retry(s.retries, peer),
            ..s
        },
        CoordinatorOp::MarkFailed { peer } => NatV {
            failed_direct: insert_id(s.failed_direct, peer),
            ..s
        },
        CoordinatorOp::ClearFailed { peer } => NatV {
            failed_direct: take_out_id(s.failed_direct, peer),
            retries: take_out_retry(s.retries, peer),
            ..s
        },
    }
}

/// The coordinator state after a sequence of operations.
pub open spec fn apply_coordinator_ops(s: NatV, ops: Seq<CoordinatorOp>) -> NatV
    decreases ops.len(),
{
    if ops.len() == 0 {
        s
    } else {
        apply_coordinator_ops(apply_coordinator_op(s, ops[0]), ops.drop_first())
    }
}

/// Relay discovery preserves well-formedness and touches only the relay set.
pub proof fn lemma_discover_props(s: NatV, k: int)
    requires
        s.wf(),
    ensures
        spec_discover_relays_from(s, k).wf(),
        spec_discover_relays_from(s, k).retries == s.retries,
        spec_discover_relays_from(s, k).failed_direct == s.failed_direct,
        spec_discover_relays_from(s, k).bootstrap == s.bootstrap,
    decreases s.bootstrap.len() - k,
{
    if 0 <= k < s.bootstrap.len() {
        lemma_insert_id_distinct(s.relays, s.bootstrap[k].0);
        lemma_discover_props(NatV { relays: insert_id(s.relays, s.bootstrap[k].0), ..s }, k + 1);
    }
}

/// Dropping a retry entry keeps the keys unique and removes the peer's entry.
pub proof fn lemma_take_out_retry_props(retries: Seq<(Seq<char>, Seq<Seq<char>>)>, x: Seq<char>)
    requires
        forall|i: int, j: int| 0 <= i < j < retries.len() ==> retries[i].0 != retries[j].0,
    ensures
        forall|i: int, j: int|
            0 <= i < j < take_out_retry(retries, x).len() ==> take_out_retry(retries, x)[i].0
                != take_out_retry(retries, x)[j].0,
        !retry_has_peer(take_out_retry(retries, x), x),
{
    let out = take_out_retry(retries, x);
    if retry_has_peer(retries, x) {
        let i = choose|i: int| 0 <= i < retries.len() && retries[i].0 == x;
        assert forall|a: int, b: int| 0 <= a < b < out.len() implies out[a].0 != out[b].0 by {
            let a0 = if a < i {
                a
            } else {
                a + 1
            };
            let b0 = if b < i {
                b
            } else {
                b + 1
            };
            assert(retries[a0].0 != retries[b0].0);
        }
        assert forall|a: int| 0 <= a < out.len() implies out[a].0 != x by {
            let a0 = if a < i {
                a
            } else {
                a + 1
            };
            assert(out[a] == retries[a0]);
            if a0 != i && retries[a0].0 == x {
                if a0 < i {
                    assert(retries[a0].0 != retries[i].0);
                } else {
                    assert(retries[i].0 != retries[a0].0);
                }
            }
        }
    }
}

/// One coordinator operation preserves well-formedness.
pub proof fn lemma_coordinator_op_wf(s: NatV, op: CoordinatorOp)
    requires
        s.wf(),
    ensures
        apply_coordinator_op(s, op).wf(),
{
    match op {
        CoordinatorOp::ReservationAccepted { relay } => {
            lemma_insert_id_distinct(s.relays, relay);
        },
        CoordinatorOp::Retry { peer, connected } => {
            if contains_id(connected, peer) || retry_has_peer(s.retries, peer) {
            } else if s.relays.len() > 0 {
                let t = spec_retry_with_relay(s, peer, connected).0;
                assert forall|i: int, j: int| 0 <= i < j < t.retries.len() implies t.retries[i].0
                    != t.retries[j].0 by {
                    if j < s.retries.len() {
                        assert(s.retries[i].0 != s.retries[j].0);
                    } else {
                        assert(t.retries[j].0 == peer);
                    }
                }
            } else {
                lemma_discover_props(s, 0);
            }
        },
        CoordinatorOp::DialFailed { peer } => {
            lemma_take_out_retry_props(s.retries, peer);
        },
        CoordinatorOp::MarkFailed { peer } => {
            lemma_insert_id_distinct(s.failed_direct, peer);
        },
        CoordinatorOp::ClearFailed { peer } => {
            lemma_take_out_id_distinct(s.failed_direct, peer);
            lemma_take_out_retry_props(s.retries, peer);
        },
    }
}

/// NAT retry exclusivity: from any well-formed coordinator state, any
/// sequence of operations keeps at most one relay retry under way per peer.
/// For the bound after any prefix, instantiate this lemma with that prefix.
pub proof fn lemma_retry_exclusivity(s: NatV, ops: Seq<CoordinatorOp>)
    requires
        s.wf(),
    ensures
        apply_coordinator_ops(s, ops).wf(),
        forall|p: Seq<char>| count_retries(apply_coordinator_ops(s, ops).retries, p) <= 1,
    decreases ops.len(),
{
    if ops.len() == 0 {
    } else {
        lemma_coordinator_op_wf(s, ops[0]);
        lemma_retry_exclusivity(apply_coordinator_op(s, ops[0]), ops.drop_first());
    }
    assert forall|p: Seq<char>| count_retries(apply_coordinator_ops(s, ops).retries, p) <= 1 by {
        lemma_count_retries_bounds(apply_coordinator_ops(s, ops).retries, p);
    }
}

/// A peer in the connection registry is never selected for retry: the
/// coordinator neither changes state nor dials anything for it.
pub proof fn lemma_connected_never_retried(s: NatV, peer: Seq<char>, connected: Seq<Seq<char>>)
    requires
        contains_id(connected, peer),
    ensures
        spec_retry_with_relay(s, peer, connected).0 == s,
        spec_retry_with_relay(s, peer, connected).1 == Seq::<ActionV>::empty(),
{
    assert(spec_retry_with_relay(s, peer, connected).1 =~= Seq::<ActionV>::empty());
}

} // verus!
