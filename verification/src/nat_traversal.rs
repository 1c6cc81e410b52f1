use crate::addr::{relay_dial_addr, relay_listen_addr};
use crate::strutil::{contains_id, distinct_ids, index_of_str, insert_id, str_eq, take_out_id,
    vec_contains_str};
use crate::types::{acts_view, Action, ActionV};
use vstd::prelude::*;

verus! {

/// Mathematical state of the NAT traversal coordinator.
#[verifier::ext_equal]
pub struct NatV {
    /// Peers whose direct connection attempts failed.
    pub failed_direct: Seq<Seq<char>>,
    /// Peers known to offer relay service.
    pub relays: Seq<Seq<char>>,
    /// Peers with a relay retry under way, with the addresses being dialed.
    pub retries: Seq<(Seq<char>, Seq<Seq<char>>)>,
    /// The bootstrap peers, as (peer, address) pairs.
    pub bootstrap: Seq<(Seq<char>, Seq<char>)>,
}

/// A relay retry for `x` is under way.
pub open spec fn retry_has_peer(retries: Seq<(Seq<char>, Seq<Seq<char>>)>, x: Seq<char>) -> bool {
    exists|i: int| 0 <= i < retries.len() && retries[i].0 == x
}

impl NatV {
    /// Well-formedness: the failed and relay sets hold no duplicates, and no
    /// peer has more than one relay retry under way.
    pub open spec fn wf(self) -> bool {
        &&& distinct_ids(self.failed_direct)
        &&& distinct_ids(self.relays)
        &&& (forall|i: int, j: int|
            0 <= i < j < self.retries.len() ==> self.retries[i].0 != self.retries[j].0)
    }
}

/// The relay circuit address a retry for `target` through `relay` dials.
pub open spec fn spec_relay_dial(relay: Seq<char>, target: Seq<char>) -> Seq<char> {
    "/p2p/"@ + relay + "/p2p-circuit/p2p/"@ + target
}

/// The circuit address this node listens on through `relay`.
pub open spec fn spec_relay_listen(relay: Seq<char>) -> Seq<char> {
    "/p2p/"@ + relay + "/p2p-circuit"@
}

/// Removing a peer's retry entry.
pub open spec fn take_out_retry(
    retries: Seq<(Seq<char>, Seq<Seq<char>>)>,
    x: Seq<char>,
) -> Seq<(Seq<char>, Seq<Seq<char>>)> {
    if retry_has_peer(retries, x) {
        retries.remove(choose|i: int| 0 <= i < retries.len() && retries[i].0 == x)
    } else {
        retries
    }
}

/// A reservation acceptance: the relay is recorded and this node starts
/// listening on the relay circuit so inbound dials can reach it.
pub open spec fn spec_reservation_accepted(s: NatV, relay: Seq<char>) -> (NatV, Seq<ActionV>) {
    (
        NatV { relays: insert_id(s.relays, relay), ..s },
        seq![ActionV::ListenOn { address: spec_relay_listen(relay) }],
    )
}

/// A relay retry: nothing happens for a peer that is connected or already
/// being retried; with a relay known, the first one is picked and the
/// circuit address dialed; with none, the bootstrap peers are marked as
/// relay candidates.
pub open spec fn spec_retry_with_relay(s: NatV, peer: Seq<char>, connected: Seq<Seq<char>>) -> (
    NatV,
    Seq<ActionV>,
) {
    if contains_id(connected, peer) || retry_has_peer(s.retries, peer) {
        (s, seq![])
    } else if s.relays.len() > 0 {
        let addr = spec_relay_dial(s.relays[0], peer);
        (
            NatV { retries: s.retries.push((peer, seq![addr])), ..s },
            seq![ActionV::DialRelay { peer_id: peer, address: addr }],
        )
    } else {
        (spec_discover_relays(s), seq![])
    }
}

/// Marking every bootstrap peer as a relay candidate.
pub open spec fn spec_discover_relays_from(s: NatV, k: int) -> NatV
    decreases s.bootstrap.len() - k,
{
    if k < 0 || k >= s.bootstrap.len() {
        s
    } else {
        spec_discover_relays_from(
            NatV { relays: insert_id(s.relays, s.bootstrap[k].0), ..s },
            k + 1,
        )
    }
}

pub open spec fn spec_discover_relays(s: NatV) -> NatV {
    spec_discover_relays_from(s, 0)
}

/// The executable NAT traversal coordinator. It decides how to escalate a
/// failed direct connection toward relay-assisted connectivity; the driver
/// performs the returned actions.
pub struct NatTraversal {
    failed_direct_connections: Vec<String>,
    relay_peers: Vec<String>,
    pending_relay_retries: Vec<(String, Vec<String>)>,
    bootstrap_peers: Vec<(String, String)>,
}

impl View for NatTraversal {
    type V = NatV;

    closed spec fn view(&self) -> NatV {
        NatV {
            failed_direct: self.failed_direct_connections.deep_view(),
            relays: self.relay_peers.deep_view(),
            retries: self.pending_relay_retries.deep_view(),
            bootstrap: self.bootstrap_peers.deep_view(),
        }
    }
}

/// Whether a relay retry for `x` is under way.
fn retries_contain_peer(v: &Vec<(String, Vec<String>)>, x: &str) -> (r: bool)
    ensures
        r == retry_has_peer(v.deep_view(), x@),
{
    let mut i: usize = 0;
    while i < v.len()
        invariant
            i <= v@.len(),
            v.deep_view().len() == v@.len(),
            forall|k: int| 0 <= k < v@.len() ==> #[trigger] v.deep_view()[k] == (
                v@[k].0@,
                v@[k].1.deep_view(),
            ),
            forall|k: int| 0 <= k < i ==> v@[k].0@ != x@,
        decreases v@.len() - i,
    {
        if str_eq(v[i].0.as_str(), x) {
            proof {
                assert(v.deep_view()[i as int].0 == x@);
            }
            return true;
        }
        i = i + 1;
    }
    false
}

impl NatTraversal {
    /// Sets up the coordinator over the configured bootstrap peers.
    pub fn new(bootstrap_peers: Vec<(String, String)>) -> (c: NatTraversal)
        ensures
            c@ == (NatV {
                failed_direct: Seq::empty(),
                relays: Seq::empty(),
                retries: Seq::empty(),
                bootstrap: bootstrap_peers.deep_view(),
            }),
            c@.wf(),
    {
        let c = NatTraversal {
            failed_direct_connections: Vec::new(),
            relay_peers: Vec::new(),
            pending_relay_retries: Vec::new(),
            bootstrap_peers,
        };
        proof {
            assert(c@ =~= (NatV {
                failed_direct: Seq::empty(),
                relays: Seq::empty(),
                retries: Seq::empty(),
                bootstrap: c.bootstrap_peers.deep_view(),
            }));
        }
        c
    }

    /// A relay accepted this node's reservation: record the relay and start
    /// listening on the relay circuit for inbound connections.
    pub fn handle_reservation_accepted(&mut self, relay_peer: &str) -> (acts: Vec<Action>)
        requires
            old(self)@.wf(),
        ensures
            final(self)@.wf(),
            final(self)@ == spec_reservation_accepted(old(self)@, relay_peer@).0,
            acts_view(acts@) == spec_reservation_accepted(old(self)@, relay_peer@).1,
    {
        let ghost pre = self@;
        self.insert_relay(relay_peer);
        let mut acts: Vec<Action> = Vec::new();
        acts.push(Action::ListenOn { address: relay_listen_addr(relay_peer) });
        proof {
            assert(acts_view(acts@) =~= spec_reservation_accepted(pre, relay_peer@).1);
        }
        acts
    }

    /// Adds a relay candidate, keeping the set duplicate-free.
    fn insert_relay(&mut self, relay_peer: &str)
        requires
            old(self)@.wf(),
        ensures
            final(self)@.wf(),
            final(self)@ == (NatV { relays: insert_id(old(self)@.relays, relay_peer@), ..old(self)@ }),
    {
        let ghost pre = self@;
        if !vec_contains_str(&self.relay_peers, relay_peer) {
            self.relay_peers.push(relay_peer.to_owned());
            proof {
                assert(self@.relays =~= pre.relays.push(relay_peer@));
                assert(self@ =~= (NatV { relays: pre.relays.push(relay_peer@), ..pre }));
                assert forall|i: int, j: int|
                    0 <= i < j < self@.relays.len() implies self@.relays[i]
                    != self@.relays[j] by {
                    if j < pre.relays.len() {
                        assert(pre.relays[i] != pre.relays[j]);
                    }
                }
            }
        } else {
            proof {
                assert(self@ =~= (NatV { relays: insert_id(pre.relays, relay_peer@), ..pre }));
            }
        }
    }

    /// Retries a peer over a relay circuit: skipped when the peer is already
    /// connected or already being retried; with no relay known, bootstrap
    /// peers are marked as candidates instead of dialing.
    pub fn retry_with_relay(&mut self, peer: &str, connected: &Vec<String>) -> (acts: Vec<Action>)
        requires
            old(self)@.wf(),
        ensures
            final(self)@.wf(),
            final(self)@ == spec_retry_with_relay(old(self)@, peer@, connected.deep_view()).0,
            acts_view(acts@) == spec_retry_with_relay(old(self)@, peer@, connected.deep_view()).1,
            contains_id(connected.deep_view(), peer@) ==> acts@.len() == 0 && final(self)@ == old(
                self,
            )@,
            retry_has_peer(final(self)@.retries, peer@) ==> retry_has_peer(
                old(self)@.retries,
                peer@,
            ) || !contains_id(connected.deep_view(), peer@),
    {
        let ghost pre = self@;
        let mut acts: Vec<Action> = Vec::new();
        if vec_contains_str(connected, peer) || retries_contain_peer(
            &self.pending_relay_retries,
            peer,
        ) {
            proof {
                assert(acts_view(acts@) =~= spec_retry_with_relay(
                    pre,
                    peer@,
                    connected.deep_view(),
                ).1);
            }
            return acts;
        }
        if self.relay_peers.len() > 0 {
            let relay = self.relay_peers[0].clone();
            let address = relay_dial_addr(relay.as_str(), peer);
            let mut addrs: Vec<String> = Vec::new();
            addrs.push(address.clone());
            self.pending_relay_retries.push((peer.to_owned(), addrs));
            acts.push(Action::DialRelay { peer_id: peer.to_owned(), address });
            proof {
                assert(pre.relays[0] == self.relay_peers@[0]@);
                assert(relay@ == pre.relays[0]);
                assert(address@ == spec_relay_dial(pre.relays[0], peer@));
                assert(self@.retries =~~= pre.retries.push(
                    (peer@, seq![spec_relay_dial(pre.relays[0], peer@)]),
                ));
                assert(self@ =~~= spec_retry_with_relay(pre, peer@, connected.deep_view()).0);
                assert(acts_view(acts@) =~= spec_retry_with_relay(
                    pre,
                    peer@,
                    connected.deep_view(),
                ).1);
                assert forall|i: int, j: int|
                    0 <= i < j < self@.retries.len() implies self@.retries[i].0
                    != self@.retries[j].0 by {
                    if j < pre.retries.len() {
                        assert(pre.retries[i].0 != pre.retries[j].0);
                    }
                }
            }
        } else {
            self.discover_relay_peers();
            proof {
                assert(acts_view(acts@) =~= spec_retry_with_relay(
                    pre,
                    peer@,
                    connected.deep_view(),
                ).1);
            }
        }
        acts
    }

    /// A relay dial that failed to start clears the retry entry so a later
    /// trigger can attempt the peer again.
    pub fn relay_dial_failed(&mut self, peer: &str)
        requires
            old(self)@.wf(),
        ensures
            final(self)@.wf(),
            final(self)@ == (NatV {
                retries: take_out_retry(old(self)@.retries, peer@),
                ..old(self)@
            }),
            !retry_has_peer(final(self)@.retries, peer@),
    {
        self.remove_retry(peer);
    }

    /// Marks every bootstrap peer as a relay candidate; candidates are
    /// confirmed when a reservation is accepted.
    fn discover_relay_peers(&mut self)
        requires
            old(self)@.wf(),
        ensures
            final(self)@.wf(),
            final(self)@ == spec_discover_relays(old(self)@),
            final(self)@.failed_direct == old(self)@.failed_direct,
            final(self)@.retries == old(self)@.retries,
            final(self)@.bootstrap == old(self)@.bootstrap,
    {
        let ghost pre = self@;
        let n = self.bootstrap_peers.len();
        let mut k: usize = 0;
        while k < n
            invariant
                pre.wf(),
                self@.wf(),
                n == self.bootstrap_peers@.len(),
                self@.bootstrap == pre.bootstrap,
                self@.failed_direct == pre.failed_direct,
                self@.retries == pre.retries,
                k <= n,
                spec_discover_relays_from(self@, k as int) == spec_discover_relays_from(pre, 0),
            decreases n - k,
        {
            let ghost mid = self@;
            let p = self.bootstrap_peers[k].0.clone();
            self.insert_relay(p.as_str());
            proof {
                assert(mid.bootstrap[k as int].0 == p@);
                assert(self@ =~= (NatV { relays: insert_id(mid.relays, mid.bootstrap[k as int].0), ..mid }));
            }
            k = k + 1;
        }
    }

    /// Records that a direct connection attempt to the peer failed.
    pub fn mark_failed_direct(&mut self, peer: &str)
        requires
            old(self)@.wf(),
        ensures
            final(self)@.wf(),
            final(self)@ == (NatV {
                failed_direct: insert_id(old(self)@.failed_direct, peer@),
                ..old(self)@
            }),
    {
        let ghost pre = self@;
        if !vec_contains_str(&self.failed_direct_connections, peer) {
            self.failed_direct_connections.push(peer.to_owned());
            proof {
                assert(self@.failed_direct =~= pre.failed_direct.push(peer@));
                assert(self@ =~= (NatV {
                    failed_direct: pre.failed_direct.push(peer@),
                    ..pre
                }));
                assert forall|i: int, j: int|
                    0 <= i < j < self@.failed_direct.len() implies self@.failed_direct[i]
                    != self@.failed_direct[j] by {
                    if j < pre.failed_direct.len() {
                        assert(pre.failed_direct[i] != pre.failed_direct[j]);
                    }
                }
            }
        } else {
            proof {
                assert(self@ =~= (NatV {
                    failed_direct: insert_id(pre.failed_direct, peer@),
                    ..pre
                }));
            }
        }
    }

    /// A connection to the peer succeeded on some path: clear its failure
    /// mark and any retry under way, allowing a clean cycle later.
    pub fn clear_failed_direct(&mut self, peer: &str)
        requires
            old(self)@.wf(),
        ensures
            final(self)@.wf(),
            final(self)@ == (NatV {
                failed_direct: take_out_id(old(self)@.failed_direct, peer@),
                retries: take_out_retry(old(self)@.retries, peer@),
                ..old(self)@
            }),
            !contains_id(final(self)@.failed_direct, peer@),
            !retry_has_peer(final(self)@.retries, peer@),
    {
        let ghost pre = self@;
        match index_of_str(&self.failed_direct_connections, peer) {
            Some(i) => {
                let ghost fd = pre.failed_direct;
                let _gone = self.failed_direct_connections.remove(i);
                proof {
                    assert(self@.failed_direct =~= fd.remove(i as int));
                    let ci = choose|c: int| 0 <= c < fd.len() && fd[c] == peer@;
                    assert(fd[i as int] == peer@);
                    assert(contains_id(fd, peer@));
                    if ci < i as int {
                        assert(fd[ci] != fd[i as int]);
                    }
                    if ci > i as int {
                        assert(fd[i as int] != fd[ci]);
                    }
                    assert(ci == i as int);
                    assert forall|a: int, b: int|
                        0 <= a < b < self@.failed_direct.len() implies self@.failed_direct[a]
                        != self@.failed_direct[b] by {
                        let a0 = if a < i as int { a } else { a + 1 };
                        let b0 = if b < i as int { b } else { b + 1 };
                        assert(fd[a0] != fd[b0]);
                    }
                    assert forall|a: int|
                        0 <= a < self@.failed_direct.len() implies self@.failed_direct[a]
                        != peer@ by {
                        let a0 = if a < i as int { a } else { a + 1 };
                        assert(self@.failed_direct[a] == fd[a0]);
                        if a0 != i as int && fd[a0] == peer@ {
                            if a0 < i as int {
                                assert(fd[a0] != fd[i as int]);
                            } else {
                                assert(fd[i as int] != fd[a0]);
                            }
                        }
                    }
                    assert(self@ =~= (NatV {
                        failed_direct: take_out_id(pre.failed_direct, peer@),
                        ..pre
                    }));
                }
            },
            None => {
                proof {
                    assert(self@ =~= (NatV {
                        failed_direct: take_out_id(pre.failed_direct, peer@),
                        ..pre
                    }));
                }
            },
        }
        let ghost mid = self@;
        self.remove_retry(peer);
        proof {
            assert(self@ =~= (NatV {
                failed_direct: take_out_id(pre.failed_direct, peer@),
                retries: take_out_retry(pre.retries, peer@),
                ..pre
            }));
        }
    }

    /// Whether the peer has a failed direct connection on record.
    pub fn has_failed_direct(&self, peer: &str) -> (r: bool)
        ensures
            r == contains_id(self@.failed_direct, peer@),
    {
        vec_contains_str(&self.failed_direct_connections, peer)
    }

    /// The relay peers known so far.
    pub fn relay_peer_count(&self) -> (n: usize)
        ensures
            n == self@.relays.len(),
    {
        self.relay_peers.len()
    }

    /// Whether a relay retry for the peer is under way.
    pub fn has_pending_retry(&self, peer: &str) -> (r: bool)
        ensures
            r == retry_has_peer(self@.retries, peer@),
    {
        retries_contain_peer(&self.pending_relay_retries, peer)
    }

    /// Removes the peer's retry entry, if any.
    fn remove_retry(&mut self, peer: &str) -> (removed: bool)
        requires
            old(self)@.wf(),
        ensures
            final(self)@.wf(),
            final(self)@ == (NatV {
                retries: take_out_retry(old(self)@.retries, peer@),
                ..old(self)@
            }),
            !retry_has_peer(final(self)@.retries, peer@),
            removed == retry_has_peer(old(self)@.retries, peer@),
    {
        let ghost pre = self@;
        let mut i: usize = 0;
        let n = self.pending_relay_retries.len();
        while i < n
            invariant
                pre == old(self)@,
                self@ == pre,
                pre.wf(),
                n == self.pending_relay_retries@.len(),
                pre.retries.len() == n,
                forall|k: int| 0 <= k < n ==> #[trigger] pre.retries[k] == (
                    self.pending_relay_retries@[k].0@,
                    self.pending_relay_retries@[k].1.deep_view(),
                ),
                i <= n,
                forall|k: int| 0 <= k < i ==> pre.retries[k].0 != peer@,
            decreases n - i,
        {
            if str_eq(self.pending_relay_retries[i].0.as_str(), peer) {
                let _gone = self.pending_relay_retries.remove(i);
                proof {
                    assert(self@.retries =~= pre.retries.remove(i as int));
                    assert(pre.retries[i as int].0 == peer@);
                    assert(retry_has_peer(pre.retries, peer@));
                    let ci = choose|c: int| 0 <= c < pre.retries.len() && pre.retries[c].0
                        == peer@;
                    if ci < i as int {
                        assert(pre.retries[ci].0 != pre.retries[i as int].0);
                    }
                    if ci > i as int {
                        assert(pre.retries[i as int].0 != pre.retries[ci].0);
                    }
                    assert(ci == i as int);
                    assert forall|a: int, b: int|
                        0 <= a < b < self@.retries.len() implies self@.retries[a].0
                        != self@.retries[b].0 by {
                        let a0 = if a < i as int { a } else { a + 1 };
                        let b0 = if b < i as int { b } else { b + 1 };
                        assert(pre.retries[a0].0 != pre.retries[b0].0);
                    }
                    assert forall|a: int| 0 <= a < self@.retries.len() implies self@.retries[a].0
                        != peer@ by {
                        let a0 = if a < i as int { a } else { a + 1 };
                        assert(self@.retries[a] == pre.retries[a0]);
                        if a0 != i as int && pre.retries[a0].0 == peer@ {
                            if a0 < i as int {
                                assert(pre.retries[a0].0 != pre.retries[i as int].0);
                            } else {
                                assert(pre.retries[i as int].0 != pre.retries[a0].0);
                            }
                        }
                    }
                    assert(self@ =~= (NatV {
                        retries: take_out_retry(pre.retries, peer@),
                        ..pre
                    }));
                }
                return true;
            }
            i = i + 1;
        }
        proof {
            assert(!retry_has_peer(pre.retries, peer@));
            assert(self@ =~= (NatV { retries: take_out_retry(pre.retries, peer@), ..pre }));
        }
        false
    }
}

} // verus!
