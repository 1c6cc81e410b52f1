use crate::strutil::{contains_id, str_eq, vec_contains_str};
use vstd::prelude::*;

verus! {

/// Mathematical view of the bootstrap node's registry: each discovered peer
/// with the set of addresses seen for it.
#[verifier::ext_equal]
pub struct NodeV {
    pub peers: Seq<(Seq<char>, Seq<Seq<char>>)>,
    pub local_peer_id: Option<Seq<char>>,
}

impl NodeV {
    /// Well-formedness: one entry per peer, and no address twice per peer.
    pub open spec fn wf(self) -> bool {
        &&& (forall|i: int, j: int| 0 <= i < j < self.peers.len() ==> self.peers[i].0
            != self.peers[j].0)
        &&& (forall|i: int|
            0 <= i < self.peers.len() ==> crate::strutil::distinct_ids(#[trigger] self.peers[i].1))
    }
}

/// The registry after one address observation: a new peer gains an entry
/// with that one address; a known peer's entry gains the address unless it
/// is already recorded.
pub open spec fn spec_record(
    s: Seq<(Seq<char>, Seq<Seq<char>>)>,
    peer: Seq<char>,
    addr: Seq<char>,
) -> Seq<(Seq<char>, Seq<Seq<char>>)> {
    if exists|i: int| 0 <= i < s.len() && s[i].0 == peer {
        let i = choose|i: int| 0 <= i < s.len() && s[i].0 == peer;
        if contains_id(s[i].1, addr) {
            s
        } else {
            s.update(i, (peer, s[i].1.push(addr)))
        }
    } else {
        s.push((peer, seq![addr]))
    }
}

/// The registry after a batch of address observations, in order.
pub open spec fn spec_record_all(
    s: Seq<(Seq<char>, Seq<Seq<char>>)>,
    peer: Seq<char>,
    addrs: Seq<Seq<char>>,
) -> Seq<(Seq<char>, Seq<Seq<char>>)>
    decreases addrs.len(),
{
    if addrs.len() == 0 {
        s
    } else {
        spec_record_all(spec_record(s, peer, addrs[0]), peer, addrs.drop_first())
    }
}

/// The bootstrap node's in-memory registry of discovered peers and their
/// addresses, fed by identify exchanges and routing-table updates.
pub struct BootstrapNode {
    peers: Vec<(String, Vec<String>)>,
    local_peer_id: Option<String>,
}

impl View for BootstrapNode {
    type V = NodeV;

    closed spec fn view(&self) -> NodeV {
        NodeV {
            peers: self.peers.deep_view(),
            local_peer_id: match self.local_peer_id {
                Some(ref s) => Some(s@),
                None => None,
            },
        }
    }
}

impl BootstrapNode {
    /// A fresh registry that knows no peers.
    pub fn new() -> (n: BootstrapNode)
        ensures
            n@ == (NodeV { peers: Seq::empty(), local_peer_id: None }),
            n@.wf(),
    {
        let n = BootstrapNode { peers: Vec::new(), local_peer_id: None };
        proof {
            assert(n@ =~= (NodeV { peers: Seq::empty(), local_peer_id: None }));
        }
        n
    }

    /// Records the node's own identity once known.
    pub fn set_local_peer_id(&mut self, id: String)
        ensures
            final(self)@ == (NodeV { local_peer_id: Some(id@), ..old(self)@ }),
    {
        self.local_peer_id = Some(id);
        proof {
            assert(self@ =~= (NodeV { local_peer_id: Some(id@), ..old(self)@ }));
        }
    }

    /// The node's own identity, once known.
    pub fn local_peer_id(&self) -> (r: &Option<String>)
        ensures
            match r {
                Some(s) => self@.local_peer_id == Some(s@),
                None => self@.local_peer_id is None,
            },
    {
        &self.local_peer_id
    }

    /// Records one advertised address for a peer.
    pub fn record_peer_address(&mut self, peer: &str, addr: &str)
        requires
            old(self)@.wf(),
        ensures
            final(self)@.wf(),
            final(self)@ == (NodeV {
                peers: spec_record(old(self)@.peers, peer@, addr@),
                ..old(self)@
            }),
    {
        let ghost pre = self@;
        let mut i: usize = 0;
        let n = self.peers.len();
        while i < n
            invariant
                pre == old(self)@,
                self@ == pre,
                pre.wf(),
                n == self.peers@.len(),
                pre.peers.len() == n,
                forall|k: int| 0 <= k < n ==> #[trigger] pre.peers[k] == (
                    self.peers@[k].0@,
                    self.peers@[k].1.deep_view(),
                ),
                i <= n,
                forall|k: int| 0 <= k < i ==> pre.peers[k].0 != peer@,
            decreases n - i,
        {
            if str_eq(self.peers[i].0.as_str(), peer) {
                proof {
                    assert(pre.peers[i as int].0 == peer@);
                    let ci = choose|c: int| 0 <= c < pre.peers.len() && pre.peers[c].0 == peer@;
                    if ci < i as int {
                        assert(pre.peers[ci].0 != pre.peers[i as int].0);
                    }
                    if ci > i as int {
                        assert(pre.peers[i as int].0 != pre.peers[ci].0);
                    }
                    assert(ci == i as int);
                }
                if vec_contains_str(&self.peers[i].1, addr) {
                    proof {
                        assert(self@ =~~= (NodeV {
                            peers: spec_record(pre.peers, peer@, addr@),
                            ..pre
                        }));
                    }
                    return ;
                }
                let mut entry = (String::new(), Vec::new());
                core::mem::swap(&mut entry, &mut self.peers[i]);
                entry.1.push(addr.to_owned());
                let ghost addrs1 = entry.1.deep_view();
                self.peers.set(i, entry);
                proof {
                    assert(addrs1 =~= pre.peers[i as int].1.push(addr@));
                    assert(self@.peers =~~= pre.peers.update(
                        i as int,
                        (peer@, pre.peers[i as int].1.push(addr@)),
                    ));
                    assert(self@ =~~= (NodeV {
                        peers: spec_record(pre.peers, peer@, addr@),
                        ..pre
                    }));
                    assert forall|a: int, b: int|
                        0 <= a < b < self@.peers.len() implies self@.peers[a].0
                        != self@.peers[b].0 by {
                        assert(pre.peers[a].0 != pre.peers[b].0);
                    }
                    assert forall|a: int|
                        0 <= a < self@.peers.len() implies crate::strutil::distinct_ids(
                        #[trigger] self@.peers[a].1,
                    ) by {
                        if a == i as int {
                            let lst = pre.peers[i as int].1;
                            assert(!contains_id(lst, addr@));
                            assert forall|x: int, y: int|
                                0 <= x < y < lst.push(addr@).len() implies lst.push(addr@)[x]
                                != lst.push(addr@)[y] by {
                                if y < lst.len() {
                                    assert(lst[x] != lst[y]);
                                }
                            }
                        } else {
                            assert(crate::strutil::distinct_ids(pre.peers[a].1));
                        }
                    }
                }
                return ;
            }
            i = i + 1;
        }
        let mut addrs: Vec<String> = Vec::new();
        addrs.push(addr.to_owned());
        self.peers.push((peer.to_owned(), addrs));
        proof {
            assert(!(exists|c: int| 0 <= c < pre.peers.len() && pre.peers[c].0 == peer@));
            assert(self@.peers =~~= pre.peers.push((peer@, seq![addr@])));
            assert(self@ =~~= (NodeV { peers: spec_record(pre.peers, peer@, addr@), ..pre }));
            assert forall|a: int, b: int| 0 <= a < b < self@.peers.len() implies self@.peers[a].0
                != self@.peers[b].0 by {
                if b < pre.peers.len() {
                    assert(pre.peers[a].0 != pre.peers[b].0);
                }
            }
            assert forall|a: int|
                0 <= a < self@.peers.len() implies crate::strutil::distinct_ids(
                #[trigger] self@.peers[a].1,
            ) by {
                if a < pre.peers.len() {
                    assert(crate::strutil::distinct_ids(pre.peers[a].1));
                }
            }
        }
    }

    /// Records every address a peer advertised.
    pub fn record_peer_addresses(&mut self, peer: &str, addrs: &Vec<String>)
        requires
            old(self)@.wf(),
        ensures
            final(self)@.wf(),
            final(self)@ == (NodeV {
                peers: spec_record_all(old(self)@.peers, peer@, addrs.deep_view()),
                ..old(self)@
            }),
    {
        let ghost pre = self@;
        let ghost all = addrs.deep_view();
        let mut k: usize = 0;
        proof {
            assert(all.skip(0) =~= all);
        }
        while k < addrs.len()
            invariant
                pre == old(self)@,
                all == addrs.deep_view(),
                all.len() == addrs@.len(),
                forall|t: int| 0 <= t < all.len() ==> all[t] == #[trigger] addrs@[t]@,
                k <= all.len(),
                self@.wf(),
                self@.local_peer_id == pre.local_peer_id,
                spec_record_all(self@.peers, peer@, all.skip(k as int)) == spec_record_all(
                    pre.peers,
                    peer@,
                    all,
                ),
            decreases all.len() - k,
        {
            self.record_peer_address(peer, addrs[k].as_str());
            proof {
                assert(all.skip(k as int).drop_first() =~= all.skip(k as int + 1));
                assert(all.skip(k as int)[0] == all[k as int]);
            }
            k = k + 1;
        }
        proof {
            assert(all.skip(all.len() as int) =~= Seq::<Seq<char>>::empty());
            assert(self@ =~= (NodeV {
                peers: spec_record_all(pre.peers, peer@, all),
                ..pre
            }));
        }
    }

    /// How many distinct peers have been discovered.
    pub fn known_peers_count(&self) -> (n: usize)
        ensures
            n == self@.peers.len(),
    {
        self.peers.len()
    }

    /// The discovered peers with their recorded addresses.
    pub fn known_peers(&self) -> (r: &Vec<(String, Vec<String>)>)
        ensures
            r.deep_view() == self@.peers,
    {
        &self.peers
    }
}

} // verus!
