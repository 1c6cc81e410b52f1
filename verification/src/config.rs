use crate::addr::{
    any_peer_component_at, first_p2p_component, has_trailing_peer, peer_component_at,
    spec_trailing_base, spec_trailing_peer, split_trailing_peer,
};
use crate::ids::{is_valid_multiaddr, multiaddr_valid};
use crate::types::BootstrapNode;
use vstd::prelude::*;

verus! {

/// Maps loaded bootstrap-node records to the plain addresses they carry.
pub fn load_bootstrap_nodes_from_db(nodes: Vec<BootstrapNode>) -> (addrs: Vec<String>)
    ensures
        addrs@.len() == nodes@.len(),
        forall|i: int| 0 <= i < nodes@.len() ==> addrs@[i]@ == nodes@[i].address@,
{
    let mut addrs: Vec<String> = Vec::new();
    let mut k: usize = 0;
    while k < nodes.len()
        invariant
            k <= nodes@.len(),
            addrs@.len() == k,
            forall|i: int| 0 <= i < k ==> addrs@[i]@ == nodes@[i].address@,
        decreases nodes@.len() - k,
    {
        addrs.push(nodes[k].address.clone());
        k = k + 1;
    }
    addrs
}

/// The bootstrap entries that parse as addresses with a trailing peer
/// identifier, split into the identifier and the base address.
pub open spec fn spec_parse_bootstrap(entries: Seq<Seq<char>>) -> Seq<(Seq<char>, Seq<char>)>
    decreases entries.len(),
{
    if entries.len() == 0 {
        seq![]
    } else {
        let rest = spec_parse_bootstrap(entries.drop_first());
        let e = entries[0];
        if multiaddr_valid(e) && has_trailing_peer(e) {
            seq![(spec_trailing_peer(e).unwrap(), spec_trailing_base(e))] + rest
        } else {
            rest
        }
    }
}

/// Parses configured bootstrap entries: each well-formed address ending in a
/// peer component yields that peer and the address without the suffix;
/// malformed entries and entries without a peer suffix are dropped.
pub fn parse_bootstrap_peers(entries: &Vec<String>) -> (r: Vec<(String, String)>)
    ensures
        r.deep_view() == spec_parse_bootstrap(entries.deep_view()),
{
    let ghost all = entries.deep_view();
    let mut r: Vec<(String, String)> = Vec::new();
    let mut k: usize = 0;
    proof {
        assert(all.skip(0) =~= all);
        assert(r.deep_view() + spec_parse_bootstrap(all) =~= spec_parse_bootstrap(all));
    }
    while k < entries.len()
        invariant
            all == entries.deep_view(),
            all.len() == entries@.len(),
            forall|t: int| 0 <= t < all.len() ==> all[t] == #[trigger] entries@[t]@,
            k <= all.len(),
            r.deep_view() + spec_parse_bootstrap(all.skip(k as int)) == spec_parse_bootstrap(all),
        decreases all.len() - k,
    {
        let ghost pre = r.deep_view();
        if is_valid_multiaddr(entries[k].as_str()) {
            match split_trailing_peer(entries[k].as_str()) {
                Some(pair) => {
                    r.push((pair.1, pair.0));
                    proof {
                        assert(r.deep_view() =~~= pre.push(
                            (spec_trailing_peer(all[k as int]).unwrap(), spec_trailing_base(
                                all[k as int],
                            )),
                        ));
                    }
                },
                None => {},
            }
        }
        proof {
            assert(all.skip(k as int).drop_first() =~= all.skip(k as int + 1));
            assert(all.skip(k as int)[0] == all[k as int]);
            assert(r.deep_view() + spec_parse_bootstrap(all.skip(k as int + 1))
                =~~= spec_parse_bootstrap(all));
        }
        k = k + 1;
    }
    proof {
        assert(all.skip(all.len() as int) =~= Seq::<Seq<char>>::empty());
        assert(r.deep_view() + spec_parse_bootstrap(all.skip(all.len() as int)) =~~= r.deep_view());
    }
    r
}

// ---------------------------------------------------------------------------
// Rewriting private IPv4 addresses to a public one.
// ---------------------------------------------------------------------------
/// The three private IPv4 blocks whose addresses a bootstrap announcement
/// must not carry.
#[derive(Clone, Copy, Debug)]
pub enum PrivateNet {
    /// 10.0.0.0/8
    TenSlashEight,
    /// 172.16.0.0/12
    SeventyTwoSlashTwelve,
    /// 192.168.0.0/16
    OneNinetyTwoSlashSixteen,
}

/// A decimal digit.
pub open spec fn is_digit(c: char) -> bool {
    c == '0' || c == '1' || c == '2' || c == '3' || c == '4' || c == '5' || c == '6' || c == '7'
        || c == '8' || c == '9'
}

/// `e` ends the maximal digit run starting at `b`.
pub open spec fn is_run_end(s: Seq<char>, b: int, e: int) -> bool {
    &&& b <= e <= s.len()
    &&& (forall|k: int| b <= k < e ==> is_digit(s[k]))
    &&& (e == s.len() || !is_digit(s[e]))
}

/// A digit run has exactly one end.
pub proof fn lemma_run_end_unique(s: Seq<char>, b: int, e1: int, e2: int)
    requires
        is_run_end(s, b, e1),
        is_run_end(s, b, e2),
    ensures
        e1 == e2,
{
    if e1 < e2 {
        assert(is_digit(s[e1]));
    }
    if e2 < e1 {
        assert(is_digit(s[e2]));
    }
}

/// The literal first octet of each private block.
pub open spec fn octet1_text(net: PrivateNet) -> Seq<char> {
    match net {
        PrivateNet::TenSlashEight => "10"@,
        PrivateNet::SeventyTwoSlashTwelve => "172"@,
        PrivateNet::OneNinetyTwoSlashSixteen => "192"@,
    }
}

/// The second octet of the 172.16.0.0/12 block: two digits between 16 and 31.
pub open spec fn second_octet_172(r: Seq<char>) -> bool {
    r.len() == 2 && ((r[0] == '1' && (r[1] == '6' || r[1] == '7' || r[1] == '8' || r[1] == '9')) || (
    r[0] == '2' && is_digit(r[1])) || (r[0] == '3' && (r[1] == '0' || r[1] == '1')))
}

/// The second octet of a private-block match, spanning `a` to `e`.
pub open spec fn octet2_at(s: Seq<char>, a: int, e: int, net: PrivateNet) -> bool {
    match net {
        PrivateNet::TenSlashEight => is_run_end(s, a, e) && e > a,
        PrivateNet::SeventyTwoSlashTwelve => e == a + 2 && e <= s.len() && second_octet_172(
            s.subrange(a, e),
        ),
        PrivateNet::OneNinetyTwoSlashSixteen => e == a + 3 && e <= s.len() && s.subrange(a, e)
            == "168"@,
    }
}

/// A private address of the block opens at `i`: `/ip4/` followed by the
/// block's octets, the trailing two octets being digit runs; the match ends
/// at `e4`.
pub open spec fn net_match_at(
    s: Seq<char>,
    i: int,
    e2: int,
    e3: int,
    e4: int,
    net: PrivateNet,
) -> bool {
    let p0 = i + 5;
    let o1 = octet1_text(net);
    let q1 = p0 + o1.len();
    {
        &&& 0 <= i
        &&& i + 5 <= s.len()
        &&& s.subrange(i, p0) == "/ip4/"@
        &&& q1 < s.len()
        &&& q1 <= s.len() && s.subrange(p0, q1) == o1
        &&& s[q1] == '.'
        &&& octet2_at(s, q1 + 1, e2, net)
        &&& e2 < s.len() && s[e2] == '.'
        &&& is_run_end(s, e2 + 1, e3) && e3 > e2 + 1
        &&& e3 < s.len() && s[e3] == '.'
        &&& is_run_end(s, e3 + 1, e4) && e4 > e3 + 1
        &&& e4 <= s.len()
    }
}

/// Some match of the block opens at `i`.
pub open spec fn net_match_starts_at(s: Seq<char>, i: int, net: PrivateNet) -> bool {
    exists|e2: int, e3: int, e4: int| net_match_at(s, i, e2, e3, e4, net)
}

/// Some match of the block opens at `i` and ends at `e4`.
pub open spec fn net_match_ends_at(s: Seq<char>, i: int, e4: int, net: PrivateNet) -> bool {
    exists|e2: int, e3: int| net_match_at(s, i, e2, e3, e4, net)
}

/// Where the match opening at `i` ends.
pub open spec fn net_match_end(s: Seq<char>, i: int, net: PrivateNet) -> int {
    choose|e4: int| net_match_ends_at(s, i, e4, net)
}

/// A match's octet boundaries are unique.
pub proof fn lemma_net_match_unique(
    s: Seq<char>,
    i: int,
    net: PrivateNet,
    e2: int,
    e3: int,
    e4: int,
    f2: int,
    f3: int,
    f4: int,
)
    requires
        net_match_at(s, i, e2, e3, e4, net),
        net_match_at(s, i, f2, f3, f4, net),
    ensures
        e2 == f2,
        e3 == f3,
        e4 == f4,
{
    let q1 = i + 5 + octet1_text(net).len();
    match net {
        PrivateNet::TenSlashEight => {
            lemma_run_end_unique(s, q1 + 1, e2, f2);
        },
        PrivateNet::SeventyTwoSlashTwelve => {},
        PrivateNet::OneNinetyTwoSlashSixteen => {},
    }
    lemma_run_end_unique(s, e2 + 1, e3, f3);
    lemma_run_end_unique(s, e3 + 1, e4, f4);
}

/// The text with the first match of the block at or after `i` replaced by
/// `/ip4/<ip>`.
pub open spec fn spec_replace_net_from(s: Seq<char>, i: int, net: PrivateNet, ip: Seq<char>) -> Seq<
    char,
>
    decreases s.len() - i,
{
    if !(0 <= i <= s.len()) {
        s
    } else if i == s.len() {
        s
    } else if net_match_starts_at(s, i, net) {
        s.subrange(0, i) + "/ip4/"@ + ip + s.subrange(net_match_end(s, i, net), s.len() as int)
    } else {
        spec_replace_net_from(s, i + 1, net, ip)
    }
}

/// The text with its first match of the block replaced by `/ip4/<ip>`.
pub open spec fn spec_replace_net(s: Seq<char>, net: PrivateNet, ip: Seq<char>) -> Seq<char> {
    spec_replace_net_from(s, 0, net, ip)
}

/// The public-IP rewrite: with a public address known, the first occurrence
/// of each private block, handled block by block, is replaced by it.
pub open spec fn spec_public_rewrite(s: Seq<char>, public: Option<Seq<char>>) -> Seq<char> {
    match public {
        None => s,
        Some(ip) => spec_replace_net(
            spec_replace_net(
                spec_replace_net(s, PrivateNet::TenSlashEight, ip),
                PrivateNet::SeventyTwoSlashTwelve,
                ip,
            ),
            PrivateNet::OneNinetyTwoSlashSixteen,
            ip,
        ),
    }
}

/// Whether the character at `k` is a decimal digit.
fn digit_at(s: &str, k: usize) -> (r: bool)
    requires
        k < s@.len(),
    ensures
        r == is_digit(s@[k as int]),
{
    let c = s.get_char(k);
    c == '0' || c == '1' || c == '2' || c == '3' || c == '4' || c == '5' || c == '6' || c == '7'
        || c == '8' || c == '9'
}

/// Finds the end of the maximal digit run starting at `b`.
fn run_end(s: &str, b: usize) -> (e: usize)
    requires
        b <= s@.len(),
    ensures
        is_run_end(s@, b as int, e as int),
        b <= e <= s@.len(),
{
    let n = s.unicode_len();
    let mut e = b;
    while e < n
        invariant
            b <= e <= n,
            n == s@.len(),
            forall|k: int| b <= k < e ==> is_digit(s@[k]),
        decreases n - e,
    {
        if !digit_at(s, e) {
            return e;
        }
        e = e + 1;
    }
    e
}

/// Checks for a match of the block at `i` and finds its end.
fn net_match_extent(s: &str, i: usize, net: PrivateNet) -> (r: Option<usize>)
    requires
        i <= s@.len(),
    ensures
        match r {
            Some(e4) => net_match_starts_at(s@, i as int, net) && e4 as int == net_match_end(
                s@,
                i as int,
                net,
            ) && i < e4 <= s@.len(),
            None => !net_match_starts_at(s@, i as int, net),
        },
{
    proof {
        reveal_strlit("/ip4/");
        reveal_strlit("10");
        reveal_strlit("172");
        reveal_strlit("192");
        reveal_strlit("168");
    }
    let n = s.unicode_len();
    if n < 5 || i > n - 5 {
        return None;
    }
    if !(s.get_char(i) == '/' && s.get_char(i + 1) == 'i' && s.get_char(i + 2) == 'p' && s.get_char(
        i + 3,
    ) == '4' && s.get_char(i + 4) == '/') {
        proof {
            assert forall|e2: int, e3: int, e4: int|
                !net_match_at(s@, i as int, e2, e3, e4, net) by {
                if net_match_at(s@, i as int, e2, e3, e4, net) {
                    let w = s@.subrange(i as int, i as int + 5);
                    assert(w[0] == '/');
                    assert(w[1] == 'i');
                    assert(w[2] == 'p');
                    assert(w[3] == '4');
                    assert(w[4] == '/');
                }
            }
        }
        return None;
    }
    let p0 = i + 5;
    // the literal first octet and its dot
    let q1: usize = match net {
        PrivateNet::TenSlashEight => {
            if n - p0 > 2 && s.get_char(p0) == '1' && s.get_char(p0 + 1) == '0' {
                p0 + 2
            } else {
                proof {
                    assert forall|e2: int, e3: int, e4: int|
                        !net_match_at(s@, i as int, e2, e3, e4, net) by {
                        if net_match_at(s@, i as int, e2, e3, e4, net) {
                            let o = s@.subrange(p0 as int, p0 as int + 2);
                            assert(o[0] == '1');
                            assert(o[1] == '0');
                        }
                    }
                }
                return None;
            }
        },
        PrivateNet::SeventyTwoSlashTwelve => {
            if n - p0 > 3 && s.get_char(p0) == '1' && s.get_char(p0 + 1) == '7' && s.get_char(
                p0 + 2,
            ) == '2' {
                p0 + 3
            } else {
                proof {
                    assert forall|e2: int, e3: int, e4: int|
                        !net_match_at(s@, i as int, e2, e3, e4, net) by {
                        if net_match_at(s@, i as int, e2, e3, e4, net) {
                            let o = s@.subrange(p0 as int, p0 as int + 3);
                            assert(o[0] == '1');
                            assert(o[1] == '7');
                            assert(o[2] == '2');
                        }
                    }
                }
                return None;
            }
        },
        PrivateNet::OneNinetyTwoSlashSixteen => {
            if n - p0 > 3 && s.get_char(p0) == '1' && s.get_char(p0 + 1) == '9' && s.get_char(
                p0 + 2,
            ) == '2' {
                p0 + 3
            } else {
                proof {
                    assert forall|e2: int, e3: int, e4: int|
                        !net_match_at(s@, i as int, e2, e3, e4, net) by {
                        if net_match_at(s@, i as int, e2, e3, e4, net) {
                            let o = s@.subrange(p0 as int, p0 as int + 3);
                            assert(o[0] == '1');
                            assert(o[1] == '9');
                            assert(o[2] == '2');
                        }
                    }
                }
                return None;
            }
        },
    };
    proof {
        assert(s@.subrange(i as int, i as int + 5) =~= "/ip4/"@);
        assert(s@.subrange(p0 as int, q1 as int) =~= octet1_text(net));
    }
    if s.get_char(q1) != '.' {
        return None;
    }
    let a2 = q1 + 1;
    // the second octet
    let e2: usize = match net {
        PrivateNet::TenSlashEight => {
            let e2 = run_end(s, a2);
            if e2 == a2 {
                proof {
                    assert forall|x2: int, e3: int, e4: int|
                        !net_match_at(s@, i as int, x2, e3, e4, net) by {
                        if net_match_at(s@, i as int, x2, e3, e4, net) {
                            lemma_run_end_unique(s@, a2 as int, x2, e2 as int);
                        }
                    }
                }
                return None;
            }
            e2
        },
        PrivateNet::SeventyTwoSlashTwelve => {
            let ok = n - a2 > 1 && ((s.get_char(a2) == '1' && (s.get_char(a2 + 1) == '6'
                || s.get_char(a2 + 1) == '7' || s.get_char(a2 + 1) == '8' || s.get_char(a2 + 1)
                == '9')) || (s.get_char(a2) == '2' && digit_at(s, a2 + 1)) || (s.get_char(a2) == '3'
                && (s.get_char(a2 + 1) == '0' || s.get_char(a2 + 1) == '1')));
            if !ok {
                proof {
                    assert forall|x2: int, e3: int, e4: int|
                        !net_match_at(s@, i as int, x2, e3, e4, net) by {
                        if net_match_at(s@, i as int, x2, e3, e4, net) {
                            let o = s@.subrange(a2 as int, a2 as int + 2);
                            assert(o[0] == s@[a2 as int]);
                            assert(o[1] == s@[a2 as int + 1]);
                        }
                    }
                }
                return None;
            }
            proof {
                assert(second_octet_172(s@.subrange(a2 as int, a2 as int + 2)));
            }
            a2 + 2
        },
        PrivateNet::OneNinetyTwoSlashSixteen => {
            let ok = n - a2 > 2 && s.get_char(a2) == '1' && s.get_char(a2 + 1) == '6' && s.get_char(
                a2 + 2,
            ) == '8';
            if !ok {
                proof {
                    assert forall|x2: int, e3: int, e4: int|
                        !net_match_at(s@, i as int, x2, e3, e4, net) by {
                        if net_match_at(s@, i as int, x2, e3, e4, net) {
                            let o = s@.subrange(a2 as int, a2 as int + 3);
                            assert(o[0] == '1');
                            assert(o[1] == '6');
                            assert(o[2] == '8');
                        }
                    }
                }
                return None;
            }
            proof {
                assert(s@.subrange(a2 as int, a2 as int + 3) =~= "168"@);
            }
            a2 + 3
        },
    };
    proof {
        assert(octet2_at(s@, a2 as int, e2 as int, net));
    }
    if e2 >= n || s.get_char(e2) != '.' {
        proof {
            assert forall|x2: int, e3: int, e4: int|
                !net_match_at(s@, i as int, x2, e3, e4, net) by {
                if net_match_at(s@, i as int, x2, e3, e4, net) {
                    lemma_octet2_unique(s@, a2 as int, x2, e2 as int, net);
                }
            }
        }
        return None;
    }
    let e3 = run_end(s, e2 + 1);
    if e3 == e2 + 1 || e3 >= n || s.get_char(e3) != '.' {
        proof {
            assert forall|x2: int, x3: int, e4: int|
                !net_match_at(s@, i as int, x2, x3, e4, net) by {
                if net_match_at(s@, i as int, x2, x3, e4, net) {
                    lemma_octet2_unique(s@, a2 as int, x2, e2 as int, net);
                    lemma_run_end_unique(s@, e2 as int + 1, x3, e3 as int);
                }
            }
        }
        return None;
    }
    let e4 = run_end(s, e3 + 1);
    if e4 == e3 + 1 {
        proof {
            assert forall|x2: int, x3: int, x4: int|
                !net_match_at(s@, i as int, x2, x3, x4, net) by {
                if net_match_at(s@, i as int, x2, x3, x4, net) {
                    lemma_octet2_unique(s@, a2 as int, x2, e2 as int, net);
                    lemma_run_end_unique(s@, e2 as int + 1, x3, e3 as int);
                    lemma_run_end_unique(s@, e3 as int + 1, x4, e4 as int);
                }
            }
        }
        return None;
    }
    proof {
        assert(net_match_at(s@, i as int, e2 as int, e3 as int, e4 as int, net));
        assert(net_match_ends_at(s@, i as int, e4 as int, net));
        let m4 = net_match_end(s@, i as int, net);
        assert(net_match_ends_at(s@, i as int, m4, net));
        let w = choose|x2: int, x3: int| net_match_at(s@, i as int, x2, x3, m4, net);
        lemma_net_match_unique(
            s@,
            i as int,
            net,
            e2 as int,
            e3 as int,
            e4 as int,
            w.0,
            w.1,
            m4,
        );
    }
    Some(e4)
}

/// The second octet spans to exactly one end.
pub proof fn lemma_octet2_unique(s: Seq<char>, a: int, e1: int, e2: int, net: PrivateNet)
    requires
        octet2_at(s, a, e1, net),
        octet2_at(s, a, e2, net),
    ensures
        e1 == e2,
{
    match net {
        PrivateNet::TenSlashEight => {
            lemma_run_end_unique(s, a, e1, e2);
        },
        PrivateNet::SeventyTwoSlashTwelve => {},
        PrivateNet::OneNinetyTwoSlashSixteen => {},
    }
}

/// Replaces the first match of the block, if any, by `/ip4/<ip>`.
fn replace_net(s: &str, net: PrivateNet, ip: &str) -> (r: String)
    ensures
        r@ == spec_replace_net(s@, net, ip@),
{
    let n = s.unicode_len();
    let mut i: usize = 0;
    while i < n
        invariant
            n == s@.len(),
            i <= n,
            spec_replace_net_from(s@, i as int, net, ip@) == spec_replace_net(s@, net, ip@),
        decreases n - i,
    {
        match net_match_extent(s, i, net) {
            Some(e4) => {
                let mut out = s.substring_char(0, i).to_owned();
                out.append("/ip4/");
                out.append(ip);
                out.append(s.substring_char(e4, n));
                proof {
                    assert(out@ =~= spec_replace_net_from(s@, i as int, net, ip@));
                }
                return out;
            },
            None => {},
        }
        i = i + 1;
    }
    s.to_owned()
}

/// Replaces private IPv4 components of a textual address with the public
/// address, when one is known: the first occurrence of each private block,
/// in turn.
pub fn replace_with_public_ip(multiaddr_str: &str, public_ip: Option<&str>) -> (r: String)
    ensures
        r@ == spec_public_rewrite(
            multiaddr_str@,
            match public_ip {
                Some(p) => Some(p@),
                None => None,
            },
        ),
{
    match public_ip {
        Some(ip) => {
            let a = replace_net(multiaddr_str, PrivateNet::TenSlashEight, ip);
            let b = replace_net(a.as_str(), PrivateNet::SeventyTwoSlashTwelve, ip);
            replace_net(b.as_str(), PrivateNet::OneNinetyTwoSlashSixteen, ip)
        },
        None => multiaddr_str.to_owned(),
    }
}

/// The text `w` carries `/p2p/<id>` as a component.
pub open spec fn carries_peer(w: Seq<char>, id: Seq<char>) -> bool {
    exists|i: int, e: int| #[trigger] peer_component_at(w, i, e) && id == w.subrange(i + 5, e)
}

/// The compute core of persisting a bootstrap entry: applies the public-IP
/// rewrite, then accepts only a well-formed address carrying a peer
/// component, handing back the address to store and its peer identifier.
#[verifier::rlimit(50)]
pub fn prepare_bootstrap_entry(entry: &str, public_ip: Option<&str>) -> (r: Option<(
    String,
    String,
)>)
    ensures
        ({
            let w = spec_public_rewrite(
                entry@,
                match public_ip {
                    Some(p) => Some(p@),
                    None => None,
                },
            );
            match r {
                Some(pair) => {
                    &&& pair.0@ == w
                    &&& multiaddr_valid(w)
                    &&& carries_peer(w, pair.1@)
                },
                None => !multiaddr_valid(w) || (forall|i: int| !any_peer_component_at(w, i)),
            }
        }),
{
    let ghost w = spec_public_rewrite(
        entry@,
        match public_ip {
            Some(p) => Some(p@),
            None => None,
        },
    );
    let rewritten = replace_with_public_ip(entry, public_ip);
    proof {
        assert(rewritten@ == w);
    }
    if !is_valid_multiaddr(rewritten.as_str()) {
        proof {
            assert(!multiaddr_valid(w));
        }
        return None;
    }
    match first_p2p_component(rewritten.as_str()) {
        Some(peer) => {
            proof {
                let witness = choose|i: int, e: int|
                    #![auto]
                    peer_component_at(rewritten@, i, e) && peer@ == rewritten@.subrange(i + 5, e)
                        && (forall|i2: int|
                        0 <= i2 < i ==> !any_peer_component_at(rewritten@, i2));
                assert(peer_component_at(w, witness.0, witness.1));
                assert(peer@ == w.subrange(witness.0 + 5, witness.1));
                assert(carries_peer(w, peer@));
            }
            Some((rewritten, peer))
        },
        None => {
            proof {
                assert forall|i: int| !any_peer_component_at(w, i) by {
                    assert(!any_peer_component_at(rewritten@, i));
                }
            }
            None
        },
    }
}

} // verus!
