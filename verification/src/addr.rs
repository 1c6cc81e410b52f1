use crate::ids::{is_valid_peer_id, peer_id_valid};
use vstd::prelude::*;

verus! {

/// `j` is the index of the last `/` in `s`.
pub open spec fn is_last_slash(s: Seq<char>, j: int) -> bool {
    &&& 0 <= j < s.len()
    &&& s[j] == '/'
    &&& forall|k: int| j < k < s.len() ==> s[k] != '/'
}

/// There is at most one last slash.
pub proof fn lemma_last_slash_unique(s: Seq<char>, j1: int, j2: int)
    requires
        is_last_slash(s, j1),
        is_last_slash(s, j2),
    ensures
        j1 == j2,
{
    if j1 < j2 {
        assert(s[j2] != '/');
    }
    if j2 < j1 {
        assert(s[j1] != '/');
    }
}

/// The last `/` of `s` opens a final component `/p2p/<peer>` whose `<peer>`
/// is a syntactically valid peer identifier.
pub open spec fn trailing_peer_at(s: Seq<char>, j: int) -> bool {
    &&& j >= 4
    &&& s.subrange(j - 4, j + 1) == "/p2p/"@
    &&& j + 1 < s.len()
    &&& peer_id_valid(s.subrange(j + 1, s.len() as int))
}

/// The text ends in `/p2p/<peer>` for a valid peer identifier.
pub open spec fn has_trailing_peer(s: Seq<char>) -> bool {
    exists|j: int| is_last_slash(s, j) && trailing_peer_at(s, j)
}

/// The index of the last `/` of `s`.
pub open spec fn last_slash_of(s: Seq<char>) -> int {
    choose|j: int| is_last_slash(s, j)
}

/// The peer identifier in a trailing `/p2p/<peer>` component.
pub open spec fn spec_trailing_peer(s: Seq<char>) -> Option<Seq<char>> {
    if has_trailing_peer(s) {
        Some(s.subrange(last_slash_of(s) + 1, s.len() as int))
    } else {
        None
    }
}

/// The text before a trailing `/p2p/<peer>` component.
pub open spec fn spec_trailing_base(s: Seq<char>) -> Seq<char> {
    s.subrange(0, last_slash_of(s) - 4)
}

/// Finds the index of the last `/`, if any.
pub fn find_last_slash(s: &str) -> (r: Option<usize>)
    ensures
        match r {
            Some(j) => is_last_slash(s@, j as int),
            None => forall|k: int| 0 <= k < s@.len() ==> s@[k] != '/',
        },
{
    let n = s.unicode_len();
    let mut i: usize = n;
    while i > 0
        invariant
            i <= n,
            n == s@.len(),
            forall|k: int| i <= k < n ==> s@[k] != '/',
        decreases i,
    {
        i = i - 1;
        if s.get_char(i) == '/' {
            return Some(i);
        }
    }
    None
}

/// Splits a trailing `/p2p/<peer>` component off a textual multiaddress,
/// returning the base address and the peer identifier.
pub fn split_trailing_peer(s: &str) -> (r: Option<(String, String)>)
    ensures
        match r {
            Some(pair) => {
                &&& has_trailing_peer(s@)
                &&& pair.1@ == spec_trailing_peer(s@).unwrap()
                &&& pair.0@ == spec_trailing_base(s@)
            },
            None => !has_trailing_peer(s@),
        },
{
    proof {
        reveal_strlit("/p2p/");
    }
    let n = s.unicode_len();
    let j = match find_last_slash(s) {
        Some(j) => j,
        None => {
            return None;
        },
    };
    proof {
        assert forall|j2: int| is_last_slash(s@, j2) implies j2 == j as int by {
            lemma_last_slash_unique(s@, j2, j as int);
        }
    }
    if j < 4 || j + 1 >= n {
        return None;
    }
    if s.get_char(j - 4) != '/' || s.get_char(j - 3) != 'p' || s.get_char(j - 2) != '2'
        || s.get_char(j - 1) != 'p' {
        proof {
            assert(s@.subrange(j - 4, j + 1) != "/p2p/"@) by {
                if s@.subrange(j - 4, j + 1) == "/p2p/"@ {
                    assert(s@.subrange(j - 4, j + 1)[0] == '/');
                    assert(s@.subrange(j - 4, j + 1)[1] == 'p');
                    assert(s@.subrange(j - 4, j + 1)[2] == '2');
                    assert(s@.subrange(j - 4, j + 1)[3] == 'p');
                }
            }
        }
        return None;
    }
    proof {
        assert(s@.subrange(j - 4, j + 1) =~= "/p2p/"@);
    }
    let id = s.substring_char(j + 1, n).to_owned();
    if !is_valid_peer_id(id.as_str()) {
        return None;
    }
    let base = s.substring_char(0, j - 4).to_owned();
    proof {
        assert(is_last_slash(s@, j as int) && trailing_peer_at(s@, j as int));
        assert(last_slash_of(s@) == j as int);
    }
    Some((base, id))
}

/// `e` ends the segment that starts at `b`: no `/` before it, and either the
/// text ends or a `/` follows.
pub open spec fn is_seg_end(s: Seq<char>, b: int, e: int) -> bool {
    &&& b <= e <= s.len()
    &&& (forall|k: int| b <= k < e ==> s[k] != '/')
    &&& (e == s.len() || s[e] == '/')
}

/// A segment has exactly one end.
pub proof fn lemma_seg_end_unique(s: Seq<char>, b: int, e1: int, e2: int)
    requires
        is_seg_end(s, b, e1),
        is_seg_end(s, b, e2),
    ensures
        e1 == e2,
{
    if e1 < e2 {
        assert(s[e1] != '/');
    }
    if e2 < e1 {
        assert(s[e2] != '/');
    }
}

/// Finds the end of the segment starting at `b`.
fn seg_end(s: &str, b: usize) -> (e: usize)
    requires
        b <= s@.len(),
    ensures
        is_seg_end(s@, b as int, e as int),
        b <= e <= s@.len(),
{
    let n = s.unicode_len();
    let mut e = b;
    while e < n
        invariant
            b <= e <= n,
            n == s@.len(),
            forall|k: int| b <= k < e ==> s@[k] != '/',
        decreases n - e,
    {
        if s.get_char(e) == '/' {
            return e;
        }
        e = e + 1;
    }
    e
}

/// A `/p2p/` component opens at `i`.
pub open spec fn p2p_window_at(s: Seq<char>, i: int) -> bool {
    0 <= i && i + 5 <= s.len() && s.subrange(i, i + 5) == "/p2p/"@
}

/// A `/p2p/<peer>` component with a valid peer identifier spans `i` to `e`.
pub open spec fn peer_component_at(s: Seq<char>, i: int, e: int) -> bool {
    &&& p2p_window_at(s, i)
    &&& is_seg_end(s, i + 5, e)
    &&& e > i + 5
    &&& peer_id_valid(s.subrange(i + 5, e))
}

/// Some `/p2p/<peer>` component opens at `i`.
pub open spec fn any_peer_component_at(s: Seq<char>, i: int) -> bool {
    exists|e: int| peer_component_at(s, i, e)
}

/// Finds the first `/p2p/<peer>` component of the text, the peer identifier
/// a routed address embeds.
pub fn first_p2p_component(s: &str) -> (r: Option<String>)
    ensures
        match r {
            Some(id) => exists|i: int, e: int|
                #[trigger] peer_component_at(s@, i, e) && id@ == s@.subrange(i + 5, e) && (
                forall|i2: int| 0 <= i2 < i ==> !any_peer_component_at(s@, i2)),
            None => forall|i: int| !any_peer_component_at(s@, i),
        },
{
    proof {
        reveal_strlit("/p2p/");
    }
    let n = s.unicode_len();
    let mut i: usize = 0;
    while n >= 5 && i <= n - 5
        invariant
            n == s@.len(),
            i <= n,
            forall|i2: int| 0 <= i2 < i ==> !any_peer_component_at(s@, i2),
        decreases n - i,
    {
        proof {
            reveal_strlit("/p2p/");
        }
        if s.get_char(i) == '/' && s.get_char(i + 1) == 'p' && s.get_char(i + 2) == '2'
            && s.get_char(i + 3) == 'p' && s.get_char(i + 4) == '/' {
            proof {
                assert(s@.subrange(i as int, i as int + 5) =~= "/p2p/"@);
            }
            let e = seg_end(s, i + 5);
            if e > i + 5 {
                let id = s.substring_char(i + 5, e).to_owned();
                if is_valid_peer_id(id.as_str()) {
                    proof {
                        assert(peer_component_at(s@, i as int, e as int));
                    }
                    return Some(id);
                }
            }
            proof {
                assert forall|e2: int| !peer_component_at(s@, i as int, e2) by {
                    if peer_component_at(s@, i as int, e2) {
                        lemma_seg_end_unique(s@, i as int + 5, e2, e as int);
                    }
                }
            }
        } else {
            proof {
                assert(!p2p_window_at(s@, i as int)) by {
                    if p2p_window_at(s@, i as int) {
                        assert(s@.subrange(i as int, i as int + 5)[0] == '/');
                        assert(s@.subrange(i as int, i as int + 5)[1] == 'p');
                        assert(s@.subrange(i as int, i as int + 5)[2] == '2');
                        assert(s@.subrange(i as int, i as int + 5)[3] == 'p');
                        assert(s@.subrange(i as int, i as int + 5)[4] == '/');
                    }
                }
            }
        }
        i = i + 1;
    }
    proof {
        assert forall|i2: int| !any_peer_component_at(s@, i2) by {
            if 0 <= i2 < i as int {
            } else if any_peer_component_at(s@, i2) {
                let e2 = choose|e2: int| peer_component_at(s@, i2, e2);
                assert(i2 + 5 <= s@.len());
            }
        }
    }
    None
}

/// An `/ip4/` or `/ip6/` component opens at `i`.
pub open spec fn ip_window_at(s: Seq<char>, i: int) -> bool {
    0 <= i && i + 5 <= s.len() && (s.subrange(i, i + 5) == "/ip4/"@ || s.subrange(i, i + 5)
        == "/ip6/"@)
}

/// An IP component with a non-empty value spans `i` to `e`.
pub open spec fn ip_component_at(s: Seq<char>, i: int, e: int) -> bool {
    ip_window_at(s, i) && is_seg_end(s, i + 5, e) && e > i + 5
}

/// Some IP component opens at `i`.
pub open spec fn any_ip_component_at(s: Seq<char>, i: int) -> bool {
    exists|e: int| ip_component_at(s, i, e)
}

/// Finds the first `/ip4/` or `/ip6/` value of the text, for display.
pub fn first_ip_component(s: &str) -> (r: Option<String>)
    ensures
        match r {
            Some(ip) => exists|i: int, e: int|
                #[trigger] ip_component_at(s@, i, e) && ip@ == s@.subrange(i + 5, e) && (
                forall|i2: int| 0 <= i2 < i ==> !any_ip_component_at(s@, i2)),
            None => forall|i: int| !any_ip_component_at(s@, i),
        },
{
    proof {
        reveal_strlit("/ip4/");
        reveal_strlit("/ip6/");
    }
    let n = s.unicode_len();
    let mut i: usize = 0;
    while n >= 5 && i <= n - 5
        invariant
            n == s@.len(),
            i <= n,
            forall|i2: int| 0 <= i2 < i ==> !any_ip_component_at(s@, i2),
        decreases n - i,
    {
        proof {
            reveal_strlit("/ip4/");
            reveal_strlit("/ip6/");
        }
        let four = s.get_char(i) == '/' && s.get_char(i + 1) == 'i' && s.get_char(i + 2) == 'p'
            && s.get_char(i + 3) == '4' && s.get_char(i + 4) == '/';
        let six = s.get_char(i) == '/' && s.get_char(i + 1) == 'i' && s.get_char(i + 2) == 'p'
            && s.get_char(i + 3) == '6' && s.get_char(i + 4) == '/';
        if four || six {
            proof {
                if four {
                    assert(s@.subrange(i as int, i as int + 5) =~= "/ip4/"@);
                } else {
                    assert(s@.subrange(i as int, i as int + 5) =~= "/ip6/"@);
                }
            }
            let e = seg_end(s, i + 5);
            if e > i + 5 {
                let ip = s.substring_char(i + 5, e).to_owned();
                proof {
                    assert(ip_component_at(s@, i as int, e as int));
                }
                return Some(ip);
            }
            proof {
                assert forall|e2: int| !ip_component_at(s@, i as int, e2) by {
                    if ip_component_at(s@, i as int, e2) {
                        lemma_seg_end_unique(s@, i as int + 5, e2, e as int);
                    }
                }
            }
        } else {
            proof {
                assert(!ip_window_at(s@, i as int)) by {
                    if ip_window_at(s@, i as int) {
                        let w = s@.subrange(i as int, i as int + 5);
                        assert(w[0] == '/');
                        assert(w[1] == 'i');
                        assert(w[2] == 'p');
                        assert(w[4] == '/');
                        if w == "/ip4/"@ {
                            assert(w[3] == '4');
                        } else {
                            assert(w[3] == '6');
                        }
                    }
                }
            }
        }
        i = i + 1;
    }
    proof {
        assert forall|i2: int| !any_ip_component_at(s@, i2) by {
            if 0 <= i2 < i as int {
            } else if any_ip_component_at(s@, i2) {
                let e2 = choose|e2: int| ip_component_at(s@, i2, e2);
                assert(i2 + 5 <= s@.len());
            }
        }
    }
    None
}

/// Appends the `/p2p/<peer>` suffix to a textual address.
pub fn with_p2p_suffix(addr: &str, peer: &str) -> (r: String)
    ensures
        r@ == addr@ + "/p2p/"@ + peer@,
{
    let mut s = addr.to_owned();
    s.append("/p2p/");
    s.append(peer);
    proof {
        assert(s@ =~= addr@ + "/p2p/"@ + peer@);
    }
    s
}

/// The relay circuit address this node listens on once a relay accepted a
/// reservation.
pub fn relay_listen_addr(relay: &str) -> (r: String)
    ensures
        r@ == "/p2p/"@ + relay@ + "/p2p-circuit"@,
{
    let mut s = String::from_str("/p2p/");
    s.append(relay);
    s.append("/p2p-circuit");
    proof {
        assert(s@ =~= "/p2p/"@ + relay@ + "/p2p-circuit"@);
    }
    s
}

/// The relay circuit address that reaches `target` through `relay`.
pub fn relay_dial_addr(relay: &str, target: &str) -> (r: String)
    ensures
        r@ == "/p2p/"@ + relay@ + "/p2p-circuit/p2p/"@ + target@,
{
    let mut s = String::from_str("/p2p/");
    s.append(relay);
    s.append("/p2p-circuit/p2p/");
    s.append(target);
    proof {
        assert(s@ =~= "/p2p/"@ + relay@ + "/p2p-circuit/p2p/"@ + target@);
    }
    s
}

} // verus!
