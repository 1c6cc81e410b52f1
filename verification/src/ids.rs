use vstd::prelude::*;

verus! {

/// Whether the text is a well-formed peer identifier, as the overlay
/// network's parser decides it.
pub uninterp spec fn peer_id_valid(s: Seq<char>) -> bool;

/// Whether the text is a well-formed multiaddress, as the overlay
/// network's parser decides it.
pub uninterp spec fn multiaddr_valid(s: Seq<char>) -> bool;

/// The text with leading and trailing whitespace removed.
pub uninterp spec fn trimmed_of(s: Seq<char>) -> Seq<char>;

/// Relies on libp2p's `PeerId::from_str`: validity of a textual peer
/// identifier depends on the characters alone.
#[verifier::external_body]
pub(crate) fn is_valid_peer_id(s: &str) -> (r: bool)
    ensures
        r == peer_id_valid(s@),
{
    s.parse::<libp2p::PeerId>().is_ok()
}

/// Relies on libp2p's `Multiaddr::from_str`: validity of a textual
/// multiaddress depends on the characters alone.
#[verifier::external_body]
pub(crate) fn is_valid_multiaddr(s: &str) -> (r: bool)
    ensures
        r == multiaddr_valid(s@),
{
    s.parse::<libp2p::Multiaddr>().is_ok()
}

/// Relies on `str::trim`: removes leading and trailing whitespace, a
/// function of the characters alone.
#[verifier::external_body]
pub(crate) fn trim_ws(s: &str) -> (r: String)
    ensures
        r@ == trimmed_of(s@),
        r@.len() <= s@.len(),
{
    s.trim().to_string()
}

/// Relies on `uuid::Uuid::new_v4` and its hyphenated rendering: a fresh
/// random message identifier, 36 characters long.
#[verifier::external_body]
pub(crate) fn fresh_message_id() -> (r: String)
    ensures
        r@.len() == 36,
{
    uuid::Uuid::new_v4().to_string()
}

/// Relies on `chrono::Utc::now`: the current epoch time in seconds.
/// Nothing is promised of the clock's reading.
#[verifier::external_body]
pub(crate) fn now_timestamp() -> (r: i64) {
    chrono::Utc::now().timestamp()
}

} // verus!
