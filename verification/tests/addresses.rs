use p2p_chat::addr::{first_ip_component, first_p2p_component, split_trailing_peer, with_p2p_suffix};
use p2p_chat::config::{
    load_bootstrap_nodes_from_db, parse_bootstrap_peers, prepare_bootstrap_entry,
    replace_with_public_ip,
};
use p2p_chat::strutil::{format_clock, format_secs1, u64_to_dec};
use p2p_chat::types::BootstrapNode;

const PEER: &str = "QmcgpsyWgH8Y8ajJz1Cu72KnS5uo2Aa2LpzU7kinSupNKC";

#[test]
fn trailing_peer_is_split_off() {
    let addr = format!("/ip4/1.2.3.4/tcp/9/p2p/{}", PEER);
    let (base, id) = split_trailing_peer(&addr).expect("peer suffix");
    assert_eq!(base, "/ip4/1.2.3.4/tcp/9");
    assert_eq!(id, PEER);
}

#[test]
fn trailing_peer_requires_a_valid_identifier() {
    assert!(split_trailing_peer("/ip4/1.2.3.4/tcp/9/p2p/nonsense").is_none());
    assert!(split_trailing_peer("/ip4/1.2.3.4/tcp/9").is_none());
    assert!(split_trailing_peer(&format!("/p2p/{}/p2p-circuit", PEER)).is_none());
    assert!(split_trailing_peer("").is_none());
}

#[test]
fn bootstrap_entries_are_parsed() {
    let entries = vec![
        format!("/ip4/1.2.3.4/tcp/9/p2p/{}", PEER),
        "garbage".to_string(),
        "/ip4/5.6.7.8/tcp/9".to_string(),
    ];
    let parsed = parse_bootstrap_peers(&entries);
    assert_eq!(parsed.len(), 1);
    assert_eq!(parsed[0].0, PEER);
    assert_eq!(parsed[0].1, "/ip4/1.2.3.4/tcp/9");
}

#[test]
fn first_p2p_component_finds_the_embedded_peer() {
    let addr = format!("/p2p/{}/p2p-circuit", PEER);
    assert_eq!(first_p2p_component(&addr).as_deref(), Some(PEER));
    // A "p2p" segment in value position is not followed by a valid peer id.
    assert!(first_p2p_component("/dns/p2p/http").is_none());
    assert!(first_p2p_component("/ip4/1.2.3.4/tcp/9").is_none());
}

#[test]
fn first_ip_component_is_extracted() {
    assert_eq!(first_ip_component("/ip4/7.7.7.7/tcp/1").as_deref(), Some("7.7.7.7"));
    assert_eq!(first_ip_component("/ip6/::1/tcp/1").as_deref(), Some("::1"));
    assert!(first_ip_component("/dns/example.org/tcp/1").is_none());
}

#[test]
fn p2p_suffix_is_appended() {
    assert_eq!(with_p2p_suffix("/ip4/1.2.3.4/tcp/9", PEER), format!("/ip4/1.2.3.4/tcp/9/p2p/{}", PEER));
}

#[test]
fn private_addresses_are_rewritten() {
    assert_eq!(
        replace_with_public_ip("/ip4/192.168.1.5/tcp/4001", Some("8.8.8.8")),
        "/ip4/8.8.8.8/tcp/4001"
    );
    assert_eq!(
        replace_with_public_ip("/ip4/10.0.0.1/tcp/4001", Some("9.9.9.9")),
        "/ip4/9.9.9.9/tcp/4001"
    );
    assert_eq!(
        replace_with_public_ip("/ip4/172.16.3.4/tcp/4001", Some("1.1.1.1")),
        "/ip4/1.1.1.1/tcp/4001"
    );
    assert_eq!(
        replace_with_public_ip("/ip4/172.31.3.4/tcp/4001", Some("1.1.1.1")),
        "/ip4/1.1.1.1/tcp/4001"
    );
}

#[test]
fn public_and_non_private_addresses_are_kept() {
    assert_eq!(
        replace_with_public_ip("/ip4/8.8.4.4/tcp/4001", Some("1.1.1.1")),
        "/ip4/8.8.4.4/tcp/4001"
    );
    // 172.165.x.x lies outside the 172.16/12 block.
    assert_eq!(
        replace_with_public_ip("/ip4/172.165.1.2/tcp/4001", Some("1.1.1.1")),
        "/ip4/172.165.1.2/tcp/4001"
    );
    // 108.x is not the 10/8 block.
    assert_eq!(
        replace_with_public_ip("/ip4/108.1.2.3/tcp/4001", Some("1.1.1.1")),
        "/ip4/108.1.2.3/tcp/4001"
    );
    assert_eq!(replace_with_public_ip("/ip4/10.0.0.1/tcp/4001", None), "/ip4/10.0.0.1/tcp/4001");
}

#[test]
fn only_the_first_occurrence_per_block_is_rewritten() {
    assert_eq!(
        replace_with_public_ip("/ip4/10.0.0.1/tcp/1/ip4/10.0.0.2/tcp/2", Some("2.2.2.2")),
        "/ip4/2.2.2.2/tcp/1/ip4/10.0.0.2/tcp/2"
    );
}

#[test]
fn bootstrap_entry_is_prepared() {
    let entry = format!("/ip4/192.168.0.9/tcp/4001/p2p/{}", PEER);
    let (addr, peer) = prepare_bootstrap_entry(&entry, Some("5.5.5.5")).expect("prepared");
    assert_eq!(addr, format!("/ip4/5.5.5.5/tcp/4001/p2p/{}", PEER));
    assert_eq!(peer, PEER);

    assert!(prepare_bootstrap_entry("garbage", None).is_none());
    assert!(prepare_bootstrap_entry("/ip4/1.2.3.4/tcp/9", None).is_none());
}

#[test]
fn stored_bootstrap_rows_yield_their_addresses() {
    let rows = vec![
        BootstrapNode {
            address: "/ip4/1.2.3.4/tcp/9".to_string(),
            peer_id: None,
            added_at: 1,
            last_verified: None,
        },
        BootstrapNode {
            address: "/ip4/5.6.7.8/tcp/9".to_string(),
            peer_id: Some(PEER.to_string()),
            added_at: 2,
            last_verified: Some(3),
        },
    ];
    let addrs = load_bootstrap_nodes_from_db(rows);
    assert_eq!(addrs, vec!["/ip4/1.2.3.4/tcp/9".to_string(), "/ip4/5.6.7.8/tcp/9".to_string()]);
}

#[test]
fn numbers_and_clocks_are_rendered() {
    assert_eq!(u64_to_dec(0), "0");
    assert_eq!(u64_to_dec(7), "7");
    assert_eq!(u64_to_dec(90210), "90210");
    assert_eq!(format_clock(0), "00:00:00");
    assert_eq!(format_clock(1000), "00:00:01");
    assert_eq!(format_clock(3_723_000), "01:02:03");
    assert_eq!(format_clock(45_296_000), "12:34:56");
    assert_eq!(format_secs1(1234), "1.2");
    assert_eq!(format_secs1(999), "0.9");
    assert_eq!(format_secs1(10_000), "10.0");
}
