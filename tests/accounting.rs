use nic_traffic::addr::parse_ipv4;
use nic_traffic::capture::{account_frame, decode_frame};
use nic_traffic::publish::{bits_per_second, endpoint_rates, nic_rates};
use nic_traffic::resolver::{
    get_nic_for_ip, refresh, wan_from_label, NicConfig, StatusResponse, Wan,
};
use nic_traffic::stats::{Direction, EndpointTally, NicTally, TrafficStats};
use nic_traffic::subnet::{LocalSubnets, Subnet, SubnetError};

fn ip(a: u8, b: u8, c: u8, d: u8) -> u32 {
    u32::from_be_bytes([a, b, c, d])
}

fn endpoint_count(t: &EndpointTally, nic: &str, addr: u32) -> Option<u64> {
    t.entries
        .iter()
        .find(|e| e.nic == nic && e.ip == addr)
        .map(|e| e.bytes)
}

fn nic_count(t: &NicTally, nic: &str) -> Option<u64> {
    t.entries.iter().find(|e| e.nic == nic).map(|e| e.bytes)
}

fn lab_subnets() -> LocalSubnets {
    let mut s = LocalSubnets::new();
    assert_eq!(s.add_subnet("10.40.0.0/20"), Ok(()));
    s
}

fn lab_status() -> StatusResponse {
    StatusResponse::from_entries(
        NicConfig::fallback(),
        vec![
            ("10.40.1.5".to_string(), "wan0".to_string()),
            ("10.40.1.6".to_string(), "wan1".to_string()),
            ("10.40.1.7".to_string(), "lte".to_string()),
            ("not-an-address".to_string(), "wan1".to_string()),
        ],
    )
}

fn frame(src: u32, dst: u32, ethertype: [u8; 2], len: usize) -> Vec<u8> {
    let mut f = vec![0u8; len];
    f[12] = ethertype[0];
    f[13] = ethertype[1];
    f[14] = 0x45;
    f[26..30].copy_from_slice(&src.to_be_bytes());
    f[30..34].copy_from_slice(&dst.to_be_bytes());
    f
}

#[test]
fn parses_canonical_addresses() {
    assert_eq!(parse_ipv4("10.40.1.5"), Some(ip(10, 40, 1, 5)));
    assert_eq!(parse_ipv4("0.0.0.0"), Some(0));
    assert_eq!(parse_ipv4("255.255.255.255"), Some(u32::MAX));
    assert_eq!(parse_ipv4("8.8.8.8"), Some(ip(8, 8, 8, 8)));
}

#[test]
fn rejects_malformed_addresses() {
    for bad in [
        "", "1.2.3", "1.2.3.4.5", "256.1.1.1", "01.2.3.4", "1..2.3", "1.2.3.", ".1.2.3",
        "a.b.c.d", "1.2.3.4 ", "1000.1.1.1", "1.2.3.-4", "255.255.255.2555",
    ] {
        assert_eq!(parse_ipv4(bad), None, "{bad}");
    }
}

#[test]
fn subnet_text_is_read_through_ipnet() {
    let s = lab_subnets();
    assert_eq!(s.subnets, vec![Subnet { network: ip(10, 40, 0, 0), prefix_len: 20 }]);
}

#[test]
fn malformed_subnet_is_skipped() {
    let mut s = lab_subnets();
    assert_eq!(s.add_subnet("10.40.0.0/33"), Err(SubnetError::Malformed));
    assert_eq!(s.add_subnet("bogus"), Err(SubnetError::Malformed));
    assert_eq!(s.subnets.len(), 1);
}

#[test]
fn locality_inside_outside_and_malformed() {
    let s = lab_subnets();
    assert!(s.is_local("10.40.0.0"));
    assert!(s.is_local("10.40.1.5"));
    assert!(s.is_local("10.40.15.255"));
    assert!(!s.is_local("10.40.16.0"));
    assert!(!s.is_local("10.39.255.255"));
    assert!(!s.is_local("8.8.8.8"));
    assert!(!s.is_local("10.40.1"));
    assert!(!s.is_local("10.40.1.5.6"));
    assert!(!s.is_local("garbage"));
    assert!(!s.is_local(""));
}

#[test]
fn subnet_edges() {
    let all = Subnet::new(ip(1, 2, 3, 4), 0).unwrap();
    assert!(all.contains(0) && all.contains(u32::MAX));
    let host = Subnet::new(ip(10, 0, 0, 1), 32).unwrap();
    assert!(host.contains(ip(10, 0, 0, 1)));
    assert!(!host.contains(ip(10, 0, 0, 2)));
    assert!(Subnet::new(0, 33).is_none());
    let empty = LocalSubnets::new();
    assert!(!empty.is_local("10.40.1.5"));
}

#[test]
fn labels_map_to_egress() {
    assert_eq!(wan_from_label(&"wan0".to_string()), Wan::Wan0);
    assert_eq!(wan_from_label(&"wan1".to_string()), Wan::Wan1);
    assert_eq!(wan_from_label(&"WAN1".to_string()), Wan::Unrecognized);
}

#[test]
fn resolver_listed_and_fallback() {
    let st = lab_status();
    assert_eq!(st.mappings.len(), 3);
    assert_eq!(st.resolve(ip(10, 40, 1, 5)), "eth0");
    assert_eq!(st.resolve(ip(10, 40, 1, 6)), "eth1");
    assert_eq!(st.resolve(ip(10, 40, 1, 7)), "eth0");
    assert_eq!(st.resolve(ip(10, 40, 9, 9)), "eth0");
    assert_eq!(get_nic_for_ip("10.40.1.6", &st), "eth1");
    assert_eq!(get_nic_for_ip("10.40.1.8", &st), "eth0");
    assert_eq!(get_nic_for_ip("not-an-address", &st), "eth0");
}

#[test]
fn later_entry_wins() {
    let st = StatusResponse::from_entries(
        NicConfig::fallback(),
        vec![
            ("10.40.1.5".to_string(), "wan1".to_string()),
            ("10.40.1.5".to_string(), "wan0".to_string()),
        ],
    );
    assert_eq!(st.resolve(ip(10, 40, 1, 5)), "eth0");
}

#[test]
fn failed_refresh_keeps_snapshot() {
    let st = refresh(lab_status(), None);
    assert_eq!(st.resolve(ip(10, 40, 1, 6)), "eth1");
    let fetched = StatusResponse::with_config(NicConfig {
        lan: "br0".to_string(),
        wan0: "ppp0".to_string(),
        wan1: "ppp1".to_string(),
    });
    let st = refresh(st, Some(fetched));
    assert_eq!(st.resolve(ip(10, 40, 1, 6)), "ppp0");
    assert_eq!(st.config.lan, "br0");
}

#[test]
fn repeated_records_conserve_bytes() {
    let mut stats = TrafficStats::new();
    let eth0 = "eth0".to_string();
    let eth1 = "eth1".to_string();
    let a = ip(10, 40, 1, 5);
    let b = ip(10, 40, 1, 6);
    for _ in 0..7 {
        stats.record(Direction::Transmit, &eth0, a, 100);
        stats.record(Direction::Transmit, &eth0, b, 40);
        stats.record(Direction::Receive, &eth1, a, 3);
    }
    assert_eq!(endpoint_count(&stats.tx_bytes, "eth0", a), Some(700));
    assert_eq!(endpoint_count(&stats.tx_bytes, "eth0", b), Some(280));
    assert_eq!(nic_count(&stats.nic_tx_total, "eth0"), Some(980));
    assert_eq!(endpoint_count(&stats.rx_bytes, "eth1", a), Some(21));
    assert_eq!(nic_count(&stats.nic_rx_total, "eth1"), Some(21));
    assert_eq!(nic_count(&stats.nic_rx_total, "eth0"), None);
}

#[test]
fn counters_saturate() {
    let mut stats = TrafficStats::new();
    let eth0 = "eth0".to_string();
    stats.record(Direction::Transmit, &eth0, 1, u64::MAX - 1);
    stats.record(Direction::Transmit, &eth0, 1, 5);
    assert_eq!(endpoint_count(&stats.tx_bytes, "eth0", 1), Some(u64::MAX));
}

#[test]
fn drain_twice_yields_empty() {
    let mut stats = TrafficStats::new();
    stats.record(Direction::Receive, &"eth0".to_string(), 9, 60);
    let first = stats.drain_and_reset();
    assert_eq!(endpoint_count(&first.rx_bytes, "eth0", 9), Some(60));
    let second = stats.drain_and_reset();
    assert!(second.tx_bytes.entries.is_empty());
    assert!(second.rx_bytes.entries.is_empty());
    assert!(second.nic_tx_total.entries.is_empty());
    assert!(second.nic_rx_total.entries.is_empty());
}

#[test]
fn reset_clears_everything() {
    let mut stats = TrafficStats::new();
    stats.record(Direction::Transmit, &"eth0".to_string(), 9, 60);
    stats.reset();
    assert!(stats.tx_bytes.entries.is_empty());
    assert!(stats.nic_tx_total.entries.is_empty());
}

#[test]
fn decodes_ipv4_frames_only() {
    let src = ip(10, 40, 1, 5);
    let dst = ip(8, 8, 8, 8);
    assert_eq!(decode_frame(&frame(src, dst, [0x08, 0x00], 60)), Some((src, dst)));
    assert_eq!(decode_frame(&frame(src, dst, [0x08, 0x00], 34)), Some((src, dst)));
    assert_eq!(decode_frame(&frame(src, dst, [0x86, 0xdd], 60)), None);
    assert_eq!(decode_frame(&frame(src, dst, [0x08, 0x06], 60)), None);
    assert_eq!(decode_frame(&[0u8; 33]), None);
    assert_eq!(decode_frame(&[]), None);
}

#[test]
fn end_to_end_single_window() {
    let subnets = lab_subnets();
    let status = lab_status();
    let mut stats = TrafficStats::new();
    let src = ip(10, 40, 1, 5);
    account_frame(&mut stats, &subnets, &status, &frame(src, ip(8, 8, 8, 8), [0x08, 0x00], 1500));
    let window = stats.drain_and_reset();
    let tx = endpoint_rates(&window.tx_bytes);
    assert_eq!(tx.len(), 1);
    assert_eq!((tx[0].ip, tx[0].nic.as_str(), tx[0].bits_per_second), (src, "eth0", 12000));
    assert!(endpoint_rates(&window.rx_bytes).is_empty());
    let totals = nic_rates(&window.nic_tx_total);
    assert_eq!(totals.len(), 1);
    assert_eq!((totals[0].nic.as_str(), totals[0].bits_per_second), ("eth0", 12000));
    assert!(nic_rates(&window.nic_rx_total).is_empty());
}

#[test]
fn local_to_local_counts_both_ways() {
    let subnets = lab_subnets();
    let status = lab_status();
    let mut stats = TrafficStats::new();
    let a = ip(10, 40, 1, 5);
    let b = ip(10, 40, 1, 6);
    account_frame(&mut stats, &subnets, &status, &frame(a, b, [0x08, 0x00], 100));
    assert_eq!(endpoint_count(&stats.tx_bytes, "eth0", a), Some(100));
    assert_eq!(endpoint_count(&stats.rx_bytes, "eth1", b), Some(100));
    assert_eq!(nic_count(&stats.nic_tx_total, "eth0"), Some(100));
    assert_eq!(nic_count(&stats.nic_rx_total, "eth1"), Some(100));
}

#[test]
fn remote_and_non_ipv4_frames_are_ignored() {
    let subnets = lab_subnets();
    let status = lab_status();
    let mut stats = TrafficStats::new();
    account_frame(&mut stats, &subnets, &status, &frame(ip(1, 1, 1, 1), ip(8, 8, 8, 8), [0x08, 0x00], 80));
    account_frame(&mut stats, &subnets, &status, &frame(ip(10, 40, 1, 5), ip(10, 40, 1, 6), [0x86, 0xdd], 80));
    account_frame(&mut stats, &subnets, &status, &[0u8; 20]);
    assert!(stats.tx_bytes.entries.is_empty());
    assert!(stats.rx_bytes.entries.is_empty());
}

#[test]
fn rates_are_eight_bits_per_byte() {
    assert_eq!(bits_per_second(0), 0);
    assert_eq!(bits_per_second(1500), 12000);
    assert_eq!(bits_per_second(u64::MAX), u64::MAX as u128 * 8);
}
