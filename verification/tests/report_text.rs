use udphub::addr::SockAddr;
use udphub::report::{
    long_stats_text, received_totals, short_stats_text, sort_peer_lines, PeerLine, PortAnswer, PortView,
};
use udphub::stats::{EntryStats, PortStats, SockAddrType};
use udphub::text::decimal_text;

const SEC: u64 = 1_000_000_000;

fn addr(last: u8, port: u16) -> SockAddr {
    SockAddr { key: (0, last as u128, port, 0, 0), text: format!("0.0.0.{}:{}", last, port) }
}

fn stats(recv_bytes: u64, recv_dgrams: u64) -> PortStats {
    let mut s = PortStats::default();
    s.recv_bytes = recv_bytes;
    s.recv_dgrams = recv_dgrams;
    s
}

#[test]
fn decimal_text_of_numbers() {
    assert_eq!(decimal_text(0), "0");
    assert_eq!(decimal_text(7), "7");
    assert_eq!(decimal_text(10), "10");
    assert_eq!(decimal_text(1234567890), "1234567890");
    assert_eq!(decimal_text(u64::MAX), "18446744073709551615");
}

#[test]
fn totals_add_up_and_detect_overflow() {
    assert_eq!(received_totals(&vec![]), Some((0, 0)));
    assert_eq!(received_totals(&vec![stats(100, 2), stats(50, 1)]), Some((150, 3)));
    assert_eq!(received_totals(&vec![stats(u64::MAX, 1), stats(1, 1)]), None);
}

#[test]
fn short_text_in_binary_units() {
    assert_eq!(short_stats_text(0, 0), "0 B, 0 dgrams");
    assert_eq!(short_stats_text(1024, 3), "1 KiB, 3 dgrams");
    assert_eq!(short_stats_text(1536, 12), "1.50 KiB, 12 dgrams");
}

#[test]
fn long_text_without_hubs_or_ports() {
    assert_eq!(long_stats_text(&vec![], 0), "No hubs\n");
    assert_eq!(long_stats_text(&vec![vec![]], 0), "No ports\n");
    assert_eq!(long_stats_text(&vec![vec![], vec![]], 0), "* Hub 1 *\nNo ports\n* Hub 2 *\nNo ports\n");
}

#[test]
fn long_text_of_a_silent_port() {
    let v = PortView { addr: addr(9, 1000), answer: None };
    assert_eq!(long_stats_text(&vec![vec![v]], 0), "port 0.0.0.9:1000\n");
}

#[test]
fn long_text_of_a_port_with_peers() {
    let mut w = stats(100, 2);
    w.lagged = 1;
    w.dgrams_to_nowhere = 4;
    let mut e = EntryStats::first_datagram(100, 0);
    e.send_bytes = 2048;
    e.send_dgrams = 2;
    let t = PeerLine { addr: addr(3, 7), kind: SockAddrType::Transient, stats: e, rate: None };
    let p = PeerLine {
        addr: addr(5, 7),
        kind: SockAddrType::Permanent,
        stats: EntryStats::started(0),
        rate: Some("1.0 Kibit/s".to_string()),
    };
    let v = PortView { addr: addr(9, 1000), answer: Some(PortAnswer { port_wide: w, peers: vec![t, p] }) };
    let text = long_stats_text(&vec![vec![v]], 5 * SEC);
    let expected = [
        "port 0.0.0.9:1000\n",
        "  recv 100.00 B (2 dgrams)\n",
        "  sent 0.00 B (0 dgrams)\n",
        "  lagged 1 senderrs 0 recverrs 0\n",
        "  datagrams to nowhere 4\n",
        "  peer P 0.0.0.5:7\n",
        "    joined 5 seconds ago\n    last seen 5 seconds ago\n",
        "    recv 0.00 B (0 dgrams) 1.0 Kibit/s\n",
        "    sent 0.00 B (0 dgrams)\n",
        "  peer T 0.0.0.3:7\n",
        "    joined 5 seconds ago\n    last seen 5 seconds ago\n",
        "    recv 100.00 B (1 dgrams)\n",
        "    sent 2.00 KiB (2 dgrams)\n",
    ]
    .concat();
    assert_eq!(text, expected);
}

#[test]
fn peers_sort_permanent_first_then_by_address_stably() {
    let line = |last: u8, kind: SockAddrType, bytes: u64| PeerLine {
        addr: addr(last, 1),
        kind,
        stats: EntryStats::first_datagram(bytes, 0),
        rate: None,
    };
    let v = vec![
        line(2, SockAddrType::Transient, 1),
        line(9, SockAddrType::Permanent, 2),
        line(1, SockAddrType::Transient, 3),
        line(4, SockAddrType::Permanent, 4),
        line(9, SockAddrType::Permanent, 5),
    ];
    let s = sort_peer_lines(&v);
    let order: Vec<u64> = s.iter().map(|l| l.stats.recv_bytes).collect();
    assert_eq!(order, vec![4, 2, 5, 3, 1]);
}
