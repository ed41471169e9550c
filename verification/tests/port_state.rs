use udphub::addr::{key_eq, key_less, AddrKey, SockAddr};
use udphub::port::{count_sender, keep_live, peek_held, ForwardTarget, Peer, PortState};
use udphub::stats::{EntryStats, GetStatsMode, SockAddrType};

fn v4(a: u8, b: u8, c: u8, d: u8, port: u16) -> SockAddr {
    let ip = u32::from_be_bytes([a, b, c, d]);
    SockAddr { key: (0, ip as u128, port, 0, 0), text: format!("{}.{}.{}.{}:{}", a, b, c, d, port) }
}

const SEC: u64 = 1_000_000_000;

#[test]
fn key_order_is_lexicographic() {
    let a: AddrKey = (0, 1, 80, 0, 0);
    let b: AddrKey = (0, 1, 81, 0, 0);
    let c: AddrKey = (1, 0, 0, 0, 0);
    assert!(key_less(&a, &b));
    assert!(!key_less(&b, &a));
    assert!(key_less(&b, &c));
    assert!(!key_less(&a, &a));
    assert!(key_eq(&a, &a));
    assert!(!key_eq(&a, &b));
}

#[test]
fn new_port_without_memory_when_last_n_zero_or_unset() {
    let s = PortState::new(Some(0), None, None, 0);
    assert!(s.transient.is_none());
    assert!(s.permanent.is_none());
    let s = PortState::new(None, Some(100), None, 0);
    assert!(s.transient.is_none());
    let s = PortState::new(Some(3), None, None, 0);
    assert!(s.transient.is_some());
    assert_eq!(s.stats.recv_bytes, 0);
}

#[test]
fn permanent_peers_start_idle() {
    let s = PortState::new(None, None, Some(vec![v4(10, 0, 0, 1, 5000), v4(10, 0, 0, 2, 5000)]), 7);
    let p = s.permanent.as_ref().unwrap();
    assert_eq!(p.len(), 2);
    assert_eq!(p[1].0.text, "10.0.0.2:5000");
    assert_eq!(p[0].1.begin, 7);
    assert_eq!(p[0].1.recv_dgrams, 0);
}

#[test]
fn datagram_from_permanent_peer_is_counted_there_only() {
    let a = v4(10, 0, 0, 1, 5000);
    let mut s = PortState::new(Some(4), None, Some(vec![a.clone()]), 0);
    assert!(s.datagram_fits(100, &a.key, true));
    s.on_datagram(100, &a, SEC, true);
    assert_eq!(s.stats.recv_bytes, 100);
    assert_eq!(s.stats.recv_dgrams, 1);
    assert_eq!(s.stats.dgrams_to_nowhere, 0);
    let p = s.permanent.as_ref().unwrap();
    assert_eq!(p[0].1.recv_bytes, 100);
    assert_eq!(p[0].1.last_recv, SEC);
    assert_eq!(s.transient.as_ref().unwrap().table.len(), 0);
}

#[test]
fn datagram_from_unknown_peer_is_remembered() {
    let a = v4(192, 168, 1, 5, 4000);
    let mut s = PortState::new(Some(4), None, None, 0);
    s.on_datagram(10, &a, SEC, false);
    assert_eq!(s.stats.dgrams_to_nowhere, 1);
    {
        let t = s.transient.as_ref().unwrap();
        assert_eq!(t.table.len(), 1);
        assert_eq!(t.table[0].1.recv_bytes, 10);
        assert_eq!(t.table[0].1.saved_recv_counter_value1, 10);
        assert_eq!(t.table[0].1.begin, SEC);
    }
    s.on_datagram(5, &a, 2 * SEC, true);
    let t = s.transient.as_ref().unwrap();
    assert_eq!(t.table.len(), 1);
    assert_eq!(t.table[0].1.recv_bytes, 15);
    assert_eq!(t.table[0].1.recv_dgrams, 2);
    assert_eq!(t.table[0].1.begin, SEC);
    assert_eq!(t.table[0].1.last_recv, 2 * SEC);
}

#[test]
fn least_recently_seen_peer_is_forgotten_beyond_last_n() {
    let a = v4(1, 1, 1, 1, 1);
    let b = v4(2, 2, 2, 2, 2);
    let c = v4(3, 3, 3, 3, 3);
    let mut s = PortState::new(Some(2), None, None, 0);
    s.on_datagram(1, &a, 1, true);
    s.on_datagram(1, &b, 2, true);
    s.on_datagram(1, &a, 3, true);
    s.on_datagram(1, &c, 4, true);
    let t = s.transient.as_ref().unwrap();
    assert_eq!(t.table.len(), 2);
    let keys: Vec<AddrKey> = t.table.iter().map(|p| p.0.key).collect();
    assert!(keys.contains(&a.key));
    assert!(keys.contains(&c.key));
    assert!(!keys.contains(&b.key));
    // b comes back as a new peer, with fresh counters
    s.on_datagram(7, &b, 5, true);
    let t = s.transient.as_ref().unwrap();
    let eb = t.table.iter().find(|p| p.0.key == b.key).unwrap();
    assert_eq!(eb.1.recv_bytes, 7);
    assert_eq!(eb.1.recv_dgrams, 1);
}

#[test]
fn forward_targets_exclude_the_sender() {
    let a = v4(10, 0, 0, 1, 5000);
    let b = v4(10, 0, 0, 2, 5000);
    let x = v4(172, 16, 0, 9, 9000);
    let y = v4(172, 16, 0, 8, 9000);
    let mut s = PortState::new(Some(4), None, Some(vec![a.clone(), b.clone()]), 0);
    s.on_datagram(1, &x, 1, true);
    s.on_datagram(1, &y, 2, true);
    let t = s.forward_targets(&a.key);
    assert_eq!(t.len(), 3);
    assert_eq!(t[0].0, b.key);
    assert!(matches!(t[0].1, ForwardTarget::Permanent(1)));
    // discovered peers, most recently seen first
    assert_eq!(t[1].0, y.key);
    assert_eq!(t[2].0, x.key);
    let t = s.forward_targets(&x.key);
    let keys: Vec<AddrKey> = t.iter().map(|e| e.0).collect();
    assert_eq!(keys, vec![a.key, b.key, y.key]);
}

#[test]
fn sends_are_counted_by_port_and_peer() {
    let a = v4(10, 0, 0, 1, 5000);
    let x = v4(172, 16, 0, 9, 9000);
    let mut s = PortState::new(Some(4), None, Some(vec![a.clone()]), 0);
    s.on_datagram(1, &x, 1, true);
    s.record_send(ForwardTarget::Permanent(0), Some(40));
    s.record_send(ForwardTarget::Transient(x.key), Some(30));
    s.record_send(ForwardTarget::Transient(x.key), None);
    assert_eq!(s.stats.send_bytes, 70);
    assert_eq!(s.stats.send_dgrams, 2);
    assert_eq!(s.stats.send_errors, 1);
    assert_eq!(s.permanent.as_ref().unwrap()[0].1.send_bytes, 40);
    let t = s.transient.as_ref().unwrap();
    assert_eq!(t.table[0].1.send_bytes, 30);
    assert_eq!(t.table[0].1.send_dgrams, 1);
}

#[test]
fn peer_send_counters_wrap_around() {
    let mut e = EntryStats::started(0);
    e.send_bytes = u64::MAX - 1;
    e.datagram_sent(3);
    assert_eq!(e.send_bytes, 1);
    assert_eq!(e.send_dgrams, 1);
}

#[test]
fn lagged_and_receive_errors_are_counted() {
    let mut s = PortState::new(None, None, None, 0);
    s.on_lagged(5);
    s.on_lagged(2);
    s.on_recv_error();
    assert_eq!(s.stats.lagged, 7);
    assert_eq!(s.stats.recv_errors, 1);
}

#[test]
fn short_report_has_no_peers_long_report_lists_them() {
    let a = v4(10, 0, 0, 1, 5000);
    let x = v4(172, 16, 0, 9, 9000);
    let mut s = PortState::new(Some(4), None, Some(vec![a.clone()]), 0);
    s.on_datagram(3, &x, 1, true);
    let r = s.report(GetStatsMode::Short);
    assert_eq!(r.peers.len(), 0);
    assert_eq!(r.port_wide.recv_bytes, 3);
    let r = s.report(GetStatsMode::Long);
    assert_eq!(r.peers.len(), 2);
    assert!(r.peers[0].1 == SockAddrType::Permanent);
    assert_eq!(r.peers[0].0.text, "10.0.0.1:5000");
    assert!(r.peers[1].1 == SockAddrType::Transient);
    assert_eq!(r.peers[1].2.recv_bytes, 3);
}

#[test]
fn periodic_targets_are_the_permanent_peers() {
    let a = v4(10, 0, 0, 1, 5000);
    let b = v4(10, 0, 0, 2, 5000);
    let x = v4(172, 16, 0, 9, 9000);
    let mut s = PortState::new(Some(4), None, Some(vec![a.clone(), b.clone()]), 0);
    s.on_datagram(1, &x, 1, true);
    let t = s.periodic_targets();
    let keys: Vec<AddrKey> = t.iter().map(|e| e.0).collect();
    assert_eq!(keys, vec![a.key, b.key]);
    let s = PortState::new(Some(4), None, None, 0);
    assert_eq!(s.periodic_targets().len(), 0);
}

#[test]
fn datagram_fits_detects_overflow() {
    let a = v4(10, 0, 0, 1, 5000);
    let mut s = PortState::new(None, None, Some(vec![a.clone()]), 0);
    assert!(s.datagram_fits(10, &a.key, false));
    s.stats.recv_bytes = u64::MAX - 5;
    assert!(!s.datagram_fits(10, &a.key, true));
    s.stats.recv_bytes = 0;
    s.stats.dgrams_to_nowhere = u64::MAX;
    assert!(s.datagram_fits(10, &a.key, true));
    assert!(!s.datagram_fits(10, &a.key, false));
}

#[test]
fn remembered_sender_counts_on_its_entry_others_start_fresh() {
    let a = v4(1, 1, 1, 1, 1);
    let b = v4(2, 2, 2, 2, 2);
    let mut ea = EntryStats::first_datagram(10, SEC);
    ea.datagram_sent(4);
    let t: Vec<Peer> = vec![(a.clone(), ea), (b.clone(), EntryStats::first_datagram(20, SEC))];
    // held by the cache and in the table: counted on the old entry
    let r = count_sender(t.clone(), 5, &a, 2 * SEC, true);
    assert_eq!(r.len(), 2);
    assert_eq!(r[0].1.recv_bytes, 15);
    assert_eq!(r[0].1.recv_dgrams, 2);
    assert_eq!(r[0].1.send_bytes, 4);
    assert_eq!(r[0].1.begin, SEC);
    assert_eq!(r[1].1.recv_bytes, 20);
    // no longer held (expired): fresh counters in place of the old entry
    let r = count_sender(t.clone(), 5, &a, 2 * SEC, false);
    assert_eq!(r.len(), 2);
    assert_eq!(r[0].1.recv_bytes, 5);
    assert_eq!(r[0].1.recv_dgrams, 1);
    assert_eq!(r[0].1.send_bytes, 0);
    assert_eq!(r[0].1.begin, 2 * SEC);
    // unknown sender: added at the end
    let c = v4(3, 3, 3, 3, 3);
    let r = count_sender(t, 7, &c, 3 * SEC, false);
    assert_eq!(r.len(), 3);
    assert_eq!(r[2].0.key, c.key);
    assert_eq!(r[2].1.recv_bytes, 7);
}

#[test]
fn keep_live_keeps_table_order() {
    let a = v4(1, 1, 1, 1, 1);
    let b = v4(2, 2, 2, 2, 2);
    let c = v4(3, 3, 3, 3, 3);
    let t: Vec<Peer> = vec![
        (a.clone(), EntryStats::first_datagram(1, 1)),
        (b.clone(), EntryStats::first_datagram(2, 2)),
        (c.clone(), EntryStats::first_datagram(3, 3)),
    ];
    let r = keep_live(t, &vec![c.key, a.key]);
    let keys: Vec<AddrKey> = r.iter().map(|p| p.0.key).collect();
    assert_eq!(keys, vec![a.key, c.key]);
}

#[test]
fn targets_follow_the_given_live_keys() {
    let a = v4(10, 0, 0, 1, 5000);
    let x = v4(172, 16, 0, 9, 9000);
    let y = v4(172, 16, 0, 8, 9000);
    let mut s = PortState::new(Some(4), None, Some(vec![a.clone()]), 0);
    s.on_datagram(1, &x, 1, true);
    s.on_datagram(1, &y, 2, true);
    let t = s.targets_with_live(&vec![x.key, y.key], &y.key);
    let keys: Vec<AddrKey> = t.iter().map(|e| e.0).collect();
    assert_eq!(keys, vec![a.key, x.key]);
    assert!(matches!(t[1].1, ForwardTarget::Transient(_)));
    let t = s.targets_with_live(&vec![], &x.key);
    assert_eq!(t.len(), 1);
    // a port without memory ignores the live keys
    let s = PortState::new(None, None, Some(vec![a.clone()]), 0);
    assert_eq!(s.targets_with_live(&vec![x.key], &y.key).len(), 1);
}

#[test]
fn report_lists_live_peers_in_the_given_order() {
    let a = v4(10, 0, 0, 1, 5000);
    let x = v4(172, 16, 0, 9, 9000);
    let y = v4(172, 16, 0, 8, 9000);
    let mut s = PortState::new(Some(4), None, Some(vec![a.clone()]), 0);
    s.on_datagram(3, &x, 1, true);
    s.on_datagram(4, &y, 2, true);
    let r = s.report_with_live(GetStatsMode::Long, &vec![y.key, x.key]);
    assert_eq!(r.peers.len(), 3);
    assert_eq!(r.peers[1].0.key, y.key);
    assert_eq!(r.peers[1].2.recv_bytes, 4);
    assert_eq!(r.peers[2].0.key, x.key);
    let r = s.report_with_live(GetStatsMode::Long, &vec![x.key]);
    assert_eq!(r.peers.len(), 2);
    assert_eq!(r.peers[1].0.key, x.key);
    let r = s.report_with_live(GetStatsMode::Short, &vec![x.key]);
    assert_eq!(r.peers.len(), 0);
}

#[test]
fn a_peer_heard_again_becomes_the_most_recent() {
    let a = v4(1, 1, 1, 1, 1);
    let b = v4(2, 2, 2, 2, 2);
    let c = v4(3, 3, 3, 3, 3);
    let z = v4(9, 9, 9, 9, 9);
    let mut s = PortState::new(Some(2), None, None, 0);
    s.on_datagram(1, &a, 1, true);
    s.on_datagram(1, &b, 2, true);
    let keys: Vec<AddrKey> = s.forward_targets(&z.key).iter().map(|e| e.0).collect();
    assert_eq!(keys, vec![b.key, a.key]);
    s.on_datagram(1, &a, 3, true);
    let keys: Vec<AddrKey> = s.forward_targets(&z.key).iter().map(|e| e.0).collect();
    assert_eq!(keys, vec![a.key, b.key]);
    // full: c pushes out b, the least recently seen
    s.on_datagram(1, &c, 4, true);
    let keys: Vec<AddrKey> = s.forward_targets(&z.key).iter().map(|e| e.0).collect();
    assert_eq!(keys, vec![c.key, a.key]);
    let r = s.report(GetStatsMode::Long);
    let keys: Vec<AddrKey> = r.peers.iter().map(|p| p.0.key).collect();
    assert_eq!(keys, vec![c.key, a.key]);
}

#[test]
fn counters_total_the_events() {
    let a = v4(10, 0, 0, 1, 5000);
    let x = v4(172, 16, 0, 9, 9000);
    let mut s = PortState::new(Some(4), None, Some(vec![a.clone()]), 0);
    s.on_datagram(10, &a, 1, true);
    s.on_datagram(20, &x, 2, false);
    s.on_datagram(30, &x, 3, true);
    s.record_send(ForwardTarget::Permanent(0), Some(5));
    s.record_send(ForwardTarget::Transient(x.key), Some(6));
    s.record_send(ForwardTarget::Transient(x.key), None);
    s.on_lagged(3);
    s.on_lagged(4);
    s.on_recv_error();
    assert_eq!(s.stats.recv_bytes, 60);
    assert_eq!(s.stats.recv_dgrams, 3);
    assert_eq!(s.stats.dgrams_to_nowhere, 1);
    assert_eq!(s.stats.send_bytes, 11);
    assert_eq!(s.stats.send_dgrams, 2);
    assert_eq!(s.stats.send_errors, 1);
    assert_eq!(s.stats.lagged, 7);
    assert_eq!(s.stats.recv_errors, 1);
}

#[test]
fn peek_held_keeps_the_keys_the_cache_holds() {
    let a = v4(1, 1, 1, 1, 1);
    let b = v4(2, 2, 2, 2, 2);
    let c = v4(3, 3, 3, 3, 3);
    let mut cache: lru_time_cache::LruCache<AddrKey, ()> = lru_time_cache::LruCache::with_capacity(2);
    cache.insert(a.key, ());
    cache.insert(c.key, ());
    let t: Vec<Peer> = vec![
        (a.clone(), EntryStats::first_datagram(1, 1)),
        (b.clone(), EntryStats::first_datagram(2, 2)),
        (c.clone(), EntryStats::first_datagram(3, 3)),
    ];
    assert_eq!(peek_held(&cache, &t), vec![a.key, c.key]);
}
