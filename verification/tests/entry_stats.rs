use udphub::stats::{elapsed_ns, EntryStats};

const SEC: u64 = 1_000_000_000;

#[test]
fn elapsed_saturates_at_zero() {
    assert_eq!(elapsed_ns(5, 12), 7);
    assert_eq!(elapsed_ns(12, 5), 0);
}

#[test]
fn first_datagram_counters() {
    let e = EntryStats::first_datagram(64, 9);
    assert_eq!(e.recv_dgrams, 1);
    assert_eq!(e.recv_bytes, 64);
    assert_eq!(e.saved_recv_counter_value1, 64);
    assert_eq!(e.saved_recv_counter_value2, 64);
    assert_eq!(e.saved_recv_counter_ts2, 9);
    assert_eq!(e.send_bytes, 0);
}

#[test]
fn saved_counters_rotate_after_more_than_ten_seconds() {
    let mut e = EntryStats::started(0);
    e.datagram_received(100, 10 * SEC);
    // exactly ten seconds: no rotation
    assert_eq!(e.saved_recv_counter_ts2, 0);
    assert_eq!(e.saved_recv_counter_value2, 0);
    e.datagram_received(50, 10 * SEC + 1);
    assert_eq!(e.saved_recv_counter_value1, 0);
    assert_eq!(e.saved_recv_counter_ts1, 0);
    assert_eq!(e.saved_recv_counter_value2, 150);
    assert_eq!(e.saved_recv_counter_ts2, 10 * SEC + 1);
    e.datagram_received(25, 21 * SEC);
    assert_eq!(e.saved_recv_counter_value1, 150);
    assert_eq!(e.saved_recv_counter_ts1, 10 * SEC + 1);
    assert_eq!(e.saved_recv_counter_value2, 175);
    assert_eq!(e.recv_bytes, 175);
    assert_eq!(e.recv_dgrams, 3);
    assert_eq!(e.last_recv, 21 * SEC);
}

#[test]
fn rate_is_shown_after_more_than_five_seconds() {
    let mut e = EntryStats::started(0);
    e.datagram_received(1000, SEC);
    assert_eq!(e.rate_sample(5 * SEC), None);
    assert_eq!(e.rate_sample(5 * SEC + 1), Some((1000, 5 * SEC + 1)));
    // a clock reading before the save gives no rate
    let f = EntryStats::first_datagram(10, 100 * SEC);
    assert_eq!(f.rate_sample(SEC), None);
}

#[test]
fn saved_counters_stay_ordered_over_many_datagrams() {
    let mut e = EntryStats::first_datagram(100, 0);
    let mut now = 0;
    for i in 1..40u64 {
        now += 3 * SEC + i;
        e.datagram_received(i * 7, now);
        assert!(e.saved_recv_counter_ts1 <= e.saved_recv_counter_ts2);
        assert!(e.saved_recv_counter_ts2 <= e.last_recv);
        assert_eq!(e.last_recv, now);
        assert!(e.saved_recv_counter_value1 <= e.saved_recv_counter_value2);
        assert!(e.saved_recv_counter_value2 <= e.recv_bytes);
    }
    assert_eq!(e.recv_dgrams, 40);
}
