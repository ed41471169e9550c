use udphub::addr::SockAddr;
use udphub::config::{check_config_reply, queue_len, IpAddress, Port, QlenError, DEFAULT_QLEN};
use udphub::sender::{base64_decode, sender_of, SenderError};
use udphub::socket_plan::{socket_plan, SocketOp};

fn port() -> Port {
    Port {
        port: 1234,
        ip: IpAddress::V4(0),
        last_n: None,
        forget_ms: None,
        sendto: None,
        broadcast: None,
        multicast_addr: None,
        multicast_ifaddr: None,
        multicast_ifindex: None,
        multicast_ttl: None,
        multicast6_addr: None,
        multicast6_ifindex: None,
        ttl: None,
        sender_period_ms: None,
        sender_data_base64: None,
        norecv: None,
        sndbuf: None,
        rcvbuf: None,
        write_timeout_ms: None,
        tos: None,
        v6only: None,
        v6_multicast_hops: None,
        v6_unicast_hops: None,
        qlen: None,
    }
}

#[test]
fn plan_of_a_bare_port() {
    let p = socket_plan(&port());
    assert!(p == vec![
        SocketOp::ReuseAddress(true),
        SocketOp::ReusePort(true),
        SocketOp::Bind,
        SocketOp::NonBlocking(true),
    ]);
}

#[test]
fn plan_orders_every_option() {
    let mut c = port();
    c.v6only = Some(false);
    c.broadcast = Some(true);
    c.multicast_addr = Some(0xe000_0001);
    c.multicast_ifindex = Some(2);
    c.multicast_ifaddr = Some(0x0a00_0001);
    c.multicast6_addr = Some(0xff02 << 112);
    c.multicast6_ifindex = Some(3);
    c.multicast_ttl = Some(4);
    c.ttl = Some(64);
    c.tos = Some(16);
    c.v6_unicast_hops = Some(5);
    c.v6_multicast_hops = Some(6);
    c.write_timeout_ms = Some(100);
    c.sndbuf = Some(1 << 16);
    c.rcvbuf = Some(1 << 17);
    let p = socket_plan(&c);
    assert!(p == vec![
        SocketOp::ReuseAddress(true),
        SocketOp::ReusePort(true),
        SocketOp::OnlyV6(false),
        SocketOp::Bind,
        SocketOp::NonBlocking(true),
        SocketOp::Broadcast(true),
        SocketOp::JoinMulticastV6 { group: 0xff02 << 112, ifindex: 3 },
        SocketOp::JoinMulticastV4Index { group: 0xe000_0001, ifindex: 2 },
        SocketOp::JoinMulticastV4Addr { group: 0xe000_0001, ifaddr: 0x0a00_0001 },
        SocketOp::MulticastTtlV4(4),
        SocketOp::Ttl(64),
        SocketOp::Tos(16),
        SocketOp::UnicastHopsV6(5),
        SocketOp::MulticastHopsV6(6),
        SocketOp::WriteTimeoutMs(100),
        SocketOp::SendBufferSize(1 << 16),
        SocketOp::RecvBufferSize(1 << 17),
    ]);
}

#[test]
fn multicast_group_without_interface_is_not_joined() {
    let mut c = port();
    c.multicast_addr = Some(0xe000_0001);
    c.multicast6_addr = Some(1);
    assert_eq!(socket_plan(&c).len(), 4);
}

#[test]
fn queue_length_defaults_and_agrees() {
    let ports = vec![port(), port()];
    assert!(queue_len(&ports) == Ok(DEFAULT_QLEN));
    assert_eq!(DEFAULT_QLEN, 16);
    let mut a = port();
    a.qlen = Some(64);
    assert!(queue_len(&vec![port(), a]) == Ok(64));
    let mut b = port();
    b.qlen = Some(64);
    let mut c = port();
    c.qlen = Some(64);
    assert!(queue_len(&vec![b, c]) == Ok(64));
}

#[test]
fn queue_length_conflict_and_zero_are_errors() {
    let mut a = port();
    a.qlen = Some(8);
    let mut b = port();
    b.qlen = Some(32);
    assert!(queue_len(&vec![a, port(), b]) == Err(QlenError::Conflict(8, 32)));
    let mut z = port();
    z.qlen = Some(0);
    assert!(queue_len(&vec![z]) == Err(QlenError::Zero));
}

#[test]
fn receiving_can_be_switched_off() {
    let mut c = port();
    assert!(c.receives());
    c.norecv = Some(false);
    assert!(c.receives());
    c.norecv = Some(true);
    assert!(!c.receives());
}

#[test]
fn config_check_greets_unless_a_list() {
    assert_eq!(check_config_reply("world"), Some("Hello, world!".to_string()));
    assert_eq!(check_config_reply(""), Some("Hello, !".to_string()));
    assert_eq!(check_config_reply("[{}]"), None);
}

#[test]
fn base64_decodes_padded_text() {
    assert_eq!(base64_decode(""), Some(vec![]));
    assert_eq!(base64_decode("aGVsbG8="), Some(b"hello".to_vec()));
    assert_eq!(base64_decode("aGk="), Some(b"hi".to_vec()));
    assert_eq!(base64_decode("aGVs"), Some(b"hel".to_vec()));
    assert_eq!(base64_decode("aA=="), Some(b"h".to_vec()));
    assert_eq!(base64_decode("+/8="), Some(vec![0xfb, 0xff]));
}

#[test]
fn base64_rejects_bad_text() {
    assert_eq!(base64_decode("aGVsbG8"), None);
    assert_eq!(base64_decode("aA==aA=="), None);
    assert_eq!(base64_decode("a*=="), None);
    assert_eq!(base64_decode("a==="), None);
    assert_eq!(base64_decode("aA=b"), None);
}

#[test]
fn periodic_sender_setup() {
    let c = port();
    assert!(sender_of(&c) == Ok(None));
    let mut c = port();
    c.sender_period_ms = Some(1000);
    assert!(sender_of(&c) == Ok(Some((1000, vec![]))));
    c.sender_data_base64 = Some("AQID".to_string());
    assert!(sender_of(&c) == Ok(Some((1000, vec![1, 2, 3]))));
    c.sender_data_base64 = Some("AQI".to_string());
    assert!(sender_of(&c) == Err(SenderError::BadData));
    c.sender_period_ms = Some(0);
    assert!(sender_of(&c) == Err(SenderError::ZeroPeriod));
}

#[test]
fn sendto_addresses_are_kept() {
    let mut c = port();
    c.sendto = Some(vec![SockAddr { key: (0, 1, 2, 0, 0), text: "0.0.0.1:2".to_string() }]);
    assert_eq!(c.sendto.as_ref().unwrap()[0].text, "0.0.0.1:2");
}

#[test]
fn only_reuse_failures_are_ignored() {
    assert!(!SocketOp::ReuseAddress(true).aborts_on_failure());
    assert!(!SocketOp::ReusePort(false).aborts_on_failure());
    assert!(SocketOp::Bind.aborts_on_failure());
    assert!(SocketOp::Ttl(4).aborts_on_failure());
    assert!(SocketOp::JoinMulticastV4Index { group: 1, ifindex: 2 }.aborts_on_failure());
}

#[test]
fn conflict_reports_the_first_value_and_the_first_other() {
    let q = |v: Option<usize>| {
        let mut p = port();
        p.qlen = v;
        p
    };
    let ports = vec![q(None), q(Some(4)), q(Some(4)), q(Some(8)), q(Some(9))];
    assert!(queue_len(&ports) == Err(QlenError::Conflict(4, 8)));
}
