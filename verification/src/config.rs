//! The configuration of a hub application: a list of hubs, each a list of
//! ports.
use vstd::prelude::*;

use crate::addr::SockAddr;

verus! {

/// An IP address as plain integers (in network order).
#[derive(Clone, Copy, PartialEq, Eq, Structural)]
pub enum IpAddress {
    V4(u32),
    V6(u128),
}

/// Configuration of one bound UDP port of a hub. Data received on any port of
/// the hub is transferred to all other clients (on that port and on the other
/// ports of the hub), except the sender.
pub struct Port {
    /// The port to bind to.
    pub port: u16,
    /// The IP address to bind to, IPv4 or IPv6.
    pub ip: IpAddress,
    /// How many recently seen peers to remember besides the `sendto` list.
    /// If 0 or unset, no peers are added to the list.
    pub last_n: Option<usize>,
    /// Forget discovered peers after this many milliseconds, if set.
    pub forget_ms: Option<u64>,
    /// Permanent addresses to send datagrams to.
    pub sendto: Option<Vec<SockAddr>>,
    /// SO_BROADCAST.
    pub broadcast: Option<bool>,
    /// IPv4 multicast group to join; needs `multicast_ifaddr` or `multicast_ifindex`.
    pub multicast_addr: Option<u32>,
    /// Address of the interface to join the IPv4 multicast group on.
    pub multicast_ifaddr: Option<u32>,
    /// Index of the interface to join the IPv4 multicast group on.
    pub multicast_ifindex: Option<u32>,
    /// IP_MULTICAST_TTL.
    pub multicast_ttl: Option<u32>,
    /// IPv6 multicast group to join; needs `multicast6_ifindex`.
    pub multicast6_addr: Option<u128>,
    /// Index of the interface to join the IPv6 multicast group on.
    pub multicast6_ifindex: Option<u32>,
    /// IP_TTL.
    pub ttl: Option<u32>,
    /// Period, in milliseconds, of sending `sender_data_base64` to the
    /// `sendto` addresses.
    pub sender_period_ms: Option<u64>,
    /// The periodically sent datagram, base64-encoded; empty if unset.
    pub sender_data_base64: Option<String>,
    /// Do not receive on this port.
    pub norecv: Option<bool>,
    /// SO_SNDBUF.
    pub sndbuf: Option<usize>,
    /// SO_RCVBUF.
    pub rcvbuf: Option<usize>,
    /// SO_SNDTIMEO, in milliseconds.
    pub write_timeout_ms: Option<u64>,
    /// IP_TOS.
    pub tos: Option<u32>,
    /// IPV6_V6ONLY, set before binding.
    pub v6only: Option<bool>,
    /// IPV6_MULTICAST_HOPS.
    pub v6_multicast_hops: Option<u32>,
    /// IPV6_UNICAST_HOPS.
    pub v6_unicast_hops: Option<u32>,
    /// Queue length of the hub (for all its ports); 16 if no port sets it.
    pub qlen: Option<usize>,
}

/// The configuration of an application: its hubs, each a list of ports.
pub type Config = Vec<Vec<Port>>;

/// The hub queue length when no port sets one.
pub const DEFAULT_QLEN: usize = 16;

/// Why a hub's queue length cannot be settled.
#[derive(Clone, Copy, PartialEq, Eq, Structural)]
pub enum QlenError {
    /// Two ports of the hub set different queue lengths.
    Conflict(usize, usize),
    /// A port sets a queue length of zero.
    Zero,
}

impl Port {
    /// Whether the port receives datagrams (unless `norecv` is set).
    pub open spec fn spec_receives(self) -> bool {
        self.norecv != Some(true)
    }

    /// Whether the port receives datagrams.
    pub fn receives(&self) -> (res: bool)
        ensures
            res == self.spec_receives(),
    {
        match self.norecv {
            Some(b) => !b,
            None => true,
        }
    }
}

/// Some port sets a queue length of zero.
pub open spec fn qlen_zero(ports: Seq<Port>) -> bool {
    exists|i: int| 0 <= i < ports.len() && ports[i].qlen == Some(0usize)
}

/// Two ports set different queue lengths.
pub open spec fn qlen_conflict(ports: Seq<Port>) -> bool {
    exists|i: int, j: int|
        0 <= i < ports.len() && 0 <= j < ports.len() && #[trigger] ports[i].qlen is Some
            && #[trigger] ports[j].qlen is Some && ports[i].qlen != ports[j].qlen
}

/// The values a conflict reports: `a` set at `i`, the first port that sets
/// one, and `b`, set at `j`, the first port after it that sets another.
pub open spec fn first_conflict(ports: Seq<Port>, i: int, j: int, a: usize, b: usize) -> bool {
    &&& 0 <= i < j < ports.len()
    &&& ports[i].qlen == Some(a)
    &&& ports[j].qlen == Some(b)
    &&& a != b
    &&& forall|k: int| 0 <= k < i ==> (#[trigger] ports[k].qlen) is None
    &&& forall|k: int| 0 <= k < j ==> (#[trigger] ports[k].qlen) is None || ports[k].qlen == Some(a)
}

/// `a` and `b` are the values a conflict among `ports` reports.
pub open spec fn conflict_values(ports: Seq<Port>, a: usize, b: usize) -> bool {
    exists|i: int, j: int| #[trigger] first_conflict(ports, i, j, a, b)
}

/// The queue length a hub of the given ports runs with, when they agree: the
/// one they set, or the default when none sets one.
pub open spec fn hub_qlen(ports: Seq<Port>) -> usize {
    if exists|i: int| 0 <= i < ports.len() && #[trigger] ports[i].qlen is Some {
        let i = choose|i: int| 0 <= i < ports.len() && #[trigger] ports[i].qlen is Some;
        ports[i].qlen.unwrap()
    } else {
        DEFAULT_QLEN
    }
}

/// Settles the queue length of a hub of the given ports. On a conflict the
/// error holds the first value set and the first value that differs from it.
pub fn queue_len(ports: &Vec<Port>) -> (res: Result<usize, QlenError>)
    ensures
        res is Ok <==> !qlen_zero(ports@) && !qlen_conflict(ports@),
        res matches Ok(q) ==> q == hub_qlen(ports@),
        res matches Err(QlenError::Zero) <==> qlen_zero(ports@),
        res matches Err(QlenError::Conflict(a, b)) ==> conflict_values(ports@, a, b),
{
    let mut i: usize = 0;
    while i < ports.len()
        invariant
            i <= ports.len(),
            forall|j: int| 0 <= j < i ==> ports@[j].qlen != Some(0usize),
        decreases ports.len() - i,
    {
        if ports[i].qlen == Some(0usize) {
            return Err(QlenError::Zero);
        }
        i = i + 1;
    }
    let mut found: Option<usize> = None;
    let ghost mut at: int = 0;
    i = 0;
    while i < ports.len()
        invariant
            i <= ports.len(),
            forall|j: int| 0 <= j < ports.len() ==> ports@[j].qlen != Some(0usize),
            found is None ==> forall|j: int| 0 <= j < i ==> (#[trigger] ports@[j].qlen) is None,
            found matches Some(q) ==> 0 <= at < i && ports@[at].qlen == Some(q)
                && forall|j: int| 0 <= j < i && (#[trigger] ports@[j].qlen) is Some ==> ports@[j].qlen == Some(q),
            found is Some ==> forall|j: int| 0 <= j < at ==> (#[trigger] ports@[j].qlen) is None,
        decreases ports.len() - i,
    {
        match ports[i].qlen {
            Some(q) => match found {
                Some(f) => {
                    if q != f {
                        proof {
                            assert(ports@[at].qlen is Some && ports@[i as int].qlen is Some);
                            assert(first_conflict(ports@, at, i as int, f, q));
                            assert(conflict_values(ports@, f, q));
                        }
                        return Err(QlenError::Conflict(f, q));
                    }
                },
                None => {
                    found = Some(q);
                    proof { at = i as int; }
                },
            },
            None => {},
        }
        i = i + 1;
    }
    match found {
        Some(q) => {
            proof {
                assert(ports@[at].qlen is Some);
                let k = choose|k: int| 0 <= k < ports.len() && #[trigger] ports@[k].qlen is Some;
                assert(ports@[k].qlen == Some(q));
            }
            Ok(q)
        },
        None => Ok(DEFAULT_QLEN),
    }
}

/// The answer to a configuration check: none for text that starts with `[`,
/// else a greeting.
pub open spec fn config_check_reply(input: Seq<char>) -> Option<Seq<char>> {
    if input.len() > 0 && input[0] == '[' {
        None
    } else {
        Some("Hello, "@ + input + "!"@)
    }
}

/// Answers a configuration check on `input`.
pub fn check_config_reply(input: &str) -> (res: Option<String>)
    ensures
        match res {
            Some(s) => config_check_reply(input@) == Some(s@),
            None => config_check_reply(input@) is None,
        },
{
    if input.unicode_len() > 0 && input.get_char(0) == '[' {
        None
    } else {
        let mut s = String::from_str("Hello, ");
        s.append(input);
        s.append("!");
        Some(s)
    }
}

} // verus!
