//! The steps that set up a port's UDP socket from its configuration, in the
//! order they are taken, and which of them fail the set-up when they fail.
//! Creating the socket and taking each step is done outside.
use vstd::prelude::*;

use crate::config::Port;

verus! {

/// One step of setting up a port's socket.
#[allow(inconsistent_fields)]
#[derive(Clone, Copy, PartialEq, Eq, Structural)]
pub enum SocketOp {
    /// SO_REUSEADDR; a failure is ignored.
    ReuseAddress(bool),
    /// SO_REUSEPORT; a failure is ignored.
    ReusePort(bool),
    /// IPV6_V6ONLY.
    OnlyV6(bool),
    /// Bind to the port's address.
    Bind,
    /// Make the socket non-blocking.
    NonBlocking(bool),
    /// SO_BROADCAST.
    Broadcast(bool),
    /// Join an IPv6 multicast group on an interface given by index.
    JoinMulticastV6 { group: u128, ifindex: u32 },
    /// Join an IPv4 multicast group on an interface given by index.
    JoinMulticastV4Index { group: u32, ifindex: u32 },
    /// Join an IPv4 multicast group on an interface given by address.
    JoinMulticastV4Addr { group: u32, ifaddr: u32 },
    /// IP_MULTICAST_TTL.
    MulticastTtlV4(u32),
    /// IP_TTL.
    Ttl(u32),
    /// IP_TOS.
    Tos(u32),
    /// IPV6_UNICAST_HOPS.
    UnicastHopsV6(u32),
    /// IPV6_MULTICAST_HOPS.
    MulticastHopsV6(u32),
    /// SO_SNDTIMEO, in milliseconds.
    WriteTimeoutMs(u64),
    /// SO_SNDBUF.
    SendBufferSize(usize),
    /// SO_RCVBUF.
    RecvBufferSize(usize),
}

/// Whether a failure of step `op` fails the set-up: every step does but
/// the two reuse options.
pub open spec fn failure_aborts(op: SocketOp) -> bool {
    match op {
        SocketOp::ReuseAddress(_) => false,
        SocketOp::ReusePort(_) => false,
        _ => true,
    }
}

impl SocketOp {
    /// Whether a failure of this step fails the set-up.
    pub fn aborts_on_failure(&self) -> (res: bool)
        ensures
            res == failure_aborts(*self),
    {
        match self {
            SocketOp::ReuseAddress(_) => false,
            SocketOp::ReusePort(_) => false,
            _ => true,
        }
    }
}

/// The steps of a list of optional steps that are there, in order.
pub open spec fn present_steps(steps: Seq<Option<SocketOp>>) -> Seq<SocketOp>
    decreases steps.len(),
{
    if steps.len() == 0 {
        Seq::empty()
    } else {
        let rest = present_steps(steps.drop_last());
        match steps.last() {
            Some(op) => rest.push(op),
            None => rest,
        }
    }
}

/// Every step that may set up the socket of port `c`, in order, each there
/// when its setting is given.
pub open spec fn candidate_steps(c: Port) -> Seq<Option<SocketOp>> {
    seq![
        Some(SocketOp::ReuseAddress(true)),
        Some(SocketOp::ReusePort(true)),
        match c.v6only { Some(b) => Some(SocketOp::OnlyV6(b)), None => None },
        Some(SocketOp::Bind),
        Some(SocketOp::NonBlocking(true)),
        match c.broadcast { Some(b) => Some(SocketOp::Broadcast(b)), None => None },
        match (c.multicast6_addr, c.multicast6_ifindex) {
            (Some(g), Some(i)) => Some(SocketOp::JoinMulticastV6 { group: g, ifindex: i }),
            _ => None,
        },
        match (c.multicast_addr, c.multicast_ifindex) {
            (Some(g), Some(i)) => Some(SocketOp::JoinMulticastV4Index { group: g, ifindex: i }),
            _ => None,
        },
        match (c.multicast_addr, c.multicast_ifaddr) {
            (Some(g), Some(a)) => Some(SocketOp::JoinMulticastV4Addr { group: g, ifaddr: a }),
            _ => None,
        },
        match c.multicast_ttl { Some(x) => Some(SocketOp::MulticastTtlV4(x)), None => None },
        match c.ttl { Some(x) => Some(SocketOp::Ttl(x)), None => None },
        match c.tos { Some(x) => Some(SocketOp::Tos(x)), None => None },
        match c.v6_unicast_hops { Some(x) => Some(SocketOp::UnicastHopsV6(x)), None => None },
        match c.v6_multicast_hops { Some(x) => Some(SocketOp::MulticastHopsV6(x)), None => None },
        match c.write_timeout_ms { Some(x) => Some(SocketOp::WriteTimeoutMs(x)), None => None },
        match c.sndbuf { Some(x) => Some(SocketOp::SendBufferSize(x)), None => None },
        match c.rcvbuf { Some(x) => Some(SocketOp::RecvBufferSize(x)), None => None },
    ]
}

/// The steps that set up the socket of port `c`: the reuse options, the
/// v6-only option, binding, non-blocking mode, then each further option
/// that is set, in the order of `candidate_steps`.
pub open spec fn plan(c: Port) -> Seq<SocketOp> {
    present_steps(candidate_steps(c))
}

/// Every step that may set up the socket of port `c`.
fn candidates(c: &Port) -> (res: Vec<Option<SocketOp>>)
    ensures
        res@ == candidate_steps(*c),
{
    let v = vec![
        Some(SocketOp::ReuseAddress(true)),
        Some(SocketOp::ReusePort(true)),
        match c.v6only { Some(b) => Some(SocketOp::OnlyV6(b)), None => None },
        Some(SocketOp::Bind),
        Some(SocketOp::NonBlocking(true)),
        match c.broadcast { Some(b) => Some(SocketOp::Broadcast(b)), None => None },
        match (c.multicast6_addr, c.multicast6_ifindex) {
            (Some(g), Some(i)) => Some(SocketOp::JoinMulticastV6 { group: g, ifindex: i }),
            _ => None,
        },
        match (c.multicast_addr, c.multicast_ifindex) {
            (Some(g), Some(i)) => Some(SocketOp::JoinMulticastV4Index { group: g, ifindex: i }),
            _ => None,
        },
        match (c.multicast_addr, c.multicast_ifaddr) {
            (Some(g), Some(a)) => Some(SocketOp::JoinMulticastV4Addr { group: g, ifaddr: a }),
            _ => None,
        },
        match c.multicast_ttl { Some(x) => Some(SocketOp::MulticastTtlV4(x)), None => None },
        match c.ttl { Some(x) => Some(SocketOp::Ttl(x)), None => None },
        match c.tos { Some(x) => Some(SocketOp::Tos(x)), None => None },
        match c.v6_unicast_hops { Some(x) => Some(SocketOp::UnicastHopsV6(x)), None => None },
        match c.v6_multicast_hops { Some(x) => Some(SocketOp::MulticastHopsV6(x)), None => None },
        match c.write_timeout_ms { Some(x) => Some(SocketOp::WriteTimeoutMs(x)), None => None },
        match c.sndbuf { Some(x) => Some(SocketOp::SendBufferSize(x)), None => None },
        match c.rcvbuf { Some(x) => Some(SocketOp::RecvBufferSize(x)), None => None },
    ];
    assert(v@ =~= candidate_steps(*c));
    v
}

/// The steps that set up the socket of port `c`, in order.
pub fn socket_plan(c: &Port) -> (res: Vec<SocketOp>)
    ensures
        res@ == plan(*c),
        forall|op: SocketOp| #[trigger] res@.contains(op) <==> asked_for(*c, op),
{
    let steps = candidates(c);
    let mut res: Vec<SocketOp> = Vec::new();
    let mut i: usize = 0;
    while i < steps.len()
        invariant
            i <= steps.len(),
            res@ == present_steps(steps@.take(i as int)),
        decreases steps.len() - i,
    {
        proof {
            assert(steps@.take(i + 1).drop_last() =~= steps@.take(i as int));
        }
        match steps[i] {
            Some(op) => res.push(op),
            None => {},
        }
        i = i + 1;
    }
    assert(steps@.take(steps.len() as int) =~= steps@);
    proof {
        assert(res@ == plan(*c));
        lemma_plan_is_what_is_asked(*c);
        assert forall|op: SocketOp| #[trigger] res@.contains(op) <==> asked_for(*c, op) by {
            assert(plan(*c).contains(op) <==> asked_for(*c, op));
        }
    }
    res
}

/// Whether port `c`'s configuration asks for step `op`: the reuse options,
/// binding and non-blocking mode always, every other step exactly when the
/// settings it carries are given (an IPv4 group is joined on an interface
/// given by index and, separately, on one given by address).
pub open spec fn asked_for(c: Port, op: SocketOp) -> bool {
    match op {
        SocketOp::ReuseAddress(b) => b,
        SocketOp::ReusePort(b) => b,
        SocketOp::OnlyV6(b) => c.v6only == Some(b),
        SocketOp::Bind => true,
        SocketOp::NonBlocking(b) => b,
        SocketOp::Broadcast(b) => c.broadcast == Some(b),
        SocketOp::JoinMulticastV6 { group, ifindex } =>
            c.multicast6_addr == Some(group) && c.multicast6_ifindex == Some(ifindex),
        SocketOp::JoinMulticastV4Index { group, ifindex } =>
            c.multicast_addr == Some(group) && c.multicast_ifindex == Some(ifindex),
        SocketOp::JoinMulticastV4Addr { group, ifaddr } =>
            c.multicast_addr == Some(group) && c.multicast_ifaddr == Some(ifaddr),
        SocketOp::MulticastTtlV4(x) => c.multicast_ttl == Some(x),
        SocketOp::Ttl(x) => c.ttl == Some(x),
        SocketOp::Tos(x) => c.tos == Some(x),
        SocketOp::UnicastHopsV6(x) => c.v6_unicast_hops == Some(x),
        SocketOp::MulticastHopsV6(x) => c.v6_multicast_hops == Some(x),
        SocketOp::WriteTimeoutMs(x) => c.write_timeout_ms == Some(x),
        SocketOp::SendBufferSize(x) => c.sndbuf == Some(x),
        SocketOp::RecvBufferSize(x) => c.rcvbuf == Some(x),
    }
}

/// The steps that are there are exactly those of the optional steps that
/// are given.
proof fn lemma_present_steps(steps: Seq<Option<SocketOp>>)
    ensures
        forall|op: SocketOp| #[trigger] present_steps(steps).contains(op)
            <==> exists|i: int| 0 <= i < steps.len() && steps[i] == Some(op),
    decreases steps.len(),
{
    if steps.len() > 0 {
        let init = steps.drop_last();
        lemma_present_steps(init);
        let rest = present_steps(init);
        let all = present_steps(steps);
        assert forall|op: SocketOp| #[trigger] all.contains(op)
            <==> exists|i: int| 0 <= i < steps.len() && steps[i] == Some(op) by {
            if all.contains(op) {
                let j = choose|j: int| 0 <= j < all.len() && all[j] == op;
                if j < rest.len() {
                    assert(all[j] == rest[j]);
                    assert(rest.contains(op));
                    let i = choose|i: int| 0 <= i < init.len() && init[i] == Some(op);
                    assert(steps[i] == Some(op));
                } else {
                    assert(steps[steps.len() - 1] == Some(op));
                }
            }
            if exists|i: int| 0 <= i < steps.len() && steps[i] == Some(op) {
                let i = choose|i: int| 0 <= i < steps.len() && steps[i] == Some(op);
                if i == steps.len() - 1 {
                    assert(all[all.len() - 1] == op);
                } else {
                    assert(init[i] == Some(op));
                    assert(rest.contains(op));
                    let j = choose|j: int| 0 <= j < rest.len() && rest[j] == op;
                    assert(all[j] == rest[j]);
                }
            }
        }
    }
}

/// A port's socket is set up with exactly the steps its configuration asks
/// for: every option that is set is applied, each multicast group is joined
/// on every interface given for it, and nothing that is not set is done.
pub proof fn lemma_plan_is_what_is_asked(c: Port)
    ensures
        forall|op: SocketOp| #[trigger] plan(c).contains(op) <==> asked_for(c, op),
{
    let steps = candidate_steps(c);
    lemma_present_steps(steps);
    assert forall|op: SocketOp| #[trigger] plan(c).contains(op) <==> asked_for(c, op) by {
        if plan(c).contains(op) {
            let i = choose|i: int| 0 <= i < steps.len() && steps[i] == Some(op);
            assert(0 <= i < 17);
            if i == 0 {} else if i == 1 {} else if i == 2 {} else if i == 3 {} else if i == 4 {}
            else if i == 5 {} else if i == 6 {} else if i == 7 {} else if i == 8 {} else if i == 9 {}
            else if i == 10 {} else if i == 11 {} else if i == 12 {} else if i == 13 {} else if i == 14 {}
            else if i == 15 {} else {}
        }
        if asked_for(c, op) {
            let i: int = match op {
                SocketOp::ReuseAddress(_) => 0,
                SocketOp::ReusePort(_) => 1,
                SocketOp::OnlyV6(_) => 2,
                SocketOp::Bind => 3,
                SocketOp::NonBlocking(_) => 4,
                SocketOp::Broadcast(_) => 5,
                SocketOp::JoinMulticastV6 { .. } => 6,
                SocketOp::JoinMulticastV4Index { .. } => 7,
                SocketOp::JoinMulticastV4Addr { .. } => 8,
                SocketOp::MulticastTtlV4(_) => 9,
                SocketOp::Ttl(_) => 10,
                SocketOp::Tos(_) => 11,
                SocketOp::UnicastHopsV6(_) => 12,
                SocketOp::MulticastHopsV6(_) => 13,
                SocketOp::WriteTimeoutMs(_) => 14,
                SocketOp::SendBufferSize(_) => 15,
                SocketOp::RecvBufferSize(_) => 16,
            };
            assert(steps[i] == Some(op));
        }
    }
}

} // verus!
