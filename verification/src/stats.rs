use vstd::prelude::*;

use crate::addr::SockAddr;

verus! {

/// How long, in nanoseconds, a saved receive counter is kept before the
/// newer one takes its place.
pub const RATE_WINDOW_NS: u64 = 10_000_000_000;

/// How long, in nanoseconds, the older saved receive counter must lie back
/// before a receive rate is shown for a peer.
pub const RATE_MIN_NS: u64 = 5_000_000_000;

/// Time from `earlier` to `later` in nanoseconds, zero if `later` comes first.
pub open spec fn elapsed(earlier: u64, later: u64) -> nat {
    if later >= earlier {
        (later - earlier) as nat
    } else {
        0
    }
}

/// Nanoseconds from `earlier` to `later`, zero if `later` comes first.
pub fn elapsed_ns(earlier: u64, later: u64) -> (res: u64)
    ensures
        res == elapsed(earlier, later),
{
    if later >= earlier {
        later - earlier
    } else {
        0
    }
}

/// Which kind of report a statistics request asks for.
#[derive(Clone, Copy, PartialEq, Eq, Structural)]
pub enum GetStatsMode {
    /// Totals of received bytes and datagrams only.
    Short,
    /// Per port and per peer details.
    Long,
}

/// Counters of one port of a hub.
#[derive(Clone, Copy)]
pub struct PortStats {
    pub recv_errors: u64,
    pub dgrams_to_nowhere: u64,
    pub send_errors: u64,
    pub lagged: u64,
    pub recv_dgrams: u64,
    pub recv_bytes: u64,
    pub send_dgrams: u64,
    pub send_bytes: u64,
}

impl PortStats {
    /// All counters are zero.
    pub open spec fn is_zero(self) -> bool {
        &&& self.recv_errors == 0
        &&& self.dgrams_to_nowhere == 0
        &&& self.send_errors == 0
        &&& self.lagged == 0
        &&& self.recv_dgrams == 0
        &&& self.recv_bytes == 0
        &&& self.send_dgrams == 0
        &&& self.send_bytes == 0
    }

    /// No counter of `self` exceeds its value in `other`.
    pub open spec fn le(self, other: PortStats) -> bool {
        &&& self.recv_errors <= other.recv_errors
        &&& self.dgrams_to_nowhere <= other.dgrams_to_nowhere
        &&& self.send_errors <= other.send_errors
        &&& self.lagged <= other.lagged
        &&& self.recv_dgrams <= other.recv_dgrams
        &&& self.recv_bytes <= other.recv_bytes
        &&& self.send_dgrams <= other.send_dgrams
        &&& self.send_bytes <= other.send_bytes
    }
}

impl Default for PortStats {
    fn default() -> (res: Self)
        ensures
            res.is_zero(),
    {
        PortStats {
            recv_errors: 0,
            dgrams_to_nowhere: 0,
            send_errors: 0,
            lagged: 0,
            recv_dgrams: 0,
            recv_bytes: 0,
            send_dgrams: 0,
            send_bytes: 0,
        }
    }
}

/// Counters of one peer of a port. Times are nanoseconds on the hub's
/// monotonic clock.
#[derive(Clone, Copy)]
pub struct EntryStats {
    pub recv_dgrams: u64,
    pub recv_bytes: u64,
    pub send_dgrams: u64,
    pub send_bytes: u64,
    pub begin: u64,
    pub last_recv: u64,
    pub saved_recv_counter_ts1: u64,
    pub saved_recv_counter_value1: u64,
    pub saved_recv_counter_ts2: u64,
    pub saved_recv_counter_value2: u64,
}

impl EntryStats {
    /// The saved receive counters never run ahead of the received bytes:
    /// the older one is at most the newer one, which is at most the total.
    pub open spec fn wf(self) -> bool {
        self.saved_recv_counter_value1 <= self.saved_recv_counter_value2 <= self.recv_bytes
    }

    /// The times are in order: the older save, the newer save, the last receive.
    pub open spec fn times_ordered(self) -> bool {
        self.begin <= self.saved_recv_counter_ts1 <= self.saved_recv_counter_ts2 <= self.last_recv
    }

    /// The counters of a peer known since `now`, with nothing counted.
    pub open spec fn idle(now: u64) -> EntryStats {
        EntryStats {
            recv_dgrams: 0,
            recv_bytes: 0,
            send_dgrams: 0,
            send_bytes: 0,
            begin: now,
            last_recv: now,
            saved_recv_counter_ts1: now,
            saved_recv_counter_value1: 0,
            saved_recv_counter_ts2: now,
            saved_recv_counter_value2: 0,
        }
    }

    /// A peer known from the start (a permanent one), with nothing counted.
    pub fn started(now: u64) -> (res: Self)
        ensures
            res == EntryStats::idle(now),
            res.wf(),
            res.times_ordered(),
    {
        EntryStats {
            recv_dgrams: 0,
            recv_bytes: 0,
            send_dgrams: 0,
            send_bytes: 0,
            begin: now,
            last_recv: now,
            saved_recv_counter_ts1: now,
            saved_recv_counter_value1: 0,
            saved_recv_counter_ts2: now,
            saved_recv_counter_value2: 0,
        }
    }

    /// The counters of a peer discovered at `now` by a datagram of `n` bytes.
    pub open spec fn fresh(n: u64, now: u64) -> EntryStats {
        EntryStats {
            recv_dgrams: 1,
            recv_bytes: n,
            send_dgrams: 0,
            send_bytes: 0,
            begin: now,
            last_recv: now,
            saved_recv_counter_ts1: now,
            saved_recv_counter_value1: n,
            saved_recv_counter_ts2: now,
            saved_recv_counter_value2: n,
        }
    }

    /// A peer discovered by its first datagram of `n` bytes.
    pub fn first_datagram(n: u64, now: u64) -> (res: Self)
        ensures
            res == EntryStats::fresh(n, now),
            res.wf(),
            res.times_ordered(),
    {
        EntryStats {
            recv_dgrams: 1,
            recv_bytes: n,
            send_dgrams: 0,
            send_bytes: 0,
            begin: now,
            last_recv: now,
            saved_recv_counter_ts1: now,
            saved_recv_counter_value1: n,
            saved_recv_counter_ts2: now,
            saved_recv_counter_value2: n,
        }
    }

    /// What `datagram_received` makes of `self`.
    pub open spec fn after_datagram(self, n: u64, now: u64) -> EntryStats {
        let recv_bytes = (self.recv_bytes + n) as u64;
        let counted = EntryStats {
            recv_bytes,
            recv_dgrams: (self.recv_dgrams + 1) as u64,
            last_recv: now,
            ..self
        };
        if elapsed(self.saved_recv_counter_ts2, now) > RATE_WINDOW_NS {
            EntryStats {
                saved_recv_counter_value1: self.saved_recv_counter_value2,
                saved_recv_counter_ts1: self.saved_recv_counter_ts2,
                saved_recv_counter_value2: recv_bytes,
                saved_recv_counter_ts2: now,
                ..counted
            }
        } else {
            counted
        }
    }

    /// Counts a datagram of `n` bytes received at `now`. When the newer saved
    /// receive counter is more than the rate window old, it becomes the older
    /// one and the current total is saved as the newer one.
    pub fn datagram_received(&mut self, n: u64, now: u64)
        requires
            old(self).recv_bytes + n <= u64::MAX,
            old(self).recv_dgrams < u64::MAX,
        ensures
            *final(self) == old(self).after_datagram(n, now),
            old(self).wf() ==> final(self).wf(),
            old(self).times_ordered() && old(self).last_recv <= now ==> final(self).times_ordered(),
    {
        self.recv_bytes = self.recv_bytes + n;
        self.recv_dgrams = self.recv_dgrams + 1;
        self.last_recv = now;
        if elapsed_ns(self.saved_recv_counter_ts2, now) > RATE_WINDOW_NS {
            self.saved_recv_counter_value1 = self.saved_recv_counter_value2;
            self.saved_recv_counter_ts1 = self.saved_recv_counter_ts2;
            self.saved_recv_counter_value2 = self.recv_bytes;
            self.saved_recv_counter_ts2 = now;
        }
    }

    /// Counting a datagram of `n` bytes at `now` adds `n` to the bytes and one
    /// to the datagrams received, makes `now` the last receive, and leaves
    /// the start and the send counters alone. The saved counters move on
    /// exactly when the newer save is more than the rate window old: the
    /// newer becomes the older, and the new total at `now` the newer.
    pub proof fn lemma_datagram_counts(self, n: u64, now: u64)
        requires
            self.recv_bytes + n <= u64::MAX,
            self.recv_dgrams < u64::MAX,
        ensures
            ({
                let r = self.after_datagram(n, now);
                let rotated = now > self.saved_recv_counter_ts2 && now - self.saved_recv_counter_ts2 > RATE_WINDOW_NS;
                &&& r.recv_bytes == self.recv_bytes + n
                &&& r.recv_dgrams == self.recv_dgrams + 1
                &&& r.last_recv == now
                &&& r.begin == self.begin && r.send_bytes == self.send_bytes && r.send_dgrams == self.send_dgrams
                &&& rotated ==> r.saved_recv_counter_ts1 == self.saved_recv_counter_ts2
                    && r.saved_recv_counter_value1 == self.saved_recv_counter_value2
                    && r.saved_recv_counter_ts2 == now && r.saved_recv_counter_value2 == self.recv_bytes + n
                &&& !rotated ==> r.saved_recv_counter_ts1 == self.saved_recv_counter_ts1
                    && r.saved_recv_counter_value1 == self.saved_recv_counter_value1
                    && r.saved_recv_counter_ts2 == self.saved_recv_counter_ts2
                    && r.saved_recv_counter_value2 == self.saved_recv_counter_value2
            }),
    {
    }

    /// Counting a datagram keeps the saved receive counters in order: their
    /// times stay in order up to the datagram's time, which becomes the last
    /// receive, and their values stay within the bytes received.
    pub proof fn lemma_datagram_keeps_saves_ordered(self, n: u64, now: u64)
        requires
            self.saved_recv_counter_ts1 <= self.saved_recv_counter_ts2 <= now,
            self.wf(),
            self.recv_bytes + n <= u64::MAX,
        ensures
            ({
                let r = self.after_datagram(n, now);
                &&& r.saved_recv_counter_ts1 <= r.saved_recv_counter_ts2 <= r.last_recv
                &&& r.last_recv == now
                &&& r.wf()
            }),
    {
    }

    /// What a peer's receive rate is measured over at `now`: the bytes
    /// received since the older saved counter and the nanoseconds since it
    /// was saved, when that is more than `RATE_MIN_NS` ago.
    pub open spec fn rate_window(self, now: u64) -> Option<(u64, u64)> {
        let tm = elapsed(self.saved_recv_counter_ts1, now);
        if tm > RATE_MIN_NS {
            let nb = if self.recv_bytes >= self.saved_recv_counter_value1 {
                (self.recv_bytes - self.saved_recv_counter_value1) as u64
            } else {
                0u64
            };
            Some((nb, tm as u64))
        } else {
            None
        }
    }

    /// The receive rate is measured from the older saved counter: it is
    /// shown exactly when that save lies more than `RATE_MIN_NS` back, and
    /// then over the bytes received since that save (none if the count is
    /// behind it) and the nanoseconds since that same save.
    pub proof fn lemma_rate_from_older_save(self, now: u64)
        ensures
            self.rate_window(now) is Some <==> elapsed(self.saved_recv_counter_ts1, now) > RATE_MIN_NS,
            self.rate_window(now) matches Some((nb, tm)) ==> {
                &&& tm == elapsed(self.saved_recv_counter_ts1, now)
                &&& self.saved_recv_counter_ts1 + tm == now
                &&& self.saved_recv_counter_value1 <= self.recv_bytes
                    ==> self.saved_recv_counter_value1 + nb == self.recv_bytes
                &&& self.recv_bytes < self.saved_recv_counter_value1 ==> nb == 0
            },
    {
    }

    /// The bytes and nanoseconds over which the receive rate is shown, if it is.
    pub fn rate_sample(&self, now: u64) -> (res: Option<(u64, u64)>)
        ensures
            res == self.rate_window(now),
            self.wf() && res is Some ==> res.unwrap().0 == self.recv_bytes - self.saved_recv_counter_value1,
            res is Some <==> elapsed(self.saved_recv_counter_ts1, now) > RATE_MIN_NS,
            res matches Some((_, tm)) ==> self.saved_recv_counter_ts1 + tm == now,
    {
        let tm = elapsed_ns(self.saved_recv_counter_ts1, now);
        if tm > RATE_MIN_NS {
            Some((self.recv_bytes.saturating_sub(self.saved_recv_counter_value1), tm))
        } else {
            None
        }
    }
}

/// `a + b` wrapped around at 2^64.
pub open spec fn wrap_add(a: u64, b: u64) -> u64 {
    if a + b > u64::MAX {
        (a + b - 0x1_0000_0000_0000_0000) as u64
    } else {
        (a + b) as u64
    }
}

impl EntryStats {
    /// What sending a datagram of `m` bytes to the peer makes of its
    /// counters; these send counters wrap around.
    pub open spec fn after_send(self, m: u64) -> EntryStats {
        EntryStats {
            send_bytes: wrap_add(self.send_bytes, m),
            send_dgrams: wrap_add(self.send_dgrams, 1),
            ..self
        }
    }

    /// Counts a datagram of `m` bytes sent to the peer.
    pub fn datagram_sent(&mut self, m: u64)
        ensures
            *final(self) == old(self).after_send(m),
            old(self).wf() ==> final(self).wf(),
    {
        self.send_bytes = self.send_bytes.wrapping_add(m);
        self.send_dgrams = self.send_dgrams.wrapping_add(1);
    }
}

impl PortStats {
    /// What receiving a datagram of `n` bytes makes of the port's counters;
    /// `delivered` tells whether the hub's channel took it.
    pub open spec fn after_received(self, n: u64, delivered: bool) -> PortStats {
        PortStats {
            recv_bytes: (self.recv_bytes + n) as u64,
            recv_dgrams: (self.recv_dgrams + 1) as u64,
            dgrams_to_nowhere: if delivered {
                self.dgrams_to_nowhere
            } else {
                (self.dgrams_to_nowhere + 1) as u64
            },
            ..self
        }
    }

    /// What sending a datagram makes of the port's counters: `Some(m)` for
    /// `m` bytes sent, `None` for a failed send.
    pub open spec fn after_sent(self, sent: Option<u64>) -> PortStats {
        match sent {
            Some(m) => PortStats {
                send_bytes: (self.send_bytes + m) as u64,
                send_dgrams: (self.send_dgrams + 1) as u64,
                ..self
            },
            None => PortStats { send_errors: (self.send_errors + 1) as u64, ..self },
        }
    }

    /// Counting a received datagram of `n` bytes overflows no counter.
    pub open spec fn room_for_received(self, n: u64, delivered: bool) -> bool {
        &&& self.recv_bytes + n <= u64::MAX
        &&& self.recv_dgrams < u64::MAX
        &&& !delivered ==> self.dgrams_to_nowhere < u64::MAX
    }

    /// Counting a send overflows no counter.
    pub open spec fn room_for_sent(self, sent: Option<u64>) -> bool {
        match sent {
            Some(m) => self.send_bytes + m <= u64::MAX && self.send_dgrams < u64::MAX,
            None => self.send_errors < u64::MAX,
        }
    }
}

/// Something that happens to a port's counters.
#[derive(Clone, Copy)]
pub enum PortEvent {
    /// A datagram of so many bytes received; whether the hub's channel took it.
    Received(u64, bool),
    /// A datagram sent: `Some` of the bytes sent, or `None` for a failed send.
    Sent(Option<u64>),
    /// So many datagrams lost by falling behind the hub's channel.
    Lagged(u64),
    /// A failed receive.
    RecvError,
}

impl PortStats {
    /// What an event makes of the port's counters.
    pub open spec fn after_event(self, ev: PortEvent) -> PortStats {
        match ev {
            PortEvent::Received(n, delivered) => self.after_received(n, delivered),
            PortEvent::Sent(sent) => self.after_sent(sent),
            PortEvent::Lagged(x) => PortStats { lagged: (self.lagged + x) as u64, ..self },
            PortEvent::RecvError => PortStats { recv_errors: (self.recv_errors + 1) as u64, ..self },
        }
    }
}

/// The port's counters after the events `evs`, in order, starting from `s`.
pub open spec fn replay(s: PortStats, evs: Seq<PortEvent>) -> PortStats
    decreases evs.len(),
{
    if evs.len() == 0 {
        s
    } else {
        replay(s, evs.drop_last()).after_event(evs.last())
    }
}

/// The sum of `f` over the events `evs`.
pub open spec fn total(evs: Seq<PortEvent>, f: spec_fn(PortEvent) -> nat) -> nat
    decreases evs.len(),
{
    if evs.len() == 0 {
        0
    } else {
        total(evs.drop_last(), f) + f(evs.last())
    }
}

/// Bytes received in an event.
pub open spec fn bytes_received(ev: PortEvent) -> nat {
    match ev {
        PortEvent::Received(n, _) => n as nat,
        _ => 0,
    }
}

/// Datagrams received in an event.
pub open spec fn dgrams_received(ev: PortEvent) -> nat {
    match ev {
        PortEvent::Received(_, _) => 1,
        _ => 0,
    }
}

/// Received datagrams the hub's channel did not take in an event.
pub open spec fn dgrams_undelivered(ev: PortEvent) -> nat {
    match ev {
        PortEvent::Received(_, false) => 1,
        _ => 0,
    }
}

/// Bytes sent in an event.
pub open spec fn bytes_sent(ev: PortEvent) -> nat {
    match ev {
        PortEvent::Sent(Some(m)) => m as nat,
        _ => 0,
    }
}

/// Datagrams sent in an event.
pub open spec fn dgrams_sent(ev: PortEvent) -> nat {
    match ev {
        PortEvent::Sent(Some(_)) => 1,
        _ => 0,
    }
}

/// Failed sends in an event.
pub open spec fn failed_sends(ev: PortEvent) -> nat {
    match ev {
        PortEvent::Sent(None) => 1,
        _ => 0,
    }
}

/// Datagrams lost by falling behind in an event.
pub open spec fn dgrams_lagged(ev: PortEvent) -> nat {
    match ev {
        PortEvent::Lagged(x) => x as nat,
        _ => 0,
    }
}

/// Failed receives in an event.
pub open spec fn failed_receives(ev: PortEvent) -> nat {
    match ev {
        PortEvent::RecvError => 1,
        _ => 0,
    }
}

/// No total over the events `evs` exceeds what a counter holds.
pub open spec fn totals_fit(evs: Seq<PortEvent>) -> bool {
    &&& total(evs, |e: PortEvent| bytes_received(e)) <= u64::MAX
    &&& total(evs, |e: PortEvent| dgrams_received(e)) <= u64::MAX
    &&& total(evs, |e: PortEvent| dgrams_undelivered(e)) <= u64::MAX
    &&& total(evs, |e: PortEvent| bytes_sent(e)) <= u64::MAX
    &&& total(evs, |e: PortEvent| dgrams_sent(e)) <= u64::MAX
    &&& total(evs, |e: PortEvent| failed_sends(e)) <= u64::MAX
    &&& total(evs, |e: PortEvent| dgrams_lagged(e)) <= u64::MAX
    &&& total(evs, |e: PortEvent| failed_receives(e)) <= u64::MAX
}

/// A total over a prefix of the events is at most the total over them all.
pub proof fn lemma_total_prefix(evs: Seq<PortEvent>, f: spec_fn(PortEvent) -> nat, k: int)
    requires
        0 <= k <= evs.len(),
    ensures
        total(evs.take(k), f) <= total(evs, f),
    decreases evs.len(),
{
    if k < evs.len() {
        lemma_total_prefix(evs.drop_last(), f, k);
        assert(evs.drop_last().take(k) =~= evs.take(k));
    } else {
        assert(evs.take(k) =~= evs);
    }
}

/// A port's counters count what happened to it: starting from zero, after
/// any events whose totals fit the counters, each counter is the total of
/// its events (bytes and datagrams received and sent, datagrams the hub's
/// channel did not take, failed sends and receives, datagrams lost by
/// falling behind), and no counter is ever lower than it was after fewer of
/// the events.
pub proof fn lemma_counters_count_events(s: PortStats, evs: Seq<PortEvent>)
    requires
        s.is_zero(),
        totals_fit(evs),
    ensures
        ({
            let r = replay(s, evs);
            &&& r.recv_bytes == total(evs, |e: PortEvent| bytes_received(e))
            &&& r.recv_dgrams == total(evs, |e: PortEvent| dgrams_received(e))
            &&& r.dgrams_to_nowhere == total(evs, |e: PortEvent| dgrams_undelivered(e))
            &&& r.send_bytes == total(evs, |e: PortEvent| bytes_sent(e))
            &&& r.send_dgrams == total(evs, |e: PortEvent| dgrams_sent(e))
            &&& r.send_errors == total(evs, |e: PortEvent| failed_sends(e))
            &&& r.lagged == total(evs, |e: PortEvent| dgrams_lagged(e))
            &&& r.recv_errors == total(evs, |e: PortEvent| failed_receives(e))
        }),
        forall|k: int| 0 <= k <= evs.len() ==> (#[trigger] replay(s, evs.take(k))).le(replay(s, evs)),
    decreases evs.len(),
{
    if evs.len() > 0 {
        let init = evs.drop_last();
        lemma_total_prefix(evs, |e: PortEvent| bytes_received(e), init.len() as int);
        lemma_total_prefix(evs, |e: PortEvent| dgrams_received(e), init.len() as int);
        lemma_total_prefix(evs, |e: PortEvent| dgrams_undelivered(e), init.len() as int);
        lemma_total_prefix(evs, |e: PortEvent| bytes_sent(e), init.len() as int);
        lemma_total_prefix(evs, |e: PortEvent| dgrams_sent(e), init.len() as int);
        lemma_total_prefix(evs, |e: PortEvent| failed_sends(e), init.len() as int);
        lemma_total_prefix(evs, |e: PortEvent| dgrams_lagged(e), init.len() as int);
        lemma_total_prefix(evs, |e: PortEvent| failed_receives(e), init.len() as int);
        assert(evs.take(init.len() as int) =~= init);
        lemma_counters_count_events(s, init);
        assert forall|k: int| 0 <= k <= evs.len() implies (#[trigger] replay(s, evs.take(k))).le(replay(s, evs)) by {
            if k < evs.len() {
                assert(init.take(k) =~= evs.take(k));
                assert(replay(s, init.take(k)).le(replay(s, init)));
            } else {
                assert(evs.take(k) =~= evs);
            }
        }
    } else {
        assert forall|k: int| 0 <= k <= evs.len() implies (#[trigger] replay(s, evs.take(k))).le(replay(s, evs)) by {
            assert(evs.take(k) =~= evs);
        }
    }
}

/// How a peer became known to a port.
#[derive(Clone, Copy, PartialEq, Eq, Structural, PartialOrd, Ord)]
pub enum SockAddrType {
    /// Listed in the port's configuration.
    Permanent,
    /// Discovered by a datagram it sent.
    Transient,
}

/// The position of a peer kind in reports: permanent peers come first.
pub open spec fn kind_rank(k: SockAddrType) -> int {
    match k {
        SockAddrType::Permanent => 0,
        SockAddrType::Transient => 1,
    }
}

/// A port's answer to a statistics request.
pub struct ReportStats {
    pub port_wide: PortStats,
    pub peers: Vec<(SockAddr, SockAddrType, EntryStats)>,
}

} // verus!
