//! The statistics texts of a hub application: the short one (received totals)
//! and the long one (every hub, port and peer).
use vstd::prelude::*;

use crate::addr::{SockAddr, key_lt, key_less};
use crate::stats::{EntryStats, PortStats, SockAddrType, elapsed, elapsed_ns, kind_rank};
use crate::text::{
    ago_text, count_text, decimal, format_size_binary, push_char, push_decimal, size_text, time_ago,
};

verus! {

/// One peer line of a long report. `rate` is the text of the peer's receive
/// rate, when one is shown (see `EntryStats::rate_sample`).
pub struct PeerLine {
    pub addr: SockAddr,
    pub kind: SockAddrType,
    pub stats: EntryStats,
    pub rate: Option<String>,
}

impl Clone for PeerLine {
    fn clone(&self) -> (res: Self)
        ensures
            res == *self,
    {
        PeerLine {
            addr: self.addr.clone(),
            kind: self.kind,
            stats: self.stats,
            rate: match &self.rate {
                Some(r) => Some(r.clone()),
                None => None,
            },
        }
    }
}

/// A port's answer to a long statistics request.
pub struct PortAnswer {
    pub port_wide: PortStats,
    pub peers: Vec<PeerLine>,
}

/// A port in a long report: its address and its answer, if it gave one.
pub struct PortView {
    pub addr: SockAddr,
    pub answer: Option<PortAnswer>,
}

// ----- ordering of peer lines -----

/// Peer line `a` goes strictly before `b`: permanent peers first, then by address.
pub open spec fn line_before(a: PeerLine, b: PeerLine) -> bool {
    ||| kind_rank(a.kind) < kind_rank(b.kind)
    ||| kind_rank(a.kind) == kind_rank(b.kind) && key_lt(a.addr.key, b.addr.key)
}

/// `s` with `x` put before the first line that `x` goes before.
pub open spec fn insert_line(x: PeerLine, s: Seq<PeerLine>) -> Seq<PeerLine>
    decreases s.len(),
{
    if s.len() == 0 {
        seq![x]
    } else if line_before(x, s[0]) {
        seq![x] + s
    } else {
        seq![s[0]] + insert_line(x, s.drop_first())
    }
}

/// The lines of `s` ordered by kind and address; lines that tie keep their order.
pub open spec fn sort_lines(s: Seq<PeerLine>) -> Seq<PeerLine>
    decreases s.len(),
{
    if s.len() == 0 {
        Seq::empty()
    } else {
        insert_line(s.last(), sort_lines(s.drop_last()))
    }
}

/// No line of `s` goes before an earlier one.
pub open spec fn lines_sorted(s: Seq<PeerLine>) -> bool {
    forall|i: int, j: int| 0 <= i < j < s.len() ==> !line_before(#[trigger] s[j], #[trigger] s[i])
}

/// Where `insert_line` puts `x` into `s`.
pub open spec fn insert_index(x: PeerLine, s: Seq<PeerLine>) -> int
    decreases s.len(),
{
    if s.len() == 0 {
        0
    } else if line_before(x, s[0]) {
        0
    } else {
        1 + insert_index(x, s.drop_first())
    }
}

proof fn lemma_line_order(a: PeerLine, b: PeerLine, c: PeerLine)
    ensures
        !line_before(a, a),
        line_before(a, b) ==> !line_before(b, a),
        line_before(a, b) && line_before(b, c) ==> line_before(a, c),
{
    crate::addr::lemma_key_order(a.addr.key, b.addr.key, c.addr.key);
}

proof fn lemma_insert_index(x: PeerLine, s: Seq<PeerLine>)
    ensures
        0 <= insert_index(x, s) <= s.len(),
        forall|k: int| 0 <= k < insert_index(x, s) ==> !line_before(x, #[trigger] s[k]),
        insert_index(x, s) < s.len() ==> line_before(x, s[insert_index(x, s)]),
    decreases s.len(),
{
    if s.len() > 0 && !line_before(x, s[0]) {
        let t = s.drop_first();
        lemma_insert_index(x, t);
        assert forall|k: int| 0 <= k < insert_index(x, s) implies !line_before(x, #[trigger] s[k]) by {
            if k > 0 {
                assert(s[k] == t[k - 1]);
            }
        }
        if insert_index(x, s) < s.len() {
            assert(s[insert_index(x, s)] == t[insert_index(x, t)]);
        }
    }
}

/// Putting a line into sorted lines keeps them sorted and adds just that line.
proof fn lemma_insert_line(x: PeerLine, s: Seq<PeerLine>)
    ensures
        insert_line(x, s).to_multiset() == s.to_multiset().insert(x),
        insert_line(x, s).len() == s.len() + 1,
        lines_sorted(s) ==> lines_sorted(insert_line(x, s)),
{
    let j = insert_index(x, s);
    lemma_insert_index(x, s);
    lemma_insert_at(x, s, j);
    vstd::seq_lib::to_multiset_insert(s, j, x);
    let r = s.insert(j, x);
    if lines_sorted(s) {
        assert forall|a: int, b: int| 0 <= a < b < r.len() implies !line_before(#[trigger] r[b], #[trigger] r[a]) by {
            if b < j {
                assert(r[a] == s[a] && r[b] == s[b]);
            } else if b == j {
                assert(r[a] == s[a]);
            } else if a == j {
                assert(r[b] == s[b - 1]);
                lemma_line_order(s[b - 1], x, s[j]);
                if b - 1 > j {
                    assert(!line_before(s[b - 1], s[j]));
                }
            } else if a < j {
                assert(r[a] == s[a] && r[b] == s[b - 1]);
            } else {
                assert(r[a] == s[a - 1] && r[b] == s[b - 1]);
            }
        }
    }
}

/// The sorted lines are a rearrangement of the lines, ordered by kind and
/// address: permanent peers first, each kind by address.
pub proof fn lemma_sort_lines(s: Seq<PeerLine>)
    ensures
        sort_lines(s).to_multiset() == s.to_multiset(),
        sort_lines(s).len() == s.len(),
        lines_sorted(sort_lines(s)),
    decreases s.len(),
{
    if s.len() == 0 {
        assert(sort_lines(s) =~= s);
    } else {
        let init = s.drop_last();
        lemma_sort_lines(init);
        lemma_insert_line(s.last(), sort_lines(init));
        vstd::seq_lib::to_multiset_build(init, s.last());
        assert(init.push(s.last()) =~= s);
    }
}

fn line_precedes(a: &PeerLine, b: &PeerLine) -> (res: bool)
    ensures
        res == line_before(*a, *b),
{
    let ra: u8 = match a.kind {
        SockAddrType::Permanent => 0,
        SockAddrType::Transient => 1,
    };
    let rb: u8 = match b.kind {
        SockAddrType::Permanent => 0,
        SockAddrType::Transient => 1,
    };
    ra < rb || (ra == rb && key_less(&a.addr.key, &b.addr.key))
}

proof fn lemma_insert_at(x: PeerLine, s: Seq<PeerLine>, j: int)
    requires
        0 <= j <= s.len(),
        forall|k: int| 0 <= k < j ==> !line_before(x, #[trigger] s[k]),
        j < s.len() ==> line_before(x, s[j]),
    ensures
        insert_line(x, s) == s.insert(j, x),
    decreases s.len(),
{
    if s.len() == 0 {
        assert(s.insert(j, x) =~= seq![x]);
    } else if line_before(x, s[0]) {
        assert(s.insert(j, x) =~= seq![x] + s);
    } else {
        let t = s.drop_first();
        assert forall|k: int| 0 <= k < j - 1 implies !line_before(x, #[trigger] t[k]) by {
            assert(t[k] == s[k + 1]);
        }
        lemma_insert_at(x, t, j - 1);
        assert(seq![s[0]] + t.insert(j - 1, x) =~= s.insert(j, x));
    }
}

/// The lines of `v` ordered by kind and address, stably.
pub fn sort_peer_lines(v: &Vec<PeerLine>) -> (res: Vec<PeerLine>)
    ensures
        res@ == sort_lines(v@),
{
    let mut res: Vec<PeerLine> = Vec::new();
    let mut i: usize = 0;
    while i < v.len()
        invariant
            i <= v.len(),
            res@ == sort_lines(v@.take(i as int)),
        decreases v.len() - i,
    {
        let x = v[i].clone();
        let mut j: usize = 0;
        while j < res.len() && !line_precedes(&x, &res[j])
            invariant
                j <= res.len(),
                forall|k: int| 0 <= k < j ==> !line_before(x, #[trigger] res@[k]),
            decreases res.len() - j,
        {
            j = j + 1;
        }
        proof {
            lemma_insert_at(x, res@, j as int);
            assert(v@.take(i + 1).drop_last() =~= v@.take(i as int));
        }
        res.insert(j, x);
        i = i + 1;
    }
    assert(v@.take(v.len() as int) =~= v@);
    res
}

// ----- the short report -----

/// The sum of the received bytes of the answers.
pub open spec fn total_recv_bytes(s: Seq<PortStats>) -> int
    decreases s.len(),
{
    if s.len() == 0 { 0 } else { total_recv_bytes(s.drop_last()) + s.last().recv_bytes }
}

/// The sum of the received datagrams of the answers.
pub open spec fn total_recv_dgrams(s: Seq<PortStats>) -> int
    decreases s.len(),
{
    if s.len() == 0 { 0 } else { total_recv_dgrams(s.drop_last()) + s.last().recv_dgrams }
}

proof fn lemma_totals_grow(s: Seq<PortStats>, i: int)
    requires
        0 <= i <= s.len(),
    ensures
        0 <= total_recv_bytes(s.take(i)) <= total_recv_bytes(s),
        0 <= total_recv_dgrams(s.take(i)) <= total_recv_dgrams(s),
    decreases s.len(),
{
    if s.len() > 0 {
        let init = s.drop_last();
        if i == s.len() {
            assert(s.take(i) =~= s);
            lemma_totals_grow(init, init.len() as int);
            assert(init.take(init.len() as int) =~= init);
        } else {
            lemma_totals_grow(init, i);
            assert(s.take(i) =~= init.take(i));
            lemma_totals_grow(init, init.len() as int);
            assert(init.take(init.len() as int) =~= init);
        }
    } else {
        assert(s.take(i) =~= s);
    }
}

/// The received bytes and datagrams of all the answering ports together, if
/// each sum fits in 64 bits.
pub fn received_totals(answers: &Vec<PortStats>) -> (res: Option<(u64, u64)>)
    ensures
        match res {
            Some((b, d)) => b == total_recv_bytes(answers@) && d == total_recv_dgrams(answers@),
            None => total_recv_bytes(answers@) > u64::MAX || total_recv_dgrams(answers@) > u64::MAX,
        },
{
    let mut bytes: u64 = 0;
    let mut dgrams: u64 = 0;
    let mut i: usize = 0;
    while i < answers.len()
        invariant
            i <= answers.len(),
            bytes == total_recv_bytes(answers@.take(i as int)),
            dgrams == total_recv_dgrams(answers@.take(i as int)),
        decreases answers.len() - i,
    {
        proof {
            assert(answers@.take(i + 1).drop_last() =~= answers@.take(i as int));
            lemma_totals_grow(answers@, i + 1);
        }
        if bytes > u64::MAX - answers[i].recv_bytes || dgrams > u64::MAX - answers[i].recv_dgrams {
            return None;
        }
        bytes = bytes + answers[i].recv_bytes;
        dgrams = dgrams + answers[i].recv_dgrams;
        i = i + 1;
    }
    assert(answers@.take(answers.len() as int) =~= answers@);
    Some((bytes, dgrams))
}

/// The short report: the received total in binary units and the received
/// datagram count.
pub open spec fn short_text(bytes: u64, dgrams: u64) -> Seq<char> {
    size_text(bytes, 0) + ", "@ + count_text(dgrams) + " dgrams"@
}

/// The short report of `bytes` received in `dgrams` datagrams.
pub fn short_stats_text(bytes: u64, dgrams: u64) -> (res: String)
    ensures
        res@ == short_text(bytes, dgrams),
{
    let mut s = format_size_binary(bytes, 0);
    s.append(", ");
    push_decimal(&mut s, dgrams);
    s.append(" dgrams");
    s
}

// ----- the long report -----

/// The letter of a peer kind: `P` for permanent, `T` for discovered.
pub open spec fn kind_char(k: SockAddrType) -> char {
    match k {
        SockAddrType::Permanent => 'P',
        SockAddrType::Transient => 'T',
    }
}

/// The receive rate after a peer's receive line, if it is shown.
pub open spec fn rate_suffix(rate: Option<String>) -> Seq<char> {
    match rate {
        Some(r) => seq![' '] + r@,
        None => Seq::empty(),
    }
}

/// The heading line of a peer: its kind letter and address.
pub open spec fn peer_head(p: PeerLine) -> Seq<char> {
    "  peer "@ + seq![kind_char(p.kind), ' '] + p.addr.text@ + "\n"@
}

/// When a peer was first and last seen, as ages at `now`.
pub open spec fn peer_times(p: PeerLine, now: u64) -> Seq<char> {
    "    joined "@ + ago_text(elapsed(p.stats.begin, now) as u64) + "\n    last seen "@
        + ago_text(elapsed(p.stats.last_recv, now) as u64) + "\n"@
}

/// What a peer sent to the port, with its rate when it is shown.
pub open spec fn peer_recv(p: PeerLine) -> Seq<char> {
    "    recv "@ + size_text(p.stats.recv_bytes, 2) + " ("@ + count_text(p.stats.recv_dgrams) + " dgrams)"@
        + rate_suffix(p.rate) + "\n"@
}

/// What the port sent to a peer.
pub open spec fn peer_sent(p: PeerLine) -> Seq<char> {
    "    sent "@ + size_text(p.stats.send_bytes, 2) + " ("@ + count_text(p.stats.send_dgrams) + " dgrams)\n"@
}

/// The lines of one peer at `now`.
pub open spec fn peer_text(p: PeerLine, now: u64) -> Seq<char> {
    peer_head(p) + peer_times(p, now) + peer_recv(p) + peer_sent(p)
}

/// A peer's lines tell, in this order, how long before `now` it joined
/// (from when its counters began) and how long before `now` it was last
/// heard from (from its last receive).
pub proof fn lemma_peer_ages(p: PeerLine, now: u64)
    ensures
        ({
            let ages = "    joined "@ + ago_text(elapsed(p.stats.begin, now) as u64) + "\n    last seen "@
                + ago_text(elapsed(p.stats.last_recv, now) as u64) + "\n"@;
            exists|i: int| 0 <= i && i + ages.len() <= peer_text(p, now).len()
                && #[trigger] peer_text(p, now).subrange(i, i + ages.len()) == ages
        }),
{
    let ages = "    joined "@ + ago_text(elapsed(p.stats.begin, now) as u64) + "\n    last seen "@
        + ago_text(elapsed(p.stats.last_recv, now) as u64) + "\n"@;
    let t = peer_text(p, now);
    let i = peer_head(p).len() as int;
    assert(t.subrange(i, i + ages.len()) =~= ages);
}

/// The lines of the peers of `s`, in order.
pub open spec fn peers_text(s: Seq<PeerLine>, now: u64) -> Seq<char>
    decreases s.len(),
{
    if s.len() == 0 {
        Seq::empty()
    } else {
        peers_text(s.drop_last(), now) + peer_text(s.last(), now)
    }
}

/// The error line of a port, when it has lagged or had send or receive errors.
pub open spec fn errors_text(w: PortStats) -> Seq<char> {
    if w.lagged > 0 || w.send_errors > 0 || w.recv_errors > 0 {
        "  lagged "@ + count_text(w.lagged) + " senderrs "@ + count_text(w.send_errors) + " recverrs "@
            + count_text(w.recv_errors) + "\n"@
    } else {
        Seq::empty()
    }
}

/// The line of datagrams that no other port took, when there were any.
pub open spec fn nowhere_text(w: PortStats) -> Seq<char> {
    if w.dgrams_to_nowhere > 0 {
        "  datagrams to nowhere "@ + count_text(w.dgrams_to_nowhere) + "\n"@
    } else {
        Seq::empty()
    }
}

/// The totals lines of a port: what it received and what it sent.
pub open spec fn totals_text(w: PortStats) -> Seq<char> {
    "  recv "@ + size_text(w.recv_bytes, 2) + " ("@ + count_text(w.recv_dgrams) + " dgrams)\n"@
        + "  sent "@ + size_text(w.send_bytes, 2) + " ("@ + count_text(w.send_dgrams) + " dgrams)\n"@
}

/// The lines of a port's answer: its totals, its error lines, and its peers
/// ordered by kind and address.
pub open spec fn answer_text(a: PortAnswer, now: u64) -> Seq<char> {
    totals_text(a.port_wide) + errors_text(a.port_wide) + nowhere_text(a.port_wide)
        + peers_text(sort_lines(a.peers@), now)
}

/// The lines of a port: its address, then its answer if it gave one.
pub open spec fn port_text(v: PortView, now: u64) -> Seq<char> {
    "port "@ + v.addr.text@ + "\n"@ + match v.answer {
        Some(a) => answer_text(a, now),
        None => Seq::empty(),
    }
}

/// The lines of the ports of `s`, in order.
pub open spec fn ports_text(s: Seq<PortView>, now: u64) -> Seq<char>
    decreases s.len(),
{
    if s.len() == 0 {
        Seq::empty()
    } else {
        ports_text(s.drop_last(), now) + port_text(s.last(), now)
    }
}

/// The lines of hub number `index` (from 0) of `count` hubs: a heading when
/// there is more than one hub, a note when it has no ports, then its ports.
pub open spec fn hub_text(index: nat, count: nat, ports: Seq<PortView>, now: u64) -> Seq<char> {
    (if count != 1 { "* Hub "@ + decimal(index + 1) + " *\n"@ } else { Seq::empty() })
        + (if ports.len() == 0 { "No ports\n"@ } else { Seq::empty() })
        + ports_text(ports, now)
}

/// The lines of the hubs of `s`, which are the first of `count` hubs.
pub open spec fn hubs_text(s: Seq<Vec<PortView>>, count: nat, now: u64) -> Seq<char>
    decreases s.len(),
{
    if s.len() == 0 {
        Seq::empty()
    } else {
        hubs_text(s.drop_last(), count, now) + hub_text((s.len() - 1) as nat, count, s.last()@, now)
    }
}

/// The long report at `now`: a note when there are no hubs, then every hub.
pub open spec fn long_text(hubs: Seq<Vec<PortView>>, now: u64) -> Seq<char> {
    (if hubs.len() == 0 { "No hubs\n"@ } else { Seq::empty() }) + hubs_text(hubs, hubs.len(), now)
}

fn append_size(buf: &mut String, n: u64, decimal_zeroes: usize)
    requires
        decimal_zeroes <= 2,
    ensures
        final(buf)@ == old(buf)@ + size_text(n, decimal_zeroes),
{
    let t = format_size_binary(n, decimal_zeroes);
    buf.append(t.as_str());
}

fn append_ago(buf: &mut String, nanos: u64)
    ensures
        final(buf)@ == old(buf)@ + ago_text(nanos),
{
    let t = time_ago(nanos);
    buf.append(t.as_str());
}

fn append_peer_head(buf: &mut String, p: &PeerLine)
    ensures
        final(buf)@ == old(buf)@ + peer_head(*p),
{
    buf.append("  peer ");
    push_char(buf, match p.kind {
        SockAddrType::Permanent => 'P',
        SockAddrType::Transient => 'T',
    });
    push_char(buf, ' ');
    buf.append(p.addr.text.as_str());
    buf.append("\n");
    assert(final(buf)@ =~= old(buf)@ + peer_head(*p));
}

fn append_peer_times(buf: &mut String, p: &PeerLine, now: u64)
    ensures
        final(buf)@ == old(buf)@ + peer_times(*p, now),
{
    buf.append("    joined ");
    append_ago(buf, elapsed_ns(p.stats.begin, now));
    buf.append("\n    last seen ");
    append_ago(buf, elapsed_ns(p.stats.last_recv, now));
    buf.append("\n");
    assert(final(buf)@ =~= old(buf)@ + peer_times(*p, now));
}

fn append_peer_recv(buf: &mut String, p: &PeerLine)
    ensures
        final(buf)@ == old(buf)@ + peer_recv(*p),
{
    buf.append("    recv ");
    append_size(buf, p.stats.recv_bytes, 2);
    buf.append(" (");
    push_decimal(buf, p.stats.recv_dgrams);
    buf.append(" dgrams)");
    let ghost mid = buf@;
    match &p.rate {
        Some(r) => {
            push_char(buf, ' ');
            buf.append(r.as_str());
        },
        None => {},
    }
    assert(buf@ =~= mid + rate_suffix(p.rate));
    buf.append("\n");
    assert(final(buf)@ =~= old(buf)@ + peer_recv(*p));
}

fn append_peer_sent(buf: &mut String, p: &PeerLine)
    ensures
        final(buf)@ == old(buf)@ + peer_sent(*p),
{
    buf.append("    sent ");
    append_size(buf, p.stats.send_bytes, 2);
    buf.append(" (");
    push_decimal(buf, p.stats.send_dgrams);
    buf.append(" dgrams)\n");
    assert(final(buf)@ =~= old(buf)@ + peer_sent(*p));
}

fn append_peer(buf: &mut String, p: &PeerLine, now: u64)
    ensures
        final(buf)@ == old(buf)@ + peer_text(*p, now),
{
    append_peer_head(buf, p);
    append_peer_times(buf, p, now);
    append_peer_recv(buf, p);
    append_peer_sent(buf, p);
    assert(final(buf)@ =~= old(buf)@ + peer_text(*p, now));
}

fn append_peers(buf: &mut String, peers: &Vec<PeerLine>, now: u64)
    ensures
        final(buf)@ == old(buf)@ + peers_text(peers@, now),
{
    let ghost start = buf@;
    let mut i: usize = 0;
    while i < peers.len()
        invariant
            i <= peers.len(),
            buf@ == start + peers_text(peers@.take(i as int), now),
        decreases peers.len() - i,
    {
        proof {
            assert(peers@.take(i + 1).drop_last() =~= peers@.take(i as int));
        }
        append_peer(buf, &peers[i], now);
        assert(buf@ =~= start + peers_text(peers@.take(i + 1), now));
        i = i + 1;
    }
    assert(peers@.take(peers.len() as int) =~= peers@);
}

fn append_totals(buf: &mut String, w: &PortStats)
    ensures
        final(buf)@ == old(buf)@ + totals_text(*w),
{
    buf.append("  recv ");
    append_size(buf, w.recv_bytes, 2);
    buf.append(" (");
    push_decimal(buf, w.recv_dgrams);
    buf.append(" dgrams)\n");
    buf.append("  sent ");
    append_size(buf, w.send_bytes, 2);
    buf.append(" (");
    push_decimal(buf, w.send_dgrams);
    buf.append(" dgrams)\n");
    assert(final(buf)@ =~= old(buf)@ + totals_text(*w));
}

fn append_errors(buf: &mut String, w: &PortStats)
    ensures
        final(buf)@ == old(buf)@ + errors_text(*w),
{
    if w.lagged > 0 || w.send_errors > 0 || w.recv_errors > 0 {
        buf.append("  lagged ");
        push_decimal(buf, w.lagged);
        buf.append(" senderrs ");
        push_decimal(buf, w.send_errors);
        buf.append(" recverrs ");
        push_decimal(buf, w.recv_errors);
        buf.append("\n");
    }
    assert(final(buf)@ =~= old(buf)@ + errors_text(*w));
}

fn append_nowhere(buf: &mut String, w: &PortStats)
    ensures
        final(buf)@ == old(buf)@ + nowhere_text(*w),
{
    if w.dgrams_to_nowhere > 0 {
        buf.append("  datagrams to nowhere ");
        push_decimal(buf, w.dgrams_to_nowhere);
        buf.append("\n");
    }
    assert(final(buf)@ =~= old(buf)@ + nowhere_text(*w));
}

fn append_answer(buf: &mut String, a: &PortAnswer, now: u64)
    ensures
        final(buf)@ == old(buf)@ + answer_text(*a, now),
{
    let w = a.port_wide;
    append_totals(buf, &w);
    append_errors(buf, &w);
    append_nowhere(buf, &w);
    let sorted = sort_peer_lines(&a.peers);
    append_peers(buf, &sorted, now);
    assert(final(buf)@ =~= old(buf)@ + answer_text(*a, now));
}

fn append_port(buf: &mut String, v: &PortView, now: u64)
    ensures
        final(buf)@ == old(buf)@ + port_text(*v, now),
{
    buf.append("port ");
    buf.append(v.addr.text.as_str());
    buf.append("\n");
    match &v.answer {
        Some(a) => append_answer(buf, a, now),
        None => {},
    }
    assert(final(buf)@ =~= old(buf)@ + port_text(*v, now));
}

fn append_ports(buf: &mut String, ports: &Vec<PortView>, now: u64)
    ensures
        final(buf)@ == old(buf)@ + ports_text(ports@, now),
{
    let ghost start = buf@;
    let mut i: usize = 0;
    while i < ports.len()
        invariant
            i <= ports.len(),
            buf@ == start + ports_text(ports@.take(i as int), now),
        decreases ports.len() - i,
    {
        proof {
            assert(ports@.take(i + 1).drop_last() =~= ports@.take(i as int));
        }
        append_port(buf, &ports[i], now);
        assert(buf@ =~= start + ports_text(ports@.take(i + 1), now));
        i = i + 1;
    }
    assert(ports@.take(ports.len() as int) =~= ports@);
}

/// The long report of `hubs` at `now` (nanoseconds on the hubs' clock).
pub fn long_stats_text(hubs: &Vec<Vec<PortView>>, now: u64) -> (res: String)
    ensures
        res@ == long_text(hubs@, now),
{
    let mut buf = String::new();
    if hubs.len() == 0 {
        buf.append("No hubs\n");
    }
    let ghost start = buf@;
    assert(start =~= if hubs.len() == 0 { "No hubs\n"@ } else { Seq::empty() });
    let mut i: usize = 0;
    while i < hubs.len()
        invariant
            i <= hubs.len(),
            buf@ == start + hubs_text(hubs@.take(i as int), hubs.len() as nat, now),
        decreases hubs.len() - i,
    {
        proof {
            assert(hubs@.take(i + 1).drop_last() =~= hubs@.take(i as int));
        }
        let ghost before = buf@;
        if hubs.len() != 1 {
            buf.append("* Hub ");
            push_decimal(&mut buf, (i + 1) as u64);
            buf.append(" *\n");
        }
        if hubs[i].len() == 0 {
            buf.append("No ports\n");
        }
        append_ports(&mut buf, &hubs[i], now);
        assert(buf@ =~= before + hub_text(i as nat, hubs.len() as nat, hubs@[i as int]@, now));
        assert(buf@ =~= start + hubs_text(hubs@.take(i + 1), hubs.len() as nat, now));
        i = i + 1;
    }
    assert(hubs@.take(hubs.len() as int) =~= hubs@);
    buf
}

} // verus!
