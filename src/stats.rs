//! Per-window byte counters, by endpoint and by interface, both ways.

use vstd::prelude::*;

verus! {

/// The map that a list of `(key, count)` entries stands for; with unique
/// keys each key maps to its one count.
pub open spec fn to_map<K>(s: Seq<(K, u64)>) -> Map<K, u64>
    decreases s.len(),
{
    if s.len() == 0 {
        Map::empty()
    } else {
        to_map(s.drop_last()).insert(s.last().0, s.last().1)
    }
}

pub open spec fn keys_unique<K>(s: Seq<(K, u64)>) -> bool {
    forall|i: int, j: int| 0 <= i < j < s.len() ==> s[i].0 != s[j].0
}

/// `a + b`, held at `u64::MAX`.
pub open spec fn sat_add(a: u64, b: u64) -> u64 {
    if a + b > u64::MAX {
        u64::MAX
    } else {
        (a + b) as u64
    }
}

/// The count of `k` in `m`, zero where it is absent.
pub open spec fn count_of<K>(m: Map<K, u64>, k: K) -> u64 {
    if m.contains_key(k) {
        m[k]
    } else {
        0
    }
}

/// `m` with `len` more bytes counted for `k`.
pub open spec fn bump<K>(m: Map<K, u64>, k: K, len: u64) -> Map<K, u64> {
    m.insert(k, sat_add(count_of(m, k), len))
}

pub proof fn lemma_to_map_keys<K>(s: Seq<(K, u64)>, k: K)
    ensures
        to_map(s).contains_key(k) <==> exists|i: int| 0 <= i < s.len() && (#[trigger] s[i]).0 == k,
    decreases s.len(),
{
    if s.len() > 0 {
        lemma_to_map_keys(s.drop_last(), k);
        if to_map(s.drop_last()).contains_key(k) {
            let i = choose|i: int| 0 <= i < s.len() - 1 && (#[trigger] s.drop_last()[i]).0 == k;
            assert(s[i] == s.drop_last()[i]);
        }
        if exists|i: int| 0 <= i < s.len() && (#[trigger] s[i]).0 == k {
            let i = choose|i: int| 0 <= i < s.len() && (#[trigger] s[i]).0 == k;
            if i < s.len() - 1 {
                assert(s.drop_last()[i] == s[i]);
            }
        }
    }
}

pub proof fn lemma_to_map_value<K>(s: Seq<(K, u64)>, i: int)
    requires
        keys_unique(s),
        0 <= i < s.len(),
    ensures
        to_map(s).contains_key(s[i].0),
        to_map(s)[s[i].0] == s[i].1,
    decreases s.len(),
{
    if i < s.len() - 1 {
        assert(s.drop_last()[i] == s[i]);
        lemma_to_map_value(s.drop_last(), i);
    }
}

proof fn lemma_to_map_update<K>(s: Seq<(K, u64)>, i: int, v: u64)
    requires
        keys_unique(s),
        0 <= i < s.len(),
    ensures
        to_map(s.update(i, (s[i].0, v))) == to_map(s).insert(s[i].0, v),
        keys_unique(s.update(i, (s[i].0, v))),
    decreases s.len(),
{
    let t = s.update(i, (s[i].0, v));
    if i == s.len() - 1 {
        assert(t.drop_last() =~= s.drop_last());
        lemma_to_map_keys(s.drop_last(), s[i].0);
        assert(!to_map(s.drop_last()).contains_key(s[i].0));
        assert(to_map(t) =~= to_map(s).insert(s[i].0, v));
    } else {
        assert(t.drop_last() =~= s.drop_last().update(i, (s[i].0, v)));
        lemma_to_map_update(s.drop_last(), i, v);
        assert(to_map(t) =~= to_map(s).insert(s[i].0, v));
    }
}

/// Bytes counted for one endpoint behind one interface.
#[derive(Debug)]
pub struct EndpointCount {
    pub nic: String,
    pub ip: u32,
    pub bytes: u64,
}

/// Bytes counted for one interface.
#[derive(Debug)]
pub struct NicCount {
    pub nic: String,
    pub bytes: u64,
}

pub open spec fn endpoint_entries(s: Seq<EndpointCount>) -> Seq<((Seq<char>, u32), u64)> {
    s.map_values(|e: EndpointCount| ((e.nic@, e.ip), e.bytes))
}

pub open spec fn nic_entries(s: Seq<NicCount>) -> Seq<(Seq<char>, u64)> {
    s.map_values(|e: NicCount| (e.nic@, e.bytes))
}

/// Per-endpoint counters, keyed by (interface name, endpoint address).
#[derive(Debug)]
pub struct EndpointTally {
    pub entries: Vec<EndpointCount>,
}

/// Per-interface counters, keyed by interface name.
#[derive(Debug)]
pub struct NicTally {
    pub entries: Vec<NicCount>,
}

impl View for EndpointTally {
    type V = Map<(Seq<char>, u32), u64>;

    open spec fn view(&self) -> Map<(Seq<char>, u32), u64> {
        to_map(endpoint_entries(self.entries@))
    }
}

impl View for NicTally {
    type V = Map<Seq<char>, u64>;

    open spec fn view(&self) -> Map<Seq<char>, u64> {
        to_map(nic_entries(self.entries@))
    }
}

impl EndpointTally {
    pub open spec fn wf(&self) -> bool {
        keys_unique(endpoint_entries(self.entries@))
    }

    pub fn new() -> (r: EndpointTally)
        ensures
            r.wf(),
            r@ == Map::<(Seq<char>, u32), u64>::empty(),
    {
        let r = EndpointTally { entries: Vec::new() };
        assert(endpoint_entries(r.entries@) =~= Seq::empty());
        r
    }

    /// Counts `len` more bytes for `(nic, ip)`.
    pub fn add(&mut self, nic: &String, ip: u32, len: u64)
        requires
            old(self).wf(),
        ensures
            final(self).wf(),
            final(self)@ == bump(old(self)@, (nic@, ip), len),
    {
        let ghost s = endpoint_entries(self.entries@);
        let mut i: usize = 0;
        while i < self.entries.len()
            invariant
                i <= self.entries@.len(),
                s == endpoint_entries(self.entries@),
                s == endpoint_entries(old(self).entries@),
                keys_unique(s),
                forall|j: int| 0 <= j < i ==> (#[trigger] s[j]).0 != (nic@, ip),
            decreases self.entries@.len() - i,
        {
            if self.entries[i].ip == ip && self.entries[i].nic == *nic {
                assert(s[i as int].0 == (nic@, ip));
                let old_bytes = self.entries[i].bytes;
                let b = old_bytes.saturating_add(len);
                proof {
                    assert(s[i as int].1 == old_bytes);
                    assert(b == sat_add(old_bytes, len));
                    lemma_to_map_value(s, i as int);
                    lemma_to_map_update(s, i as int, b);
                }
                self.entries[i].bytes = b;
                proof {
                    assert(endpoint_entries(self.entries@) =~= s.update(i as int, (s[i as int].0, b)));
                    assert(self.wf());
                }
                return;
            }
            i = i + 1;
        }
        proof {
            lemma_to_map_keys(s, (nic@, ip));
        }
        self.entries.push(EndpointCount { nic: nic.clone(), ip, bytes: len });
        proof {
            let t = endpoint_entries(self.entries@);
            assert(t.drop_last() =~= s);
            assert(to_map(t) =~= bump(to_map(s), (nic@, ip), len));
            assert forall|a: int, b: int| 0 <= a < b < t.len() implies t[a].0 != t[b].0 by {
                assert(t[a] == s[a]);
                if b < t.len() - 1 {
                    assert(t[b] == s[b]);
                }
            }
        }
    }
}

impl NicTally {
    pub open spec fn wf(&self) -> bool {
        keys_unique(nic_entries(self.entries@))
    }

    pub fn new() -> (r: NicTally)
        ensures
            r.wf(),
            r@ == Map::<Seq<char>, u64>::empty(),
    {
        let r = NicTally { entries: Vec::new() };
        assert(nic_entries(r.entries@) =~= Seq::empty());
        r
    }

    /// Counts `len` more bytes for `nic`.
    pub fn add(&mut self, nic: &String, len: u64)
        requires
            old(self).wf(),
        ensures
            final(self).wf(),
            final(self)@ == bump(old(self)@, nic@, len),
    {
        let ghost s = nic_entries(self.entries@);
        let mut i: usize = 0;
        while i < self.entries.len()
            invariant
                i <= self.entries@.len(),
                s == nic_entries(self.entries@),
                s == nic_entries(old(self).entries@),
                keys_unique(s),
                forall|j: int| 0 <= j < i ==> (#[trigger] s[j]).0 != nic@,
            decreases self.entries@.len() - i,
        {
            if self.entries[i].nic == *nic {
                assert(s[i as int].0 == nic@);
                let old_bytes = self.entries[i].bytes;
                let b = old_bytes.saturating_add(len);
                proof {
                    assert(s[i as int].1 == old_bytes);
                    assert(b == sat_add(old_bytes, len));
                    lemma_to_map_value(s, i as int);
                    lemma_to_map_update(s, i as int, b);
                }
                self.entries[i].bytes = b;
                proof {
                    assert(nic_entries(self.entries@) =~= s.update(i as int, (s[i as int].0, b)));
                    assert(self.wf());
                }
                return;
            }
            i = i + 1;
        }
        proof {
            lemma_to_map_keys(s, nic@);
        }
        self.entries.push(NicCount { nic: nic.clone(), bytes: len });
        proof {
            let t = nic_entries(self.entries@);
            assert(t.drop_last() =~= s);
            assert(to_map(t) =~= bump(to_map(s), nic@, len));
            assert forall|a: int, b: int| 0 <= a < b < t.len() implies t[a].0 != t[b].0 by {
                assert(t[a] == s[a]);
                if b < t.len() - 1 {
                    assert(t[b] == s[b]);
                }
            }
        }
    }
}


/// Which way a frame moved relative to the local endpoint.
#[derive(Clone, Copy, Debug, PartialEq, Eq, Structural)]
pub enum Direction {
    Transmit,
    Receive,
}

/// The counters of one direction: per (interface, endpoint) and per interface.
pub type DirectionView = (Map<(Seq<char>, u32), u64>, Map<Seq<char>, u64>);

/// No bytes counted in either direction.
pub open spec fn empty_direction() -> DirectionView {
    (Map::empty(), Map::empty())
}

/// `d` after `len` bytes are counted for the endpoint `ip` behind `nic`: the
/// endpoint's counter and the interface's total both grow by `len`.
pub open spec fn recorded(d: DirectionView, nic: Seq<char>, ip: u32, len: u64) -> DirectionView {
    (bump(d.0, (nic, ip), len), bump(d.1, nic, len))
}

/// The traffic of one reporting window, both directions.
#[derive(Debug)]
pub struct TrafficStats {
    pub tx_bytes: EndpointTally,
    pub rx_bytes: EndpointTally,
    pub nic_tx_total: NicTally,
    pub nic_rx_total: NicTally,
}

impl View for TrafficStats {
    /// Transmit counters, then receive counters.
    type V = (DirectionView, DirectionView);

    open spec fn view(&self) -> (DirectionView, DirectionView) {
        ((self.tx_bytes@, self.nic_tx_total@), (self.rx_bytes@, self.nic_rx_total@))
    }
}

/// `v` after one `record` call.
pub open spec fn stats_recorded(
    v: (DirectionView, DirectionView),
    dir: Direction,
    nic: Seq<char>,
    ip: u32,
    len: u64,
) -> (DirectionView, DirectionView) {
    match dir {
        Direction::Transmit => (recorded(v.0, nic, ip, len), v.1),
        Direction::Receive => (v.0, recorded(v.1, nic, ip, len)),
    }
}

/// Nothing counted, either way.
pub open spec fn empty_stats() -> (DirectionView, DirectionView) {
    (empty_direction(), empty_direction())
}

impl TrafficStats {
    pub open spec fn wf(&self) -> bool {
        &&& self.tx_bytes.wf()
        &&& self.rx_bytes.wf()
        &&& self.nic_tx_total.wf()
        &&& self.nic_rx_total.wf()
    }

    pub fn new() -> (r: TrafficStats)
        ensures
            r.wf(),
            r@ == empty_stats(),
    {
        TrafficStats {
            tx_bytes: EndpointTally::new(),
            rx_bytes: EndpointTally::new(),
            nic_tx_total: NicTally::new(),
            nic_rx_total: NicTally::new(),
        }
    }

    /// Counts a frame of `len` bytes for the endpoint `ip` behind `nic`, in
    /// the counters of `dir`; the other direction is left alone.
    pub fn record(&mut self, dir: Direction, nic: &String, ip: u32, len: u64)
        requires
            old(self).wf(),
        ensures
            final(self).wf(),
            final(self)@ == stats_recorded(old(self)@, dir, nic@, ip, len),
    {
        match dir {
            Direction::Transmit => {
                self.tx_bytes.add(nic, ip, len);
                self.nic_tx_total.add(nic, len);
            },
            Direction::Receive => {
                self.rx_bytes.add(nic, ip, len);
                self.nic_rx_total.add(nic, len);
            },
        }
    }

    /// Clears every counter of both directions.
    pub fn reset(&mut self)
        ensures
            final(self).wf(),
            final(self)@ == empty_stats(),
    {
        self.tx_bytes = EndpointTally::new();
        self.rx_bytes = EndpointTally::new();
        self.nic_tx_total = NicTally::new();
        self.nic_rx_total = NicTally::new();
    }

    /// Hands back the window's counters and leaves every counter cleared,
    /// in one step: each `record` lands wholly in this window or the next.
    pub fn drain_and_reset(&mut self) -> (r: TrafficStats)
        requires
            old(self).wf(),
        ensures
            r.wf(),
            r@ == old(self)@,
            final(self).wf(),
            final(self)@ == empty_stats(),
    {
        let mut fresh = TrafficStats::new();
        core::mem::swap(self, &mut fresh);
        fresh
    }
}

/// The counters of one direction after the `(nic, endpoint, len)` records
/// of `events`, in order, starting from `d`.
pub open spec fn replay(d: DirectionView, events: Seq<(Seq<char>, u32, u64)>) -> DirectionView
    decreases events.len(),
{
    if events.len() == 0 {
        d
    } else {
        let e = events.last();
        recorded(replay(d, events.drop_last()), e.0, e.1, e.2)
    }
}

/// All bytes of `events`.
pub open spec fn total_bytes(events: Seq<(Seq<char>, u32, u64)>) -> nat
    decreases events.len(),
{
    if events.len() == 0 {
        0
    } else {
        total_bytes(events.drop_last()) + events.last().2 as nat
    }
}

/// The bytes of the records of `events` for the endpoint `ip` behind `nic`.
pub open spec fn bytes_for(events: Seq<(Seq<char>, u32, u64)>, nic: Seq<char>, ip: u32) -> nat
    decreases events.len(),
{
    if events.len() == 0 {
        0
    } else {
        let e = events.last();
        bytes_for(events.drop_last(), nic, ip) + if e.0 == nic && e.1 == ip {
            e.2 as nat
        } else {
            0
        }
    }
}

/// The bytes of the records of `events` for any endpoint behind `nic`.
pub open spec fn bytes_for_nic(events: Seq<(Seq<char>, u32, u64)>, nic: Seq<char>) -> nat
    decreases events.len(),
{
    if events.len() == 0 {
        0
    } else {
        let e = events.last();
        bytes_for_nic(events.drop_last(), nic) + if e.0 == nic {
            e.2 as nat
        } else {
            0
        }
    }
}

proof fn lemma_parts_within_total(events: Seq<(Seq<char>, u32, u64)>, nic: Seq<char>, ip: u32)
    ensures
        bytes_for(events, nic, ip) <= total_bytes(events),
        bytes_for_nic(events, nic) <= total_bytes(events),
    decreases events.len(),
{
    if events.len() > 0 {
        lemma_parts_within_total(events.drop_last(), nic, ip);
    }
}

/// Conservation: within one window, starting from cleared counters and as
/// long as the window's bytes fit in a counter, the counter of an endpoint
/// holds exactly the bytes recorded for it, and the total of an interface
/// exactly the bytes recorded for all endpoints behind it, whatever the
/// order in which records for other keys came between.
pub proof fn lemma_conservation(events: Seq<(Seq<char>, u32, u64)>, nic: Seq<char>, ip: u32)
    requires
        total_bytes(events) <= u64::MAX,
    ensures
        count_of(replay(empty_direction(), events).0, (nic, ip)) == bytes_for(events, nic, ip),
        count_of(replay(empty_direction(), events).1, nic) == bytes_for_nic(events, nic),
    decreases events.len(),
{
    if events.len() > 0 {
        let prev = events.drop_last();
        let e = events.last();
        lemma_conservation(prev, nic, ip);
        lemma_conservation(prev, e.0, e.1);
        lemma_parts_within_total(prev, e.0, e.1);
    }
}

/// `n` records of `len` bytes each for the endpoint `ip` behind `nic`.
pub open spec fn repeated(nic: Seq<char>, ip: u32, len: u64, n: nat) -> Seq<(Seq<char>, u32, u64)> {
    Seq::new(n, |i: int| (nic, ip, len))
}

/// `n` records of `len` bytes for one endpoint leave `n * len` in its
/// counter and in its interface's total, where that fits in a counter.
pub proof fn lemma_repeated_record(nic: Seq<char>, ip: u32, len: u64, n: nat)
    requires
        n * len <= u64::MAX,
    ensures
        count_of(replay(empty_direction(), repeated(nic, ip, len, n)).0, (nic, ip)) == n * len,
        count_of(replay(empty_direction(), repeated(nic, ip, len, n)).1, nic) == n * len,
    decreases n,
{
    let ev = repeated(nic, ip, len, n);
    lemma_repeated_sums(nic, ip, len, n);
    lemma_conservation(ev, nic, ip);
}

proof fn lemma_repeated_sums(nic: Seq<char>, ip: u32, len: u64, n: nat)
    ensures
        total_bytes(repeated(nic, ip, len, n)) == n * len,
        bytes_for(repeated(nic, ip, len, n), nic, ip) == n * len,
        bytes_for_nic(repeated(nic, ip, len, n), nic) == n * len,
    decreases n,
{
    if n > 0 {
        assert(repeated(nic, ip, len, n).drop_last() =~= repeated(nic, ip, len, (n - 1) as nat));
        lemma_repeated_sums(nic, ip, len, (n - 1) as nat);
        assert(repeated(nic, ip, len, n).last() == (nic, ip, len));
        assert(n * len == (n - 1) * len + len) by (nonlinear_arith);
    } else {
        assert(repeated(nic, ip, len, n).len() == 0);
        assert(n * len == 0);
    }
}

/// A drain leaves nothing behind: where `after` is what a drain left and
/// `second` what the next drain handed back with no record between the two,
/// every map of `second` is empty.
pub proof fn lemma_drain_twice(after: TrafficStats, second: TrafficStats)
    requires
        after@ == empty_stats(),
        second@ == after@,
    ensures
        second@.0.0 == Map::<(Seq<char>, u32), u64>::empty(),
        second@.0.1 == Map::<Seq<char>, u64>::empty(),
        second@.1.0 == Map::<(Seq<char>, u32), u64>::empty(),
        second@.1.1 == Map::<Seq<char>, u64>::empty(),
{
}

} // verus!
