//! Per-host rolling statistics for continuous monitoring.
//!
//! Round-trip times are integer microseconds (`u32`), packet loss is in
//! hundredths of a percent, so every derived figure is exact integer
//! arithmetic.  The history is a sliding window of at most sixty probe
//! outcomes, oldest evicted first.

use vstd::prelude::*;
use vstd::string::StrSliceExecFns;
use crate::clock::now_unix_ms;
use crate::expand::{expand_spec, expand_targets};
use crate::text::{
    dedup_adj, dedup_strs, sort_lex, sort_strs, split_char_spec, split_char_str, str_eq_str,
    views_of,
};

verus! {

/// The history window: one minute of once-a-second probes.
pub const HISTORY_CAP: usize = 60;

/// The most monitored hosts one initialization may yield.
pub const MONITOR_HOST_CAP: usize = 100;

/// One probe outcome: when it was taken, whether the host answered, and
/// the round-trip time in microseconds when one was measured.
#[derive(Clone, Copy, Debug, PartialEq, Eq)]
pub struct PingDataPoint {
    pub timestamp: u64,
    pub success: bool,
    pub rtt_us: Option<u32>,
}

/// The rolling state of one monitored host.
#[derive(Clone, Debug)]
pub struct HostStats {
    pub ip: String,
    pub hostname: Option<String>,
    /// "unknown" before the first probe, then "online" or "offline".
    pub status: String,
    /// Latest measured round-trip time, microseconds.
    pub current_rtt: Option<u32>,
    /// Mean of the measured round-trip times in the history window.
    pub avg_rtt: Option<u32>,
    pub min_rtt: Option<u32>,
    pub max_rtt: Option<u32>,
    /// Lost probes per sent probe, in hundredths of a percent.
    pub packet_loss: u32,
    pub total_sent: u32,
    pub total_received: u32,
    /// Oldest first, never longer than `HISTORY_CAP`.
    pub history: Vec<PingDataPoint>,
}

/// The history after appending one point: the oldest entry is evicted
/// first once the window is full.
pub open spec fn new_history(h: Seq<PingDataPoint>, p: PingDataPoint) -> Seq<PingDataPoint> {
    let pushed = h.push(p);
    if pushed.len() > 60 {
        pushed.drop_first()
    } else {
        pushed
    }
}

/// Sum of the measured round-trip times in a history.
pub open spec fn sum_rtts(h: Seq<PingDataPoint>) -> int
    decreases h.len(),
{
    if h.len() == 0 {
        0
    } else {
        sum_rtts(h.drop_last()) + (match h.last().rtt_us {
            Some(r) => r as int,
            None => 0,
        })
    }
}

/// How many history entries carry a round-trip time.
pub open spec fn count_rtts(h: Seq<PingDataPoint>) -> int
    decreases h.len(),
{
    if h.len() == 0 {
        0
    } else {
        count_rtts(h.drop_last()) + (if h.last().rtt_us is Some {
            1int
        } else {
            0
        })
    }
}

/// Lost probes per sent probe, in hundredths of a percent.
pub open spec fn loss_centi(sent: u32, received: u32) -> int
    recommends
        received <= sent,
        sent > 0,
{
    (sent - received) * 10000 / (sent as int)
}

/// The full monitor transition: how `r` relates to `base` after one
/// probe outcome `(success, rtt_us)` has been recorded.
pub open spec fn ticked(base: HostStats, r: HostStats, success: bool, rtt_us: Option<u32>) -> bool {
    &&& r.wf()
    &&& r.ip == base.ip
    &&& r.hostname == base.hostname
    &&& r.total_sent == base.total_sent + 1
    &&& r.total_received == base.total_received + (if success {
        1int
    } else {
        0
    })
    &&& (exists|ts: u64|
        r.history@ == new_history(base.history@, PingDataPoint { timestamp: ts, success, rtt_us }))
    &&& r.status@ == (if success {
        "online"@
    } else {
        "offline"@
    })
    &&& r.current_rtt == (if success {
        rtt_us
    } else {
        None::<u32>
    })
    &&& (success && rtt_us is Some ==> {
        &&& r.min_rtt == Some(
            (match base.min_rtt {
                Some(m) => if m <= rtt_us.unwrap() {
                    m
                } else {
                    rtt_us.unwrap()
                },
                None => rtt_us.unwrap(),
            }),
        )
        &&& r.max_rtt == Some(
            (match base.max_rtt {
                Some(m) => if m >= rtt_us.unwrap() {
                    m
                } else {
                    rtt_us.unwrap()
                },
                None => rtt_us.unwrap(),
            }),
        )
        &&& r.avg_rtt == Some(((sum_rtts(r.history@) / count_rtts(r.history@)) as u32))
    })
    &&& (!(success && rtt_us is Some) ==> r.min_rtt == base.min_rtt && r.max_rtt == base.max_rtt
        && r.avg_rtt == base.avg_rtt)
    &&& r.packet_loss == loss_centi(r.total_sent, r.total_received)
}

impl HostStats {
    /// Invariant of every host record the engine hands out.
    pub open spec fn wf(self) -> bool {
        self.history@.len() <= 60 && self.total_received <= self.total_sent
            && self.packet_loss <= 10000
    }

    /// A fresh record for a host that has never been probed.
    pub fn new(ip: String, hostname: Option<String>) -> (r: HostStats)
        ensures
            r.wf(),
            r.ip == ip,
            r.hostname == hostname,
            r.status@ == "unknown"@,
            r.current_rtt is None,
            r.avg_rtt is None,
            r.min_rtt is None,
            r.max_rtt is None,
            r.packet_loss == 0,
            r.total_sent == 0,
            r.total_received == 0,
            r.history@ == Seq::<PingDataPoint>::empty(),
    {
        let r = HostStats {
            ip,
            hostname,
            status: "unknown".to_owned(),
            current_rtt: None,
            avg_rtt: None,
            min_rtt: None,
            max_rtt: None,
            packet_loss: 0,
            total_sent: 0,
            total_received: 0,
            history: Vec::new(),
        };
        proof {
            assert(r.history@ =~= Seq::<PingDataPoint>::empty());
        }
        r
    }

    /// Record one probe outcome taken at `timestamp`: the pure state
    /// transition of the monitor, fully deterministic.
    pub fn add_result_at(&mut self, success: bool, rtt_us: Option<u32>, timestamp: u64)
        requires
            old(self).wf(),
            old(self).total_sent < 0xFFFF_FFFFu32,
        ensures
            ticked(*old(self), *final(self), success, rtt_us),
            final(self).history@ == new_history(
                old(self).history@,
                PingDataPoint { timestamp, success, rtt_us },
            ),
    {
        self.total_sent = self.total_sent + 1;
        let point = PingDataPoint { timestamp, success, rtt_us };
        let ghost h0 = self.history@;
        if self.history.len() == HISTORY_CAP {
            self.history.remove(0);
        }
        self.history.push(point);
        proof {
            assert(self.history@ =~= new_history(h0, point));
        }
        if success {
            self.total_received = self.total_received + 1;
            self.current_rtt = rtt_us;
            self.status = "online".to_owned();
            match rtt_us {
                Some(r) => {
                    self.min_rtt = Some(
                        match self.min_rtt {
                            Some(m) => if m <= r {
                                m
                            } else {
                                r
                            },
                            None => r,
                        },
                    );
                    self.max_rtt = Some(
                        match self.max_rtt {
                            Some(m) => if m >= r {
                                m
                            } else {
                                r
                            },
                            None => r,
                        },
                    );
                    let (sum, count) = rtt_sum_count(&self.history);
                    proof {
                        lemma_sum_le(self.history@);
                        lemma_sum_le(self.history@.drop_last());
                        assert(self.history@.last() == point);
                        assert(count > 0);
                    }
                    let avg64: u64 = sum / (count as u64);
                    proof {
                        let c = count_rtts(self.history@);
                        vstd::arithmetic::div_mod::lemma_div_is_ordered(
                            sum as int,
                            c * 0xFFFF_FFFF,
                            c,
                        );
                        vstd::arithmetic::div_mod::lemma_div_by_multiple(0xFFFF_FFFF, c);
                        assert(avg64 <= 0xFFFF_FFFF);
                    }
                    self.avg_rtt = Some(avg64 as u32);
                },
                None => {},
            }
        } else {
            self.current_rtt = None;
            self.status = "offline".to_owned();
        }
        let lost: u32 = self.total_sent - self.total_received;
        let loss: u64 = (lost as u64) * 10000 / (self.total_sent as u64);
        proof {
            lemma_loss_bound(self.total_sent, self.total_received);
        }
        self.packet_loss = loss as u32;
    }

    /// Record one probe outcome, timestamped with the wall clock.  Apart
    /// from the timestamps carried in the history, the transition is the
    /// same as `add_result_at` for some reading of the clock.
    pub fn add_result(&mut self, success: bool, rtt_us: Option<u32>)
        requires
            old(self).wf(),
            old(self).total_sent < 0xFFFF_FFFFu32,
        ensures
            ticked(*old(self), *final(self), success, rtt_us),
    {
        let ms = now_unix_ms();
        let ts: u64 = if ms < 0 {
            0
        } else {
            ms as u64
        };
        self.add_result_at(success, rtt_us, ts);
    }
}

/// Every entry's time is at most `u32::MAX` microseconds, so the sum
/// fits in 64 bits and the mean fits back in 32.
proof fn lemma_sum_le(h: Seq<PingDataPoint>)
    ensures
        0 <= sum_rtts(h) <= h.len() * 0xFFFF_FFFF,
        0 <= count_rtts(h) <= h.len(),
        sum_rtts(h) <= count_rtts(h) * 0xFFFF_FFFF,
    decreases h.len(),
{
    if h.len() > 0 {
        lemma_sum_le(h.drop_last());
    }
}

proof fn lemma_loss_bound(sent: u32, received: u32)
    requires
        received <= sent,
        sent > 0,
    ensures
        0 <= loss_centi(sent, received) <= 10000,
{
    let lost = sent - received;
    assert(lost * 10000 <= sent * 10000) by (nonlinear_arith)
        requires
            lost <= sent,
    ;
    vstd::arithmetic::div_mod::lemma_div_is_ordered(
        lost * 10000,
        (sent as int) * 10000,
        sent as int,
    );
    vstd::arithmetic::div_mod::lemma_div_by_multiple(10000, sent as int);
}

/// Sum and count of the measured round-trip times in a history window.
fn rtt_sum_count(h: &Vec<PingDataPoint>) -> (r: (u64, usize))
    requires
        h@.len() <= 61,
    ensures
        r.0 == sum_rtts(h@),
        r.1 == count_rtts(h@),
{
    let mut sum: u64 = 0;
    let mut count: usize = 0;
    let mut i: usize = 0;
    proof {
        lemma_sum_le(h@);
    }
    while i < h.len()
        invariant
            0 <= i <= h@.len() <= 61,
            sum == sum_rtts(h@.take(i as int)),
            count == count_rtts(h@.take(i as int)),
            sum <= i * 0xFFFF_FFFF,
            count <= i,
        decreases h@.len() - i,
    {
        proof {
            assert(h@.take(i + 1).drop_last() =~= h@.take(i as int));
            assert(h@.take(i + 1).last() == h@[i as int]);
        }
        match h[i].rtt_us {
            Some(r) => {
                sum = sum + (r as u64);
                count = count + 1;
            },
            None => {},
        }
        i = i + 1;
    }
    proof {
        assert(h@.take(h@.len() as int) =~= h@);
    }
    (sum, count)
}

/// LAW: the history is a sliding window.  It never grows past sixty
/// entries; below the cap a new point is appended, at the cap the
/// oldest entry is evicted first; the newest point is always last.
pub proof fn lemma_history_window(h: Seq<PingDataPoint>, p: PingDataPoint)
    requires
        h.len() <= 60,
    ensures
        new_history(h, p).len() <= 60,
        h.len() < 60 ==> new_history(h, p) == h.push(p),
        h.len() == 60 ==> new_history(h, p) == h.drop_first().push(p),
        new_history(h, p).last() == p,
        new_history(h, p).len() == (if h.len() < 60 {
            h.len() + 1
        } else {
            60
        }),
{
    if h.len() == 60 {
        assert(h.push(p).drop_first() =~= h.drop_first().push(p));
    }
}

// ------------------------------------------------------------------
// the registry of monitored hosts
// ------------------------------------------------------------------

/// All monitored hosts; the presence of an address means the host is
/// under active monitoring.
pub struct MonitorState {
    pub hosts: Vec<HostStats>,
    pub is_running: bool,
}

impl MonitorState {
    /// Addresses are unique keys and every record is well formed.
    pub open spec fn wf(self) -> bool {
        &&& forall|i: int, j: int|
            0 <= i < j < self.hosts@.len() ==> self.hosts@[i].ip@ != self.hosts@[j].ip@
        &&& forall|i: int| 0 <= i < self.hosts@.len() ==> (#[trigger] self.hosts@[i]).wf()
    }

    /// An empty registry, not yet running.
    pub fn new() -> (r: MonitorState)
        ensures
            r.wf(),
            r.hosts@.len() == 0,
            !r.is_running,
    {
        MonitorState { hosts: Vec::new(), is_running: false }
    }

    /// Position of the record for `ip`, if the host is monitored.
    pub fn find_host(&self, ip: &str) -> (r: Option<usize>)
        ensures
            match r {
                Some(k) => k < self.hosts@.len() && self.hosts@[k as int].ip@ == ip@,
                None => forall|i: int|
                    0 <= i < self.hosts@.len() ==> (#[trigger] self.hosts@[i]).ip@ != ip@,
            },
    {
        let n = self.hosts.len();
        let mut i: usize = 0;
        while i < n
            invariant
                0 <= i <= n,
                n == self.hosts@.len(),
                forall|j: int| 0 <= j < i ==> (#[trigger] self.hosts@[j]).ip@ != ip@,
            decreases n - i,
        {
            if str_eq_str(self.hosts[i].ip.as_str(), ip) {
                return Some(i);
            }
            i = i + 1;
        }
        None
    }

    /// Store a record, replacing any existing record for its address.
    pub fn put_host(&mut self, stats: HostStats)
        requires
            old(self).wf(),
            stats.wf(),
        ensures
            final(self).wf(),
            final(self).is_running == old(self).is_running,
            exists|k: int|
                0 <= k < final(self).hosts@.len() && #[trigger] final(self).hosts@[k] == stats,
    {
        let ghost ipview = stats.ip@;
        match self.find_host(stats.ip.as_str()) {
            Some(k) => {
                let ghost h0 = self.hosts@;
                self.hosts.set(k, stats);
                proof {
                    assert(self.hosts@[k as int] == stats);
                    assert forall|i: int, j: int|
                        0 <= i < j < self.hosts@.len() implies self.hosts@[i].ip@
                        != self.hosts@[j].ip@ by {
                        assert(h0[i].ip@ != h0[j].ip@);
                        if i != k && j != k {
                            assert(self.hosts@[i] == h0[i] && self.hosts@[j] == h0[j]);
                        } else if i == k {
                            assert(self.hosts@[i].ip@ == h0[k as int].ip@);
                            assert(self.hosts@[j] == h0[j]);
                        } else {
                            assert(self.hosts@[j].ip@ == h0[k as int].ip@);
                            assert(self.hosts@[i] == h0[i]);
                        }
                    }
                    assert(forall|i: int|
                        0 <= i < self.hosts@.len() ==> (#[trigger] self.hosts@[i]).wf());
                }
            },
            None => {
                let ghost h0 = self.hosts@;
                self.hosts.push(stats);
                proof {
                    assert(self.hosts@[h0.len() as int] == stats);
                    assert forall|i: int, j: int|
                        0 <= i < j < self.hosts@.len() implies self.hosts@[i].ip@
                        != self.hosts@[j].ip@ by {
                        if j < h0.len() {
                            assert(self.hosts@[i] == h0[i] && self.hosts@[j] == h0[j]);
                        } else {
                            assert(self.hosts@[i] == h0[i]);
                            assert(h0[i].ip@ != ipview);
                        }
                    }
                }
            },
        }
    }
}

// ------------------------------------------------------------------
// initialization and ticking
// ------------------------------------------------------------------

/// Every comma-separated segment expanded, in order.
pub open spec fn expand_all(parts: Seq<Seq<char>>) -> Seq<Seq<char>>
    decreases parts.len(),
{
    if parts.len() == 0 {
        Seq::<Seq<char>>::empty()
    } else {
        expand_all(parts.drop_last()).add(expand_spec(parts.last()))
    }
}

/// What monitoring initialization yields: each comma-separated segment
/// expanded independently, the results concatenated, sorted, stripped
/// of duplicates, and capped at one hundred hosts.
pub open spec fn monitor_init_spec(input: Seq<char>) -> Seq<Seq<char>> {
    let ded = dedup_adj(sort_lex(expand_all(split_char_spec(input, ','))));
    if ded.len() > 100 {
        ded.take(100)
    } else {
        ded
    }
}

/// LAW: monitoring initialization yields a strictly ascending host
/// list — sorted lexicographically, no address listed twice — whatever
/// the expansion produced and wherever the cap cut it off.
pub proof fn lemma_monitor_init_strict(input: Seq<char>)
    ensures
        forall|i: int, j: int|
            0 <= i <= j < monitor_init_spec(input).len() ==> crate::text::lex_le(
                #[trigger] monitor_init_spec(input)[i],
                #[trigger] monitor_init_spec(input)[j],
            ),
        forall|i: int, j: int|
            0 <= i < j < monitor_init_spec(input).len() ==> #[trigger] monitor_init_spec(
                input,
            )[i] != #[trigger] monitor_init_spec(input)[j],
{
    let all = expand_all(split_char_spec(input, ','));
    crate::text::lemma_sort_lex_sorted(all);
    crate::text::lemma_dedup_adj_strict(sort_lex(all));
    let ded = dedup_adj(sort_lex(all));
    let r = monitor_init_spec(input);
    assert forall|i: int, j: int| 0 <= i <= j < r.len() implies crate::text::lex_le(
        #[trigger] r[i],
        #[trigger] r[j],
    ) by {
        assert(r[i] == ded[i] && r[j] == ded[j]);
    }
    assert forall|i: int, j: int| 0 <= i < j < r.len() implies #[trigger] r[i] != #[trigger] r[j] by {
        assert(r[i] == ded[i] && r[j] == ded[j]);
    }
}

/// Expand a comma-separated list of monitoring targets into a sorted,
/// deduplicated list of at most one hundred addresses.  A malformed
/// segment contributes nothing; the others still succeed.
pub fn monitor_init_hosts(hosts_input: String) -> (r: Result<Vec<String>, String>)
    ensures
        r matches Ok(v) && views_of(v@) == monitor_init_spec(hosts_input@),
{
    let parts = split_char_str(hosts_input.as_str(), ',');
    let ghost pviews = split_char_spec(hosts_input@, ',');
    let n = parts.len();
    let mut all: Vec<String> = Vec::new();
    let mut k: usize = 0;
    proof {
        assert(views_of(all@) =~~= expand_all(pviews.take(0)));
    }
    while k < n
        invariant
            0 <= k <= n,
            n == parts@.len(),
            views_of(parts@) == pviews,
            views_of(all@) == expand_all(pviews.take(k as int)),
        decreases n - k,
    {
        let ghost all0 = all@;
        let mut ips = expand_targets(parts[k].as_str());
        let ghost ipsview = ips@;
        all.append(&mut ips);
        proof {
            assert(pviews.take(k + 1).drop_last() =~= pviews.take(k as int));
            assert(pviews.take(k + 1).last() == pviews[k as int]);
            assert(views_of(all@) =~~= views_of(all0).add(views_of(ipsview)));
            assert(views_of(all@) =~~= expand_all(pviews.take(k + 1)));
        }
        k = k + 1;
    }
    proof {
        assert(pviews.take(n as int) =~= pviews);
    }
    let sorted = sort_strs(all);
    let mut deduped = dedup_strs(sorted);
    if deduped.len() > MONITOR_HOST_CAP {
        let ghost d0 = deduped@;
        deduped.truncate(MONITOR_HOST_CAP);
        proof {
            assert(views_of(deduped@) =~~= views_of(d0).take(100));
            assert(views_of(d0).take(100) =~~= monitor_init_spec(hosts_input@));
        }
    }
    Ok(deduped)
}

/// One monitoring step for one host: take the host's current record —
/// or a fresh one carrying the resolved hostname — and fold in one
/// probe outcome.  Pure state transition; the caller performs the
/// probe and the resolution.
pub fn monitor_tick(
    ip: String,
    current: Option<HostStats>,
    resolved_hostname: Option<String>,
    success: bool,
    rtt_us: Option<u32>,
) -> (r: HostStats)
    requires
        current matches Some(s) ==> s.wf() && s.total_sent < 0xFFFF_FFFFu32,
    ensures
        r.wf(),
        current matches Some(s) ==> ticked(s, r, success, rtt_us),
        current is None ==> {
            &&& r.ip == ip
            &&& r.hostname == resolved_hostname
            &&& r.total_sent == 1
            &&& r.total_received == (if success {
                1int
            } else {
                0
            })
            &&& r.history@.len() == 1
            &&& r.history@[0].success == success
            &&& r.history@[0].rtt_us == rtt_us
            &&& r.status@ == (if success {
                "online"@
            } else {
                "offline"@
            })
        },
{
    let mut stats = match current {
        Some(s) => s,
        None => HostStats::new(ip, resolved_hostname),
    };
    stats.add_result(success, rtt_us);
    stats
}

} // verus!
