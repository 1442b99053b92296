//! Port probing: classifying one TCP connect attempt and assembling a
//! port sweep's outcome list, ordered by port number.

use vstd::prelude::*;
use vstd::multiset::Multiset;
use vstd::string::StrSliceExecFns;
use crate::text::str_eq_str;

verus! {

/// How one TCP connect attempt ended, as the network layer reports it:
/// established, timed out without an answer, or rejected outright.
#[derive(Clone, Copy, Debug, PartialEq, Eq, Structural)]
pub enum ConnectOutcome {
    Connected,
    TimedOut,
    Failed,
}

/// Result of one port probe.
#[derive(Clone, Debug)]
pub struct PortResult {
    pub port: u16,
    /// "open", "filtered" or "closed".
    pub status: String,
    pub service: Option<String>,
    /// Reserved for banner capture; never filled here.
    pub banner: Option<String>,
}

/// Aggregate of one port sweep.
#[derive(Clone, Debug)]
pub struct PortScanResult {
    pub target: String,
    pub results: Vec<PortResult>,
    pub open_ports: usize,
    pub duration_ms: u64,
}

/// The classification of a connect attempt: an established connection
/// means open, a timeout means filtered, any other failure means
/// closed.
pub open spec fn port_status_str(o: ConnectOutcome) -> Seq<char> {
    match o {
        ConnectOutcome::Connected => "open"@,
        ConnectOutcome::TimedOut => "filtered"@,
        ConnectOutcome::Failed => "closed"@,
    }
}

/// The well-known service on a port, from the static table.
pub open spec fn service_name_spec(port: u16) -> Option<Seq<char>> {
    if port == 20 { Some("FTP-DATA"@) }
    else if port == 21 { Some("FTP"@) }
    else if port == 22 { Some("SSH"@) }
    else if port == 23 { Some("Telnet"@) }
    else if port == 25 { Some("SMTP"@) }
    else if port == 53 { Some("DNS"@) }
    else if port == 80 { Some("HTTP"@) }
    else if port == 110 { Some("POP3"@) }
    else if port == 111 { Some("RPC"@) }
    else if port == 135 { Some("MSRPC"@) }
    else if port == 139 { Some("NetBIOS"@) }
    else if port == 143 { Some("IMAP"@) }
    else if port == 443 { Some("HTTPS"@) }
    else if port == 445 { Some("SMB"@) }
    else if port == 993 { Some("IMAPS"@) }
    else if port == 995 { Some("POP3S"@) }
    else if port == 1433 { Some("MSSQL"@) }
    else if port == 1521 { Some("Oracle"@) }
    else if port == 3306 { Some("MySQL"@) }
    else if port == 3389 { Some("RDP"@) }
    else if port == 5432 { Some("PostgreSQL"@) }
    else if port == 5900 { Some("VNC"@) }
    else if port == 6379 { Some("Redis"@) }
    else if port == 8080 { Some("HTTP-ALT"@) }
    else if port == 8443 { Some("HTTPS-ALT"@) }
    else if port == 27017 { Some("MongoDB"@) }
    else { None }
}

/// The well-known service name on a port, when the static table has
/// one.
pub fn get_service_name(port: u16) -> (r: Option<String>)
    ensures
        match r {
            Some(s) => service_name_spec(port) == Some(s@),
            None => service_name_spec(port) is None,
        },
{
    let n: Option<&'static str> = if port == 20 { Some("FTP-DATA") }
    else if port == 21 { Some("FTP") }
    else if port == 22 { Some("SSH") }
    else if port == 23 { Some("Telnet") }
    else if port == 25 { Some("SMTP") }
    else if port == 53 { Some("DNS") }
    else if port == 80 { Some("HTTP") }
    else if port == 110 { Some("POP3") }
    else if port == 111 { Some("RPC") }
    else if port == 135 { Some("MSRPC") }
    else if port == 139 { Some("NetBIOS") }
    else if port == 143 { Some("IMAP") }
    else if port == 443 { Some("HTTPS") }
    else if port == 445 { Some("SMB") }
    else if port == 993 { Some("IMAPS") }
    else if port == 995 { Some("POP3S") }
    else if port == 1433 { Some("MSSQL") }
    else if port == 1521 { Some("Oracle") }
    else if port == 3306 { Some("MySQL") }
    else if port == 3389 { Some("RDP") }
    else if port == 5432 { Some("PostgreSQL") }
    else if port == 5900 { Some("VNC") }
    else if port == 6379 { Some("Redis") }
    else if port == 8080 { Some("HTTP-ALT") }
    else if port == 8443 { Some("HTTPS-ALT") }
    else if port == 27017 { Some("MongoDB") }
    else { None };
    match n {
        Some(s) => Some(s.to_owned()),
        None => None,
    }
}

/// Classify one port probe from how its connect attempt ended, and
/// attach the well-known service name.
pub fn classify_port(port: u16, outcome: ConnectOutcome) -> (r: PortResult)
    ensures
        r.port == port,
        r.status@ == port_status_str(outcome),
        (match r.service {
            Some(s) => service_name_spec(port) == Some(s@),
            None => service_name_spec(port) is None,
        }),
        r.banner is None,
{
    let status = match outcome {
        ConnectOutcome::Connected => "open".to_owned(),
        ConnectOutcome::TimedOut => "filtered".to_owned(),
        ConnectOutcome::Failed => "closed".to_owned(),
    };
    let service = get_service_name(port);
    PortResult { port, status, service, banner: None }
}

// ------------------------------------------------------------------
// ordering a port sweep
// ------------------------------------------------------------------

pub open spec fn sorted_by_port(s: Seq<PortResult>) -> bool {
    forall|i: int, j: int| 0 <= i <= j < s.len() ==> s[i].port <= s[j].port
}

/// Insert before the first strictly larger port, keeping equal ports
/// in arrival order.
pub open spec fn insert_by_port(x: PortResult, s: Seq<PortResult>) -> Seq<PortResult>
    decreases s.len(),
{
    if s.len() == 0 {
        seq![x]
    } else if x.port <= s[0].port {
        seq![x].add(s)
    } else {
        seq![s[0]].add(insert_by_port(x, s.skip(1)))
    }
}

/// Stable insertion sort by port number.
pub open spec fn sort_by_port(s: Seq<PortResult>) -> Seq<PortResult>
    decreases s.len(),
{
    if s.len() == 0 {
        s
    } else {
        insert_by_port(s[0], sort_by_port(s.skip(1)))
    }
}

pub proof fn lemma_insert_by_port(x: PortResult, s: Seq<PortResult>)
    requires
        sorted_by_port(s),
    ensures
        sorted_by_port(insert_by_port(x, s)),
        insert_by_port(x, s).to_multiset() == s.to_multiset().insert(x),
        insert_by_port(x, s).len() == s.len() + 1,
        forall|j: int|
            0 <= j < insert_by_port(x, s).len() ==> insert_by_port(x, s)[j] == x || s.contains(
                #[trigger] insert_by_port(x, s)[j],
            ),
    decreases s.len(),
{
    broadcast use vstd::seq_lib::group_to_multiset_ensures;

    let r = insert_by_port(x, s);
    if s.len() == 0 {
        assert(seq![x] =~= Seq::<PortResult>::empty().push(x));
        assert(r.to_multiset() =~= s.to_multiset().insert(x));
    } else if x.port <= s[0].port {
        vstd::seq_lib::lemma_multiset_commutative(seq![x], s);
        assert(seq![x].to_multiset() =~= Multiset::<PortResult>::empty().insert(x));
        assert(r.to_multiset() =~= s.to_multiset().insert(x));
        assert forall|i: int, j: int| 0 <= i <= j < r.len() implies r[i].port <= r[j].port by {
            if i == 0 && j > 0 {
                assert(r[j] == s[j - 1]);
                assert(s[0].port <= s[j - 1].port);
            } else if i > 0 {
                assert(r[i] == s[i - 1] && r[j] == s[j - 1]);
            }
        }
        assert forall|j: int| 0 <= j < r.len() implies r[j] == x || s.contains(
            #[trigger] r[j],
        ) by {
            if j > 0 {
                assert(r[j] == s[j - 1]);
            }
        }
    } else {
        let tail = s.skip(1);
        assert forall|i: int, j: int| 0 <= i <= j < tail.len() implies tail[i].port
            <= tail[j].port by {
            assert(tail[i] == s[i + 1] && tail[j] == s[j + 1]);
        }
        lemma_insert_by_port(x, tail);
        let rec = insert_by_port(x, tail);
        vstd::seq_lib::lemma_multiset_commutative(seq![s[0]], rec);
        assert(seq![s[0]].to_multiset() =~= Multiset::<PortResult>::empty().insert(s[0]));
        assert(s =~= seq![s[0]].add(tail));
        vstd::seq_lib::lemma_multiset_commutative(seq![s[0]], tail);
        assert(r.to_multiset() =~= s.to_multiset().insert(x));
        assert forall|i: int, j: int| 0 <= i <= j < r.len() implies r[i].port <= r[j].port by {
            if i == 0 && j > 0 {
                assert(r[j] == rec[j - 1]);
                assert(rec[j - 1] == x || tail.contains(rec[j - 1]));
                if rec[j - 1] != x {
                    let w = choose|w: int| 0 <= w < tail.len() && tail[w] == rec[j - 1];
                    assert(s[0].port <= s[w + 1].port);
                }
            } else if i > 0 {
                assert(r[i] == rec[i - 1] && r[j] == rec[j - 1]);
            }
        }
        assert forall|j: int| 0 <= j < r.len() implies r[j] == x || s.contains(
            #[trigger] r[j],
        ) by {
            if j > 0 {
                assert(r[j] == rec[j - 1]);
                if rec[j - 1] != x {
                    let w = choose|w: int| 0 <= w < tail.len() && tail[w] == rec[j - 1];
                    assert(s[w + 1] == rec[j - 1]);
                }
            } else {
                assert(r[0] == s[0]);
            }
        }
    }
}

/// LAW: a port sweep's results come out as a permutation of its probes
/// in nondecreasing port order, whatever order the probes completed in.
pub proof fn lemma_sort_by_port(s: Seq<PortResult>)
    ensures
        sorted_by_port(sort_by_port(s)),
        sort_by_port(s).to_multiset() == s.to_multiset(),
        sort_by_port(s).len() == s.len(),
    decreases s.len(),
{
    broadcast use vstd::seq_lib::group_to_multiset_ensures;

    if s.len() > 0 {
        lemma_sort_by_port(s.skip(1));
        lemma_insert_by_port(s[0], sort_by_port(s.skip(1)));
        assert(s =~= seq![s[0]].add(s.skip(1)));
        vstd::seq_lib::lemma_multiset_commutative(seq![s[0]], s.skip(1));
        assert(seq![s[0]].to_multiset() =~= Multiset::<PortResult>::empty().insert(s[0]));
        assert(sort_by_port(s).to_multiset() =~= s.to_multiset());
    }
}

fn insert_port(x: PortResult, v: Vec<PortResult>) -> (r: Vec<PortResult>)
    ensures
        r@ == insert_by_port(x, v@),
    decreases v@.len(),
{
    if v.len() == 0 {
        let mut r: Vec<PortResult> = Vec::new();
        r.push(x);
        proof {
            assert(r@ =~= insert_by_port(x, v@));
        }
        r
    } else if x.port <= v[0].port {
        let mut r = v;
        r.insert(0, x);
        proof {
            assert(r@ =~= insert_by_port(x, r@.skip(1)));
        }
        r
    } else {
        let ghost v0 = v@;
        let mut rest = v;
        let first = rest.remove(0);
        proof {
            assert(rest@ =~= v0.skip(1));
        }
        let sub = insert_port(x, rest);
        let mut r = sub;
        r.insert(0, first);
        proof {
            assert(r@ =~= insert_by_port(x, v0));
        }
        r
    }
}

/// Sort port results by port number, ascending.
pub fn sort_ports(v: Vec<PortResult>) -> (r: Vec<PortResult>)
    ensures
        r@ == sort_by_port(v@),
    decreases v@.len(),
{
    if v.len() == 0 {
        v
    } else {
        let ghost v0 = v@;
        let mut rest = v;
        let first = rest.remove(0);
        proof {
            assert(rest@ =~= v0.skip(1));
        }
        let sorted_rest = sort_ports(rest);
        insert_port(first, sorted_rest)
    }
}

/// How many results are open.
pub open spec fn count_open(s: Seq<PortResult>) -> int
    decreases s.len(),
{
    if s.len() == 0 {
        0
    } else {
        count_open(s.drop_last()) + (if s.last().status@ == "open"@ {
            1int
        } else {
            0
        })
    }
}

/// Collect a port sweep: order the results by port number ascending —
/// independent of the order in which the probes completed — and count
/// the open ports.
pub fn assemble_port_scan(
    target: String,
    results: Vec<PortResult>,
    duration_ms: u64,
) -> (r: PortScanResult)
    ensures
        r.target == target,
        r.results@ == sort_by_port(results@),
        sorted_by_port(r.results@),
        r.results@.to_multiset() == results@.to_multiset(),
        r.open_ports == count_open(r.results@),
        r.duration_ms == duration_ms,
{
    let ghost rv = results@;
    let sorted = sort_ports(results);
    proof {
        lemma_sort_by_port(rv);
    }
    let m = sorted.len();
    let mut open_ports: usize = 0;
    let mut j: usize = 0;
    proof {
        assert(sorted@.take(0) =~= Seq::<PortResult>::empty());
    }
    while j < m
        invariant
            0 <= j <= m,
            m == sorted@.len(),
            0 <= open_ports <= j,
            open_ports == count_open(sorted@.take(j as int)),
        decreases m - j,
    {
        proof {
            assert(sorted@.take(j + 1).drop_last() =~= sorted@.take(j as int));
            assert(sorted@.take(j + 1).last() == sorted@[j as int]);
        }
        if str_eq_str(sorted[j].status.as_str(), "open") {
            open_ports = open_ports + 1;
        }
        j = j + 1;
    }
    proof {
        assert(sorted@.take(m as int) =~= sorted@);
    }
    PortScanResult { target, results: sorted, open_ports, duration_ms }
}

} // verus!
