//! Parsing route-tracing tool output: one hop per line, with up to
//! three round-trip readings, an address, and possibly a host name.
//! Readings are integer microseconds; "<1" counts as half a
//! millisecond.

use vstd::prelude::*;
use vstd::string::StrSliceExecFns;
use crate::scanner::ms_text_us;
use crate::text::{
    contains_str, contains_sub, find_char, find_char_in, is_digit, lines_spec, opt_view,
    parse_u32_upto, parse_uint, split_lines, split_whitespace_str, split_ws, starts_with_spec,
    starts_with_str, str_eq_str, trim_spec, trim_str, views_of,
};

verus! {

/// One hop of a traced route.
#[derive(Clone, Debug)]
pub struct TracerouteHop {
    pub hop: u8,
    pub ip: Option<String>,
    pub hostname: Option<String>,
    /// The up-to-three round-trip readings, microseconds.
    pub rtt1_us: Option<u32>,
    pub rtt2_us: Option<u32>,
    pub rtt3_us: Option<u32>,
}

/// A traced route.
#[derive(Clone, Debug)]
pub struct TracerouteResult {
    pub target: String,
    pub hops: Vec<TracerouteHop>,
    pub duration_ms: u64,
}

/// Characters allowed in a bare address token.
pub open spec fn is_addr_char(c: char) -> bool {
    is_digit(c) || c == '.' || c == ':'
}

pub open spec fn all_addr_chars(s: Seq<char>) -> bool {
    forall|i: int| 0 <= i < s.len() ==> is_addr_char(#[trigger] s[i])
}

/// Brackets stripped from both ends.
pub open spec fn strip_brackets(s: Seq<char>) -> Seq<char>
    decreases s.len(),
{
    if s.len() > 0 && (s[0] == '[' || s[0] == ']') {
        strip_brackets(s.skip(1))
    } else if s.len() > 0 && (s.last() == '[' || s.last() == ']') {
        strip_brackets(s.drop_last())
    } else {
        s
    }
}

/// The reading named by a token before an "ms" marker: "<1" counts as
/// half a millisecond, otherwise a digit-and-dot millisecond text.
pub open spec fn token_reading(t: Seq<char>) -> Option<u32> {
    if t == "<1"@ {
        Some(500u32)
    } else {
        match ms_text_us(t) {
            Some(v) => if v <= 0xFFFF_FFFF {
                Some(v as u32)
            } else {
                None
            },
            None => None,
        }
    }
}

/// The scan over a hop line's tokens, from token `i` on: an "ms"
/// marker takes the previous token as a reading; an address-shaped
/// dotted token becomes the address; a bracketed token becomes the
/// address with its brackets stripped; a long plain token before any
/// address becomes the host name.
pub open spec fn hop_scan(
    parts: Seq<Seq<char>>,
    i: int,
    rtts: Seq<u32>,
    ip: Option<Seq<char>>,
    hn: Option<Seq<char>>,
) -> (Seq<u32>, Option<Seq<char>>, Option<Seq<char>>)
    decreases parts.len() - i,
{
    if i < 1 || i >= parts.len() {
        (rtts, ip, hn)
    } else {
        let p = parts[i];
        if p == "ms"@ {
            let rtts2 = if i > 1 {
                match token_reading(parts[i - 1]) {
                    Some(v) => rtts.push(v),
                    None => rtts,
                }
            } else {
                rtts
            };
            hop_scan(parts, i + 1, rtts2, ip, hn)
        } else if find_char(p, '.') is Some || find_char(p, ':') is Some {
            let ip2 = if all_addr_chars(p) {
                Some(p)
            } else {
                ip
            };
            hop_scan(parts, i + 1, rtts, ip2, hn)
        } else if find_char(p, '[') is Some && find_char(p, ']') is Some {
            hop_scan(parts, i + 1, rtts, Some(strip_brackets(p)), hn)
        } else if find_char(p, '[') is None && hn is None && ip is None {
            let hn2 = if p.len() > 5 {
                Some(p)
            } else {
                hn
            };
            hop_scan(parts, i + 1, rtts, ip, hn2)
        } else {
            hop_scan(parts, i + 1, rtts, ip, hn)
        }
    }
}

/// What one hop line yields: its hop number, then either a bare
/// timed-out hop or the scanned readings, address and host name.
pub open spec fn hop_line_spec(line: Seq<char>) -> Option<
    (u8, Seq<u32>, Option<Seq<char>>, Option<Seq<char>>),
> {
    let parts = split_ws(line);
    if parts.len() == 0 {
        None
    } else {
        match parse_uint(parts[0]) {
            Some(v) => if v <= 255 {
                if contains_sub(line, "Request timed out"@) || contains_sub(line, "* * *"@) {
                    Some((v as u8, Seq::<u32>::empty(), None, None))
                } else {
                    let scanned = hop_scan(
                        parts,
                        1,
                        Seq::<u32>::empty(),
                        None::<Seq<char>>,
                        None::<Seq<char>>,
                    );
                    Some((v as u8, scanned.0, scanned.1, scanned.2))
                }
            } else {
                None
            },
            None => None,
        }
    }
}

/// The fields of a parsed hop, as plain values.
pub open spec fn hop_views(h: TracerouteHop) -> (
    u8,
    Option<Seq<char>>,
    Option<Seq<char>>,
    Option<u32>,
    Option<u32>,
    Option<u32>,
) {
    (h.hop, opt_view(h.ip), opt_view(h.hostname), h.rtt1_us, h.rtt2_us, h.rtt3_us)
}

pub open spec fn rtt_at(rtts: Seq<u32>, i: int) -> Option<u32> {
    if 0 <= i < rtts.len() {
        Some(rtts[i])
    } else {
        None
    }
}

fn strip_brackets_str(s: &str) -> (r: String)
    ensures
        r@ == strip_brackets(s@),
    decreases s@.len(),
{
    let len = s.unicode_len();
    if len > 0 {
        let c0 = s.get_char(0);
        if c0 == '[' || c0 == ']' {
            let rest = s.substring_char(1, len);
            proof {
                assert(rest@ =~= s@.skip(1));
            }
            return strip_brackets_str(rest);
        }
        let cl = s.get_char(len - 1);
        if cl == '[' || cl == ']' {
            let rest = s.substring_char(0, len - 1);
            proof {
                assert(rest@ =~= s@.drop_last());
            }
            return strip_brackets_str(rest);
        }
    }
    s.to_owned()
}

fn all_addr_chars_exec(s: &str) -> (r: bool)
    ensures
        r == all_addr_chars(s@),
{
    let len = s.unicode_len();
    let mut i: usize = 0;
    while i < len
        invariant
            0 <= i <= len,
            len == s@.len(),
            forall|j: int| 0 <= j < i ==> is_addr_char(#[trigger] s@[j]),
        decreases len - i,
    {
        let c = s.get_char(i);
        if !(('0' <= c && c <= '9') || c == '.' || c == ':') {
            return false;
        }
        i = i + 1;
    }
    true
}

/// Parse one hop line; a line whose first word is not a hop number
/// yields nothing, and an explicit timeout line yields a hop with no
/// readings at all.
pub fn parse_hop_line(line: &str) -> (r: Option<TracerouteHop>)
    ensures
        match r {
            Some(h) => (match hop_line_spec(line@) {
                Some(s) => h.hop == s.0 && opt_view(h.ip) == s.2 && opt_view(h.hostname) == s.3
                    && h.rtt1_us == rtt_at(s.1, 0) && h.rtt2_us == rtt_at(s.1, 1) && h.rtt3_us
                    == rtt_at(s.1, 2),
                None => false,
            }),
            None => hop_line_spec(line@) is None,
        },
{
    let parts = split_whitespace_str(line);
    let ghost pv = split_ws(line@);
    if parts.len() == 0 {
        return None;
    }
    proof {
        assert(pv[0] == parts@[0]@);
    }
    let hop_num: u8 = match parse_u32_upto(parts[0].as_str(), 255) {
        Some(v) => v as u8,
        None => {
            return None;
        },
    };
    if contains_str(line, "Request timed out") || contains_str(line, "* * *") {
        return Some(
            TracerouteHop {
                hop: hop_num,
                ip: None,
                hostname: None,
                rtt1_us: None,
                rtt2_us: None,
                rtt3_us: None,
            },
        );
    }
    let mut rtts: Vec<u32> = Vec::new();
    let mut ip: Option<String> = None;
    let mut hostname: Option<String> = None;
    let n = parts.len();
    let mut i: usize = 1;
    proof {
        assert(rtts@ =~= Seq::<u32>::empty());
    }
    while i < n
        invariant
            1 <= i <= n,
            n == parts@.len(),
            views_of(parts@) == pv,
            hop_scan(pv, 1, Seq::<u32>::empty(), None::<Seq<char>>, None::<Seq<char>>)
                == hop_scan(pv, i as int, rtts@, opt_view(ip), opt_view(hostname)),
        decreases n - i,
    {
        proof {
            assert(pv[i as int] == parts@[i as int]@);
        }
        let p = parts[i].as_str();
        if str_eq_str(p, "ms") {
            if i > 1 {
                proof {
                    assert(pv[i - 1] == parts@[i - 1]@);
                }
                let ghost r0 = rtts@;
                match token_reading_exec(parts[i - 1].as_str()) {
                    Some(v) => {
                        rtts.push(v);
                        proof {
                            assert(rtts@ =~= r0.push(v));
                        }
                    },
                    None => {},
                }
            }
        } else if find_char_in(p, '.').is_some() || find_char_in(p, ':').is_some() {
            if all_addr_chars_exec(p) {
                ip = Some(parts[i].clone());
            }
        } else if find_char_in(p, '[').is_some() && find_char_in(p, ']').is_some() {
            ip = Some(strip_brackets_str(p));
        } else if find_char_in(p, '[').is_none() && hostname.is_none() && ip.is_none() {
            if p.unicode_len() > 5 {
                hostname = Some(parts[i].clone());
            }
        }
        i = i + 1;
    }
    proof {
        assert(hop_scan(pv, n as int, rtts@, opt_view(ip), opt_view(hostname)) == (
            rtts@,
            opt_view(ip),
            opt_view(hostname),
        ));
    }
    let rtt1_us = if rtts.len() > 0 {
        Some(rtts[0])
    } else {
        None
    };
    let rtt2_us = if rtts.len() > 1 {
        Some(rtts[1])
    } else {
        None
    };
    let rtt3_us = if rtts.len() > 2 {
        Some(rtts[2])
    } else {
        None
    };
    Some(TracerouteHop { hop: hop_num, ip, hostname, rtt1_us, rtt2_us, rtt3_us })
}

fn token_reading_exec(t: &str) -> (r: Option<u32>)
    ensures
        r == token_reading(t@),
{
    if str_eq_str(t, "<1") {
        Some(500)
    } else {
        crate::scanner::parse_ms_to_us(t)
    }
}

/// The hops contributed by each line of the tool's output, header and
/// footer lines skipped.
pub open spec fn trace_lines(ls: Seq<Seq<char>>) -> Seq<
    (u8, Seq<u32>, Option<Seq<char>>, Option<Seq<char>>),
>
    decreases ls.len(),
{
    if ls.len() == 0 {
        Seq::<(u8, Seq<u32>, Option<Seq<char>>, Option<Seq<char>>)>::empty()
    } else {
        let t = trim_spec(ls[0]);
        let rest = trace_lines(ls.skip(1));
        if t.len() == 0 || starts_with_spec(t, "Tracing"@) || starts_with_spec(
            t,
            "over a maximum"@,
        ) || starts_with_spec(t, "Trace complete"@) {
            rest
        } else {
            match hop_line_spec(t) {
                Some(h) => seq![h].add(rest),
                None => rest,
            }
        }
    }
}

/// The fields of each parsed hop, as plain values.
pub open spec fn hops_views(v: Seq<TracerouteHop>) -> Seq<
    (u8, Option<Seq<char>>, Option<Seq<char>>, Option<u32>, Option<u32>, Option<u32>),
> {
    v.map_values(|h: TracerouteHop| hop_views(h))
}

/// What the parsed hops should look like, from the line analysis.
pub open spec fn trace_views(ls: Seq<Seq<char>>) -> Seq<
    (u8, Option<Seq<char>>, Option<Seq<char>>, Option<u32>, Option<u32>, Option<u32>),
> {
    trace_lines(ls).map_values(
        |s: (u8, Seq<u32>, Option<Seq<char>>, Option<Seq<char>>)|
            (s.0, s.2, s.3, rtt_at(s.1, 0), rtt_at(s.1, 1), rtt_at(s.1, 2)),
    )
}

/// Parse the whole route: every hop line in order, headers skipped.
pub fn parse_traceroute_output(output: &str) -> (r: Vec<TracerouteHop>)
    ensures
        hops_views(r@) == trace_views(lines_spec(output@)),
{
    let ls = split_lines(output);
    let ghost lv = lines_spec(output@);
    let n = ls.len();
    let mut out: Vec<TracerouteHop> = Vec::new();
    let mut k: usize = 0;
    proof {
        assert(lv.skip(0) =~= lv);
        assert(hops_views(out@) =~~= trace_views(lv).take(0));
        assert(trace_views(lv) =~~= hops_views(out@).add(trace_views(lv.skip(0))));
    }
    while k < n
        invariant
            0 <= k <= n,
            n == ls@.len(),
            views_of(ls@) == lv,
            trace_views(lv) == hops_views(out@).add(trace_views(lv.skip(k as int))),
        decreases n - k,
    {
        proof {
            assert(lv.skip(k as int)[0] == lv[k as int]);
            assert(lv[k as int] == ls@[k as int]@);
            assert(lv.skip(k as int).skip(1) =~= lv.skip(k + 1));
        }
        let t = trim_str(ls[k].as_str());
        let skip_line = t.as_str().is_empty() || starts_with_str(t.as_str(), "Tracing")
            || starts_with_str(t.as_str(), "over a maximum") || starts_with_str(
            t.as_str(),
            "Trace complete",
        );
        if !skip_line {
            let ghost out0 = out@;
            match parse_hop_line(t.as_str()) {
                Some(hop) => {
                    let ghost hv = hop_views(hop);
                    out.push(hop);
                    proof {
                        assert(hops_views(out@) =~~= hops_views(out0).push(hv));
                        assert(trace_views(lv.skip(k as int)) =~~= seq![hv].add(
                            trace_views(lv.skip(k + 1)),
                        ));
                        assert(trace_views(lv) =~~= hops_views(out@).add(
                            trace_views(lv.skip(k + 1)),
                        ));
                    }
                },
                None => {
                    proof {
                        assert(trace_views(lv.skip(k as int)) =~~= trace_views(lv.skip(k + 1)));
                    }
                },
            }
        } else {
            proof {
                assert(trace_views(lv.skip(k as int)) =~~= trace_views(lv.skip(k + 1)));
            }
        }
        k = k + 1;
    }
    proof {
        assert(lv.skip(n as int).len() == 0);
        assert(trace_views(lv.skip(n as int)) =~~= Seq::<
            (u8, Option<Seq<char>>, Option<Seq<char>>, Option<u32>, Option<u32>, Option<u32>),
        >::empty());
        assert(hops_views(out@) =~~= trace_views(lv));
    }
    out
}

/// A traced route with its wall-clock duration.
pub fn assemble_traceroute(
    target: String,
    hops: Vec<TracerouteHop>,
    duration_ms: u64,
) -> (r: TracerouteResult)
    ensures
        r.target == target,
        r.hops@ == hops@,
        r.duration_ms == duration_ms,
{
    TracerouteResult { target, hops, duration_ms }
}

} // verus!
