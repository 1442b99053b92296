//! Parsing name-lookup tool output into DNS records.
//!
//! Each record type has its own line shapes; every parser appends to
//! the caller's record list and is specified exactly over the lines of
//! the output text.

use vstd::prelude::*;
use vstd::string::StrSliceExecFns;
use vstd::string::StringExecFns;
use crate::text::{
    between_pat, between_pat_str, contains_str, contains_sub, dec_str, find_char, lines_spec,
    parse_u32_upto, parse_uint, piece0, piece0_str, piece1, piece1_str, skip_leading, split_lines,
    split_whitespace_str, split_ws, starts_with_spec, starts_with_str, str_eq_str, strip_both,
    strip_both_char, strip_leading_char, strip_trailing, strip_trailing_char, trim_spec, trim_str,
    u64_to_dec, views_of,
};

verus! {

/// One DNS record as reported to the caller.
#[derive(Clone, Debug)]
pub struct DnsRecord {
    pub record_type: String,
    pub name: String,
    pub value: String,
    pub ttl: u32,
}

/// Aggregate of one lookup.
#[derive(Clone, Debug)]
pub struct DnsResult {
    pub domain: String,
    pub records: Vec<DnsRecord>,
    pub duration_ms: u64,
}

/// The fields of each record, as plain values.
pub open spec fn dns_views(v: Seq<DnsRecord>) -> Seq<(Seq<char>, Seq<char>, Seq<char>, u32)> {
    v.map_values(|e: DnsRecord| (e.record_type@, e.name@, e.value@, e.ttl))
}

// ------------------------------------------------------------------
// address records
// ------------------------------------------------------------------

/// Whether an address text matches the requested record type: a
/// colon-free text matches A, a text with a colon matches AAAA.
pub open spec fn addr_matches(a: Seq<char>, rt: Seq<char>) -> bool {
    (rt == "A"@ && find_char(a, ':') is None) || (rt == "AAAA"@ && find_char(a, ':') is Some)
}

/// Records from the words of an `Addresses:` line.
pub open spec fn addr_words(
    ws: Seq<Seq<char>>,
    domain: Seq<char>,
    rt: Seq<char>,
) -> Seq<(Seq<char>, Seq<char>, Seq<char>, u32)>
    decreases ws.len(),
{
    if ws.len() == 0 {
        Seq::<(Seq<char>, Seq<char>, Seq<char>, u32)>::empty()
    } else {
        (if addr_matches(ws[0], rt) {
            seq![(rt, domain, ws[0], 300u32)]
        } else {
            Seq::<(Seq<char>, Seq<char>, Seq<char>, u32)>::empty()
        }).add(addr_words(ws.skip(1), domain, rt))
    }
}

/// Records contributed by each line of an address lookup: a line
/// naming the queried domain opens the answer section; inside it an
/// `Address:` line yields one record unless it carries a server port
/// mark; an `Addresses:` line yields one record per matching word.
pub open spec fn addr_lines(
    ls: Seq<Seq<char>>,
    domain: Seq<char>,
    rt: Seq<char>,
    in_ans: bool,
) -> Seq<(Seq<char>, Seq<char>, Seq<char>, u32)>
    decreases ls.len(),
{
    if ls.len() == 0 {
        Seq::<(Seq<char>, Seq<char>, Seq<char>, u32)>::empty()
    } else {
        let t = trim_spec(ls[0]);
        if contains_sub(t, "Name:"@) && contains_sub(t, domain) {
            addr_lines(ls.skip(1), domain, rt, true)
        } else {
            let from_addr = if in_ans && starts_with_spec(t, "Address:"@) {
                match piece1(t, ':') {
                    Some(a0) => {
                        let a = trim_spec(a0);
                        if !contains_sub(a, "#"@) && addr_matches(a, rt) {
                            seq![(rt, domain, a, 300u32)]
                        } else {
                            Seq::<(Seq<char>, Seq<char>, Seq<char>, u32)>::empty()
                        }
                    },
                    None => Seq::<(Seq<char>, Seq<char>, Seq<char>, u32)>::empty(),
                }
            } else {
                Seq::<(Seq<char>, Seq<char>, Seq<char>, u32)>::empty()
            };
            let from_addrs = if starts_with_spec(t, "Addresses:"@) {
                match piece1(t, ':') {
                    Some(a0) => addr_words(split_ws(a0), domain, rt),
                    None => Seq::<(Seq<char>, Seq<char>, Seq<char>, u32)>::empty(),
                }
            } else {
                Seq::<(Seq<char>, Seq<char>, Seq<char>, u32)>::empty()
            };
            from_addr.add(from_addrs).add(addr_lines(ls.skip(1), domain, rt, in_ans))
        }
    }
}

fn addr_matches_exec(a: &str, rt: &str) -> (r: bool)
    ensures
        r == addr_matches(a@, rt@),
{
    let v6 = crate::text::find_char_in(a, ':').is_some();
    (str_eq_str(rt, "A") && !v6) || (str_eq_str(rt, "AAAA") && v6)
}

/// Collect A or AAAA records out of address-lookup output.
pub fn parse_address_records(
    output: &str,
    domain: &str,
    record_type: &str,
    records: &mut Vec<DnsRecord>,
)
    ensures
        dns_views(final(records)@) == dns_views(old(records)@).add(
            addr_lines(lines_spec(output@), domain@, record_type@, false),
        ),
{
    let ls = split_lines(output);
    let ghost lv = lines_spec(output@);
    let ghost base = dns_views(records@);
    let ghost full = addr_lines(lv, domain@, record_type@, false);
    let n = ls.len();
    let mut in_ans = false;
    let mut k: usize = 0;
    proof {
        assert(lv.skip(0) =~= lv);
        assert(base.add(full) =~~= dns_views(records@).add(
            addr_lines(lv.skip(0), domain@, record_type@, false),
        ));
    }
    while k < n
        invariant
            0 <= k <= n,
            n == ls@.len(),
            views_of(ls@) == lv,
            full == addr_lines(lv, domain@, record_type@, false),
            base.add(full) == dns_views(records@).add(
                addr_lines(lv.skip(k as int), domain@, record_type@, in_ans),
            ),
        decreases n - k,
    {
        proof {
            assert(lv.skip(k as int)[0] == lv[k as int]);
            assert(lv[k as int] == ls@[k as int]@);
            assert(lv.skip(k as int).skip(1) =~= lv.skip(k + 1));
        }
        let t = trim_str(ls[k].as_str());
        let ghost rest_after = addr_lines(lv.skip(k + 1), domain@, record_type@, in_ans);
        if contains_str(t.as_str(), "Name:") && contains_str(t.as_str(), domain) {
            in_ans = true;
        } else {
            let ghost fa = (if in_ans && starts_with_spec(t@, "Address:"@) {
                match piece1(t@, ':') {
                    Some(a0) => {
                        let a = trim_spec(a0);
                        if !contains_sub(a, "#"@) && addr_matches(a, record_type@) {
                            seq![(record_type@, domain@, a, 300u32)]
                        } else {
                            Seq::<(Seq<char>, Seq<char>, Seq<char>, u32)>::empty()
                        }
                    },
                    None => Seq::<(Seq<char>, Seq<char>, Seq<char>, u32)>::empty(),
                }
            } else {
                Seq::<(Seq<char>, Seq<char>, Seq<char>, u32)>::empty()
            });
            let ghost fb = (if starts_with_spec(t@, "Addresses:"@) {
                match piece1(t@, ':') {
                    Some(a0) => addr_words(split_ws(a0), domain@, record_type@),
                    None => Seq::<(Seq<char>, Seq<char>, Seq<char>, u32)>::empty(),
                }
            } else {
                Seq::<(Seq<char>, Seq<char>, Seq<char>, u32)>::empty()
            });
            proof {
                assert(addr_lines(lv.skip(k as int), domain@, record_type@, in_ans) =~~= fa.add(
                    fb,
                ).add(rest_after));
            }
            if in_ans && starts_with_str(t.as_str(), "Address:") {
                match piece1_str(t.as_str(), ':') {
                    Some(a0) => {
                        let a = trim_str(a0.as_str());
                        if !contains_str(a.as_str(), "#") && addr_matches_exec(
                            a.as_str(),
                            record_type,
                        ) {
                            let ghost r0 = dns_views(records@);
                            let rec = DnsRecord {
                                record_type: record_type.to_owned(),
                                name: domain.to_owned(),
                                value: a,
                                ttl: 300,
                            };
                            let ghost recv = (rec.record_type@, rec.name@, rec.value@, rec.ttl);
                            records.push(rec);
                            proof {
                                assert(dns_views(records@) =~~= r0.push(recv));
                                assert(fa =~~= seq![recv]);
                            }
                        }
                    },
                    None => {},
                }
            }
            proof {
                assert(base.add(full) =~~= dns_views(records@).add(fb).add(rest_after));
            }
            if starts_with_str(t.as_str(), "Addresses:") {
                match piece1_str(t.as_str(), ':') {
                    Some(a0) => {
                        let words = split_whitespace_str(a0.as_str());
                        let ghost wv = split_ws(a0@);
                        let wn = words.len();
                        let mut wi: usize = 0;
                        proof {
                            assert(wv.skip(0) =~= wv);
                            assert(fb == addr_words(wv, domain@, record_type@));
                        }
                        while wi < wn
                            invariant
                                0 <= wi <= wn,
                                wn == words@.len(),
                                views_of(words@) == wv,
                                base.add(full) == dns_views(records@).add(
                                    addr_words(wv.skip(wi as int), domain@, record_type@),
                                ).add(rest_after),
                            decreases wn - wi,
                        {
                            proof {
                                assert(wv.skip(wi as int)[0] == wv[wi as int]);
                                assert(wv[wi as int] == words@[wi as int]@);
                                assert(wv.skip(wi as int).skip(1) =~= wv.skip(wi + 1));
                            }
                            if addr_matches_exec(words[wi].as_str(), record_type) {
                                let ghost r0 = dns_views(records@);
                                let value = words[wi].clone();
                                let rec = DnsRecord {
                                    record_type: record_type.to_owned(),
                                    name: domain.to_owned(),
                                    value,
                                    ttl: 300,
                                };
                                let ghost recv = (
                                    rec.record_type@,
                                    rec.name@,
                                    rec.value@,
                                    rec.ttl,
                                );
                                records.push(rec);
                                proof {
                                    assert(dns_views(records@) =~~= r0.push(recv));
                                    assert(base.add(full) =~~= dns_views(records@).add(
                                        addr_words(wv.skip(wi + 1), domain@, record_type@),
                                    ).add(rest_after));
                                }
                            } else {
                                proof {
                                    assert(base.add(full) =~~= dns_views(records@).add(
                                        addr_words(wv.skip(wi + 1), domain@, record_type@),
                                    ).add(rest_after));
                                }
                            }
                            wi = wi + 1;
                        }
                        proof {
                            assert(wv.skip(wn as int).len() == 0);
                            assert(addr_words(wv.skip(wn as int), domain@, record_type@) =~~= Seq::<
                                (Seq<char>, Seq<char>, Seq<char>, u32),
                            >::empty());
                            assert(base.add(full) =~~= dns_views(records@).add(rest_after));
                        }
                    },
                    None => {},
                }
            }
            proof {
                assert(base.add(full) =~~= dns_views(records@).add(rest_after));
            }
        }
        k = k + 1;
    }
    proof {
        assert(lv.skip(n as int).len() == 0);
        assert(addr_lines(lv.skip(n as int), domain@, record_type@, in_ans) =~~= Seq::<
            (Seq<char>, Seq<char>, Seq<char>, u32),
        >::empty());
        assert(dns_views(final(records)@) =~~= base.add(full));
    }
}

// ------------------------------------------------------------------
// the other record types
// ------------------------------------------------------------------

/// The priority on a mail-exchanger line: the number between
/// "preference" and the next comma, ten when it cannot be read.
pub open spec fn mx_priority(t: Seq<char>) -> nat {
    match between_pat(t, "preference"@) {
        Some(p) => {
            let q = trim_spec(skip_leading(trim_spec(piece0(p, ',')), '='));
            match parse_uint(q) {
                Some(v) => if v <= 65535 {
                    v
                } else {
                    10
                },
                None => 10,
            }
        },
        None => 10,
    }
}

/// The record of one mail-exchanger line, if the line is one.
pub open spec fn mx_line(line: Seq<char>, domain: Seq<char>) -> Seq<
    (Seq<char>, Seq<char>, Seq<char>, u32),
> {
    let t = trim_spec(line);
    if contains_sub(t, "mail exchanger"@) || contains_sub(t, "MX preference"@) {
        match between_pat(t, "mail exchanger"@) {
            Some(part) => {
                let host = trim_spec(skip_leading(trim_spec(part), '='));
                seq![
                    (
                        "MX"@,
                        domain,
                        dec_str(mx_priority(t)).add(seq![' ']).add(strip_trailing(host, '.')),
                        300u32,
                    ),
                ]
            },
            None => Seq::<(Seq<char>, Seq<char>, Seq<char>, u32)>::empty(),
        }
    } else {
        Seq::<(Seq<char>, Seq<char>, Seq<char>, u32)>::empty()
    }
}

pub open spec fn mx_all(ls: Seq<Seq<char>>, domain: Seq<char>) -> Seq<
    (Seq<char>, Seq<char>, Seq<char>, u32),
>
    decreases ls.len(),
{
    if ls.len() == 0 {
        Seq::<(Seq<char>, Seq<char>, Seq<char>, u32)>::empty()
    } else {
        mx_line(ls[0], domain).add(mx_all(ls.skip(1), domain))
    }
}

/// Collect MX records out of mail-exchanger lookup output.
pub fn parse_mx_records(output: &str, domain: &str, records: &mut Vec<DnsRecord>)
    ensures
        dns_views(final(records)@) == dns_views(old(records)@).add(
            mx_all(lines_spec(output@), domain@),
        ),
{
    let ls = split_lines(output);
    let ghost lv = lines_spec(output@);
    let ghost base = dns_views(records@);
    let ghost full = mx_all(lv, domain@);
    let n = ls.len();
    let mut k: usize = 0;
    proof {
        assert(lv.skip(0) =~= lv);
        assert(base.add(full) =~~= dns_views(records@).add(mx_all(lv.skip(0), domain@)));
    }
    while k < n
        invariant
            0 <= k <= n,
            n == ls@.len(),
            views_of(ls@) == lv,
            full == mx_all(lv, domain@),
            base.add(full) == dns_views(records@).add(mx_all(lv.skip(k as int), domain@)),
        decreases n - k,
    {
        proof {
            assert(lv.skip(k as int)[0] == lv[k as int]);
            assert(lv[k as int] == ls@[k as int]@);
            assert(lv.skip(k as int).skip(1) =~= lv.skip(k + 1));
        }
        let t = trim_str(ls[k].as_str());
        if contains_str(t.as_str(), "mail exchanger") || contains_str(t.as_str(), "MX preference") {
            match between_pat_str(t.as_str(), "mail exchanger") {
                Some(part) => {
                    let trimmed = trim_str(part.as_str());
                    let unlead = strip_leading_char(trimmed.as_str(), '=');
                    let host = trim_str(unlead.as_str());
                    let prio: u32 = match between_pat_str(t.as_str(), "preference") {
                        Some(p) => {
                            let before = piece0_str(p.as_str(), ',');
                            let q0 = trim_str(before.as_str());
                            let q1 = strip_leading_char(q0.as_str(), '=');
                            let q = trim_str(q1.as_str());
                            match parse_u32_upto(q.as_str(), 65535) {
                                Some(v) => v,
                                None => 10,
                            }
                        },
                        None => 10,
                    };
                    proof {
                        assert(prio as nat == mx_priority(t@));
                    }
                    let mut value = u64_to_dec(prio as u64);
                    value.append(" ");
                    let stripped = strip_trailing_char(host.as_str(), '.');
                    value.append(stripped.as_str());
                    proof {
                        reveal_strlit(" ");
                        assert(value@ =~= dec_str(mx_priority(t@)).add(seq![' ']).add(
                            strip_trailing(trim_spec(skip_leading(trim_spec(part@), '=')), '.'),
                        ));
                    }
                    let ghost r0 = dns_views(records@);
                    let rec = DnsRecord {
                        record_type: "MX".to_owned(),
                        name: domain.to_owned(),
                        value,
                        ttl: 300,
                    };
                    let ghost recv = (rec.record_type@, rec.name@, rec.value@, rec.ttl);
                    records.push(rec);
                    proof {
                        assert(dns_views(records@) =~~= r0.push(recv));
                        assert(mx_line(lv[k as int], domain@) =~~= seq![recv]);
                        assert(base.add(full) =~~= dns_views(records@).add(
                            mx_all(lv.skip(k + 1), domain@),
                        ));
                    }
                },
                None => {
                    proof {
                        assert(mx_line(lv[k as int], domain@) =~~= Seq::<
                            (Seq<char>, Seq<char>, Seq<char>, u32),
                        >::empty());
                        assert(base.add(full) =~~= dns_views(records@).add(
                            mx_all(lv.skip(k + 1), domain@),
                        ));
                    }
                },
            }
        } else {
            proof {
                assert(mx_line(lv[k as int], domain@) =~~= Seq::<
                    (Seq<char>, Seq<char>, Seq<char>, u32),
                >::empty());
                assert(base.add(full) =~~= dns_views(records@).add(
                    mx_all(lv.skip(k + 1), domain@),
                ));
            }
        }
        k = k + 1;
    }
    proof {
        assert(lv.skip(n as int).len() == 0);
        assert(mx_all(lv.skip(n as int), domain@) =~~= Seq::<
            (Seq<char>, Seq<char>, Seq<char>, u32),
        >::empty());
        assert(dns_views(final(records)@) =~~= base.add(full));
    }
}

/// The record of one nameserver line, if the line is one.
pub open spec fn ns_line(line: Seq<char>, domain: Seq<char>) -> Seq<
    (Seq<char>, Seq<char>, Seq<char>, u32),
> {
    let t = trim_spec(line);
    if contains_sub(t, "nameserver"@) {
        match piece1(t, '=') {
            Some(ns) => seq![("NS"@, domain, strip_trailing(trim_spec(ns), '.'), 300u32)],
            None => Seq::<(Seq<char>, Seq<char>, Seq<char>, u32)>::empty(),
        }
    } else {
        Seq::<(Seq<char>, Seq<char>, Seq<char>, u32)>::empty()
    }
}

pub open spec fn ns_all(ls: Seq<Seq<char>>, domain: Seq<char>) -> Seq<
    (Seq<char>, Seq<char>, Seq<char>, u32),
>
    decreases ls.len(),
{
    if ls.len() == 0 {
        Seq::<(Seq<char>, Seq<char>, Seq<char>, u32)>::empty()
    } else {
        ns_line(ls[0], domain).add(ns_all(ls.skip(1), domain))
    }
}

/// Collect NS records out of nameserver lookup output.
pub fn parse_ns_records(output: &str, domain: &str, records: &mut Vec<DnsRecord>)
    ensures
        dns_views(final(records)@) == dns_views(old(records)@).add(
            ns_all(lines_spec(output@), domain@),
        ),
{
    let ls = split_lines(output);
    let ghost lv = lines_spec(output@);
    let ghost base = dns_views(records@);
    let ghost full = ns_all(lv, domain@);
    let n = ls.len();
    let mut k: usize = 0;
    proof {
        assert(lv.skip(0) =~= lv);
        assert(base.add(full) =~~= dns_views(records@).add(ns_all(lv.skip(0), domain@)));
    }
    while k < n
        invariant
            0 <= k <= n,
            n == ls@.len(),
            views_of(ls@) == lv,
            full == ns_all(lv, domain@),
            base.add(full) == dns_views(records@).add(ns_all(lv.skip(k as int), domain@)),
        decreases n - k,
    {
        proof {
            assert(lv.skip(k as int)[0] == lv[k as int]);
            assert(lv[k as int] == ls@[k as int]@);
            assert(lv.skip(k as int).skip(1) =~= lv.skip(k + 1));
        }
        let t = trim_str(ls[k].as_str());
        let mut pushed = false;
        if contains_str(t.as_str(), "nameserver") {
            match piece1_str(t.as_str(), '=') {
                Some(ns) => {
                    let tn = trim_str(ns.as_str());
                    let value = strip_trailing_char(tn.as_str(), '.');
                    let ghost r0 = dns_views(records@);
                    let rec = DnsRecord {
                        record_type: "NS".to_owned(),
                        name: domain.to_owned(),
                        value,
                        ttl: 300,
                    };
                    let ghost recv = (rec.record_type@, rec.name@, rec.value@, rec.ttl);
                    records.push(rec);
                    pushed = true;
                    proof {
                        assert(dns_views(records@) =~~= r0.push(recv));
                        assert(ns_line(lv[k as int], domain@) =~~= seq![recv]);
                    }
                },
                None => {},
            }
        }
        proof {
            if !pushed {
                assert(ns_line(lv[k as int], domain@) =~~= Seq::<
                    (Seq<char>, Seq<char>, Seq<char>, u32),
                >::empty());
            }
            assert(base.add(full) =~~= dns_views(records@).add(ns_all(lv.skip(k + 1), domain@)));
        }
        k = k + 1;
    }
    proof {
        assert(lv.skip(n as int).len() == 0);
        assert(ns_all(lv.skip(n as int), domain@) =~~= Seq::<
            (Seq<char>, Seq<char>, Seq<char>, u32),
        >::empty());
        assert(dns_views(final(records)@) =~~= base.add(full));
    }
}

/// The record of one text-record line, if the line is one and its text
/// is not empty.
pub open spec fn txt_line(line: Seq<char>, domain: Seq<char>) -> Seq<
    (Seq<char>, Seq<char>, Seq<char>, u32),
> {
    let t = trim_spec(line);
    if contains_sub(t, "text"@) && find_char(t, '=') is Some {
        match piece1(t, '=') {
            Some(txt) => {
                let v = strip_both(trim_spec(txt), '"');
                if v.len() > 0 {
                    seq![("TXT"@, domain, v, 300u32)]
                } else {
                    Seq::<(Seq<char>, Seq<char>, Seq<char>, u32)>::empty()
                }
            },
            None => Seq::<(Seq<char>, Seq<char>, Seq<char>, u32)>::empty(),
        }
    } else {
        Seq::<(Seq<char>, Seq<char>, Seq<char>, u32)>::empty()
    }
}

pub open spec fn txt_all(ls: Seq<Seq<char>>, domain: Seq<char>) -> Seq<
    (Seq<char>, Seq<char>, Seq<char>, u32),
>
    decreases ls.len(),
{
    if ls.len() == 0 {
        Seq::<(Seq<char>, Seq<char>, Seq<char>, u32)>::empty()
    } else {
        txt_line(ls[0], domain).add(txt_all(ls.skip(1), domain))
    }
}

/// Collect TXT records out of text-record lookup output.
pub fn parse_txt_records(output: &str, domain: &str, records: &mut Vec<DnsRecord>)
    ensures
        dns_views(final(records)@) == dns_views(old(records)@).add(
            txt_all(lines_spec(output@), domain@),
        ),
{
    let ls = split_lines(output);
    let ghost lv = lines_spec(output@);
    let ghost base = dns_views(records@);
    let ghost full = txt_all(lv, domain@);
    let n = ls.len();
    let mut k: usize = 0;
    proof {
        assert(lv.skip(0) =~= lv);
        assert(base.add(full) =~~= dns_views(records@).add(txt_all(lv.skip(0), domain@)));
    }
    while k < n
        invariant
            0 <= k <= n,
            n == ls@.len(),
            views_of(ls@) == lv,
            full == txt_all(lv, domain@),
            base.add(full) == dns_views(records@).add(txt_all(lv.skip(k as int), domain@)),
        decreases n - k,
    {
        proof {
            assert(lv.skip(k as int)[0] == lv[k as int]);
            assert(lv[k as int] == ls@[k as int]@);
            assert(lv.skip(k as int).skip(1) =~= lv.skip(k + 1));
        }
        let t = trim_str(ls[k].as_str());
        let mut pushed = false;
        if contains_str(t.as_str(), "text") && crate::text::find_char_in(
            t.as_str(),
            '=',
        ).is_some() {
            match piece1_str(t.as_str(), '=') {
                Some(txt) => {
                    let tt = trim_str(txt.as_str());
                    let v = strip_both_char(tt.as_str(), '"');
                    if !v.as_str().is_empty() {
                        let ghost r0 = dns_views(records@);
                        let rec = DnsRecord {
                            record_type: "TXT".to_owned(),
                            name: domain.to_owned(),
                            value: v,
                            ttl: 300,
                        };
                        let ghost recv = (rec.record_type@, rec.name@, rec.value@, rec.ttl);
                        records.push(rec);
                        pushed = true;
                        proof {
                            assert(dns_views(records@) =~~= r0.push(recv));
                            assert(txt_line(lv[k as int], domain@) =~~= seq![recv]);
                        }
                    }
                },
                None => {},
            }
        }
        proof {
            if !pushed {
                assert(txt_line(lv[k as int], domain@) =~~= Seq::<
                    (Seq<char>, Seq<char>, Seq<char>, u32),
                >::empty());
            }
            assert(base.add(full) =~~= dns_views(records@).add(txt_all(lv.skip(k + 1), domain@)));
        }
        k = k + 1;
    }
    proof {
        assert(lv.skip(n as int).len() == 0);
        assert(txt_all(lv.skip(n as int), domain@) =~~= Seq::<
            (Seq<char>, Seq<char>, Seq<char>, u32),
        >::empty());
        assert(dns_views(final(records)@) =~~= base.add(full));
    }
}

/// The record of one canonical-name line, if the line is one.
pub open spec fn cname_line(line: Seq<char>, domain: Seq<char>) -> Seq<
    (Seq<char>, Seq<char>, Seq<char>, u32),
> {
    let t = trim_spec(line);
    if contains_sub(t, "canonical name"@) || contains_sub(t, "CNAME"@) {
        match piece1(t, '=') {
            Some(cn) => seq![("CNAME"@, domain, strip_trailing(trim_spec(cn), '.'), 300u32)],
            None => Seq::<(Seq<char>, Seq<char>, Seq<char>, u32)>::empty(),
        }
    } else {
        Seq::<(Seq<char>, Seq<char>, Seq<char>, u32)>::empty()
    }
}

pub open spec fn cname_all(ls: Seq<Seq<char>>, domain: Seq<char>) -> Seq<
    (Seq<char>, Seq<char>, Seq<char>, u32),
>
    decreases ls.len(),
{
    if ls.len() == 0 {
        Seq::<(Seq<char>, Seq<char>, Seq<char>, u32)>::empty()
    } else {
        cname_line(ls[0], domain).add(cname_all(ls.skip(1), domain))
    }
}

/// Collect CNAME records out of canonical-name lookup output.
pub fn parse_cname_records(output: &str, domain: &str, records: &mut Vec<DnsRecord>)
    ensures
        dns_views(final(records)@) == dns_views(old(records)@).add(
            cname_all(lines_spec(output@), domain@),
        ),
{
    let ls = split_lines(output);
    let ghost lv = lines_spec(output@);
    let ghost base = dns_views(records@);
    let ghost full = cname_all(lv, domain@);
    let n = ls.len();
    let mut k: usize = 0;
    proof {
        assert(lv.skip(0) =~= lv);
        assert(base.add(full) =~~= dns_views(records@).add(cname_all(lv.skip(0), domain@)));
    }
    while k < n
        invariant
            0 <= k <= n,
            n == ls@.len(),
            views_of(ls@) == lv,
            full == cname_all(lv, domain@),
            base.add(full) == dns_views(records@).add(cname_all(lv.skip(k as int), domain@)),
        decreases n - k,
    {
        proof {
            assert(lv.skip(k as int)[0] == lv[k as int]);
            assert(lv[k as int] == ls@[k as int]@);
            assert(lv.skip(k as int).skip(1) =~= lv.skip(k + 1));
        }
        let t = trim_str(ls[k].as_str());
        let mut pushed = false;
        if contains_str(t.as_str(), "canonical name") || contains_str(t.as_str(), "CNAME") {
            match piece1_str(t.as_str(), '=') {
                Some(cn) => {
                    let tn = trim_str(cn.as_str());
                    let value = strip_trailing_char(tn.as_str(), '.');
                    let ghost r0 = dns_views(records@);
                    let rec = DnsRecord {
                        record_type: "CNAME".to_owned(),
                        name: domain.to_owned(),
                        value,
                        ttl: 300,
                    };
                    let ghost recv = (rec.record_type@, rec.name@, rec.value@, rec.ttl);
                    records.push(rec);
                    pushed = true;
                    proof {
                        assert(dns_views(records@) =~~= r0.push(recv));
                        assert(cname_line(lv[k as int], domain@) =~~= seq![recv]);
                    }
                },
                None => {},
            }
        }
        proof {
            if !pushed {
                assert(cname_line(lv[k as int], domain@) =~~= Seq::<
                    (Seq<char>, Seq<char>, Seq<char>, u32),
                >::empty());
            }
            assert(base.add(full) =~~= dns_views(records@).add(
                cname_all(lv.skip(k + 1), domain@),
            ));
        }
        k = k + 1;
    }
    proof {
        assert(lv.skip(n as int).len() == 0);
        assert(cname_all(lv.skip(n as int), domain@) =~~= Seq::<
            (Seq<char>, Seq<char>, Seq<char>, u32),
        >::empty());
        assert(dns_views(final(records)@) =~~= base.add(full));
    }
}

/// What one lookup's output contributes for a requested record type;
/// an unknown type contributes nothing.
pub open spec fn dns_records_spec(out: Seq<char>, domain: Seq<char>, rt: Seq<char>) -> Seq<
    (Seq<char>, Seq<char>, Seq<char>, u32),
> {
    if rt == "A"@ || rt == "AAAA"@ {
        addr_lines(lines_spec(out), domain, rt, false)
    } else if rt == "MX"@ {
        mx_all(lines_spec(out), domain)
    } else if rt == "NS"@ {
        ns_all(lines_spec(out), domain)
    } else if rt == "TXT"@ {
        txt_all(lines_spec(out), domain)
    } else if rt == "CNAME"@ {
        cname_all(lines_spec(out), domain)
    } else {
        Seq::<(Seq<char>, Seq<char>, Seq<char>, u32)>::empty()
    }
}

/// Dispatch one lookup's output to the parser for its record type.
pub fn parse_dns_records(output: &str, domain: &str, record_type: &str, records: &mut Vec<DnsRecord>)
    ensures
        dns_views(final(records)@) == dns_views(old(records)@).add(
            dns_records_spec(output@, domain@, record_type@),
        ),
{
    if str_eq_str(record_type, "A") || str_eq_str(record_type, "AAAA") {
        parse_address_records(output, domain, record_type, records);
    } else if str_eq_str(record_type, "MX") {
        parse_mx_records(output, domain, records);
    } else if str_eq_str(record_type, "NS") {
        parse_ns_records(output, domain, records);
    } else if str_eq_str(record_type, "TXT") {
        parse_txt_records(output, domain, records);
    } else if str_eq_str(record_type, "CNAME") {
        parse_cname_records(output, domain, records);
    } else {
        proof {
            assert(dns_views(records@).add(
                dns_records_spec(output@, domain@, record_type@),
            ) =~~= dns_views(records@));
        }
    }
}

} // verus!
