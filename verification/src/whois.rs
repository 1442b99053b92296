//! Registry lookups: choosing the registry server for a domain and
//! reading the interesting fields out of the raw registry response.
//! The response text itself travels over the network in the caller.

use vstd::prelude::*;
use vstd::string::StrSliceExecFns;
use crate::expand::{rfind_char, rfind_char_in, lemma_rfind_char_props};
use crate::text::{
    after_first, after_first_str, contains_lower, contains_sub, eq_lower, lines_spec, lower_seq,
    opt_view, split_lines, starts_with_lower, starts_with_spec, trim_spec, trim_str, views_of,
};

verus! {

/// The fields read out of one registry response.
#[derive(Clone, Debug)]
pub struct WhoisResult {
    pub domain: String,
    pub registrar: Option<String>,
    pub creation_date: Option<String>,
    pub expiration_date: Option<String>,
    pub name_servers: Vec<String>,
    pub status: Vec<String>,
    pub raw_data: String,
}

/// The registry server responsible for a domain, chosen by its
/// top-level label, ASCII case ignored.
pub open spec fn whois_server_spec(domain: Seq<char>) -> Seq<char> {
    let tld = lower_seq(
        match rfind_char(domain, '.') {
            Some(i) => domain.skip(i + 1),
            None => domain,
        },
    );
    if tld == "com"@ || tld == "net"@ {
        "whois.verisign-grs.com"@
    } else if tld == "org"@ {
        "whois.pir.org"@
    } else if tld == "de"@ {
        "whois.denic.de"@
    } else if tld == "uk"@ || tld == "co.uk"@ {
        "whois.nic.uk"@
    } else if tld == "io"@ {
        "whois.nic.io"@
    } else if tld == "me"@ {
        "whois.nic.me"@
    } else if tld == "eu"@ {
        "whois.eu"@
    } else if tld == "info"@ {
        "whois.afilias.net"@
    } else if tld == "biz"@ {
        "whois.biz"@
    } else {
        "whois.iana.org"@
    }
}

/// Pick the registry server for a domain by its top-level label.
pub fn determine_whois_server(domain: &str) -> (r: &'static str)
    ensures
        r@ == whois_server_spec(domain@),
{
    let len = domain.unicode_len();
    let tld: &str = match rfind_char_in(domain, '.') {
        Some(i) => {
            proof {
                lemma_rfind_char_props(domain@, '.');
            }
            domain.substring_char(i + 1, len)
        },
        None => domain,
    };
    proof {
        assert(tld@ =~= (match rfind_char(domain@, '.') {
            Some(i) => domain@.skip(i + 1),
            None => domain@,
        }));
    }
    if eq_lower(tld, "com") || eq_lower(tld, "net") {
        "whois.verisign-grs.com"
    } else if eq_lower(tld, "org") {
        "whois.pir.org"
    } else if eq_lower(tld, "de") {
        "whois.denic.de"
    } else if eq_lower(tld, "uk") || eq_lower(tld, "co.uk") {
        "whois.nic.uk"
    } else if eq_lower(tld, "io") {
        "whois.nic.io"
    } else if eq_lower(tld, "me") {
        "whois.nic.me"
    } else if eq_lower(tld, "eu") {
        "whois.eu"
    } else if eq_lower(tld, "info") {
        "whois.afilias.net"
    } else if eq_lower(tld, "biz") {
        "whois.biz"
    } else {
        "whois.iana.org"
    }
}

/// The value on a field line: everything after the first colon,
/// trimmed.
pub open spec fn field_val(t: Seq<char>) -> Seq<char> {
    trim_spec(after_first(t, ':'))
}

/// The accumulated fields after reading a prefix of the response
/// lines: registrar, creation date, expiration date, name servers and
/// status values, later single-valued lines overriding earlier ones.
pub open spec fn whois_fold(ls: Seq<Seq<char>>) -> (
    Option<Seq<char>>,
    Option<Seq<char>>,
    Option<Seq<char>>,
    Seq<Seq<char>>,
    Seq<Seq<char>>,
)
    decreases ls.len(),
{
    if ls.len() == 0 {
        (
            None::<Seq<char>>,
            None::<Seq<char>>,
            None::<Seq<char>>,
            Seq::<Seq<char>>::empty(),
            Seq::<Seq<char>>::empty(),
        )
    } else {
        let prev = whois_fold(ls.drop_last());
        let t = trim_spec(ls.last());
        let low = lower_seq(t);
        let v = field_val(t);
        if starts_with_spec(low, "registrar:"@) {
            (Some(v), prev.1, prev.2, prev.3, prev.4)
        } else if contains_sub(low, "creation date"@) || contains_sub(low, "created:"@)
            || contains_sub(low, "registered:"@) {
            (prev.0, Some(v), prev.2, prev.3, prev.4)
        } else if contains_sub(low, "expir"@) && contains_sub(low, "date"@) {
            (prev.0, prev.1, Some(v), prev.3, prev.4)
        } else if starts_with_spec(low, "name server:"@) || starts_with_spec(low, "nserver:"@) {
            if v.len() > 0 {
                (prev.0, prev.1, prev.2, prev.3.push(v), prev.4)
            } else {
                prev
            }
        } else if starts_with_spec(low, "status:"@) || starts_with_spec(low, "domain status:"@) {
            if v.len() > 0 {
                (prev.0, prev.1, prev.2, prev.3, prev.4.push(v))
            } else {
                prev
            }
        } else {
            prev
        }
    }
}

/// Read registrar, dates, name servers and status values out of a raw
/// registry response; the raw text is kept alongside.
pub fn parse_whois_output(domain: &str, output: &str) -> (r: WhoisResult)
    ensures
        r.domain@ == domain@,
        r.raw_data@ == output@,
        opt_view(r.registrar) == whois_fold(lines_spec(output@)).0,
        opt_view(r.creation_date) == whois_fold(lines_spec(output@)).1,
        opt_view(r.expiration_date) == whois_fold(lines_spec(output@)).2,
        views_of(r.name_servers@) == whois_fold(lines_spec(output@)).3,
        views_of(r.status@) == whois_fold(lines_spec(output@)).4,
{
    let ls = split_lines(output);
    let ghost lv = lines_spec(output@);
    let n = ls.len();
    let mut registrar: Option<String> = None;
    let mut creation_date: Option<String> = None;
    let mut expiration_date: Option<String> = None;
    let mut name_servers: Vec<String> = Vec::new();
    let mut status: Vec<String> = Vec::new();
    let mut k: usize = 0;
    proof {
        assert(lv.take(0).len() == 0);
        assert(views_of(name_servers@) =~~= whois_fold(lv.take(0)).3);
        assert(views_of(status@) =~~= whois_fold(lv.take(0)).4);
    }
    while k < n
        invariant
            0 <= k <= n,
            n == ls@.len(),
            views_of(ls@) == lv,
            opt_view(registrar) == whois_fold(lv.take(k as int)).0,
            opt_view(creation_date) == whois_fold(lv.take(k as int)).1,
            opt_view(expiration_date) == whois_fold(lv.take(k as int)).2,
            views_of(name_servers@) == whois_fold(lv.take(k as int)).3,
            views_of(status@) == whois_fold(lv.take(k as int)).4,
        decreases n - k,
    {
        proof {
            assert(lv.take(k + 1).drop_last() =~= lv.take(k as int));
            assert(lv.take(k + 1).last() == lv[k as int]);
            assert(lv[k as int] == ls@[k as int]@);
        }
        let t = trim_str(ls[k].as_str());
        let colon_rest = after_first_str(t.as_str(), ':');
        let v = trim_str(colon_rest.as_str());
        if starts_with_lower(t.as_str(), "registrar:") {
            registrar = Some(v);
        } else if contains_lower(t.as_str(), "creation date") || contains_lower(
            t.as_str(),
            "created:",
        ) || contains_lower(t.as_str(), "registered:") {
            creation_date = Some(v);
        } else if contains_lower(t.as_str(), "expir") && contains_lower(t.as_str(), "date") {
            expiration_date = Some(v);
        } else if starts_with_lower(t.as_str(), "name server:") || starts_with_lower(
            t.as_str(),
            "nserver:",
        ) {
            if !v.as_str().is_empty() {
                let ghost ns0 = name_servers@;
                name_servers.push(v);
                proof {
                    assert(views_of(name_servers@) =~~= views_of(ns0).push(
                        field_val(trim_spec(lv[k as int])),
                    ));
                }
            }
        } else if starts_with_lower(t.as_str(), "status:") || starts_with_lower(
            t.as_str(),
            "domain status:",
        ) {
            if !v.as_str().is_empty() {
                let ghost st0 = status@;
                status.push(v);
                proof {
                    assert(views_of(status@) =~~= views_of(st0).push(
                        field_val(trim_spec(lv[k as int])),
                    ));
                }
            }
        }
        k = k + 1;
    }
    proof {
        assert(lv.take(n as int) =~= lv);
    }
    WhoisResult {
        domain: domain.to_owned(),
        registrar,
        creation_date,
        expiration_date,
        name_servers,
        status,
        raw_data: output.to_owned(),
    }
}

} // verus!
