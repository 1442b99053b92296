//! Certificate inspection: reading the certificate fields out of the
//! inspection tool's marked output, and the expiry arithmetic.  The
//! tool itself runs in the caller; the date parse is chrono's.

use vstd::prelude::*;
use vstd::string::StrSliceExecFns;
use crate::clock::now_unix_ms;
use crate::text::{
    contains_str, contains_sub, lines_spec, split_lines, starts_with_spec, starts_with_str,
    views_of,
};

verus! {

/// One inspected certificate.
#[derive(Clone, Debug)]
pub struct SslCertificate {
    pub subject: String,
    pub issuer: String,
    pub valid_from: String,
    pub valid_to: String,
    pub serial_number: String,
    pub is_valid: bool,
    pub days_until_expiry: i64,
    pub san: Vec<String>,
}

/// Outcome of one certificate check.
#[derive(Clone, Debug)]
pub struct SslCheckResult {
    pub host: String,
    pub port: u16,
    pub certificate: Option<SslCertificate>,
    pub error: Option<String>,
    pub protocol_version: Option<String>,
}

/// The instant named by an RFC 3339 date text, in milliseconds since
/// the Unix epoch, when the text parses.
pub uninterp spec fn rfc3339_ms_of(s: Seq<char>) -> Option<i64>;

/// Relies on `chrono::DateTime::parse_from_rfc3339` and
/// `timestamp_millis`: the parse depends on the text alone, and every
/// representable chrono instant lies within a quarter of a million
/// years of the epoch.
#[verifier::external_body]
fn parse_rfc3339_ms(s: &str) -> (r: Option<i64>)
    ensures
        r == rfc3339_ms_of(s@),
        r matches Some(ms) ==> -9_000_000_000_000_000 <= ms <= 9_000_000_000_000_000,
{
    match chrono::DateTime::parse_from_rfc3339(s) {
        Ok(d) => Some(d.timestamp_millis()),
        Err(_) => None,
    }
}

/// A millisecond span as whole days, truncated toward zero, as a
/// signed-duration day count is taken.
pub open spec fn days_trunc(diff: int) -> int {
    if diff >= 0 {
        diff / 86_400_000
    } else {
        -((-diff) / 86_400_000)
    }
}

/// Whole days from `now_ms` to `expiry_ms`, truncated toward zero.
pub fn days_between(expiry_ms: i64, now_ms: i64) -> (r: i64)
    requires
        -9_000_000_000_000_000 <= expiry_ms <= 9_000_000_000_000_000,
        -9_000_000_000_000_000 <= now_ms <= 9_000_000_000_000_000,
    ensures
        r == days_trunc(expiry_ms - now_ms),
{
    let diff: i64 = expiry_ms - now_ms;
    if diff >= 0 {
        diff / 86_400_000
    } else {
        -((-diff) / 86_400_000)
    }
}

/// Days until the named expiry date, measured from the wall clock; a
/// date that does not parse counts as a year away.
pub fn calculate_days_until_expiry(date_str: &str) -> (r: i64)
    ensures
        rfc3339_ms_of(date_str@) is None ==> r == 365,
{
    match parse_rfc3339_ms(date_str) {
        Some(ms) => {
            let now = now_unix_ms();
            let clamped: i64 = if now < -9_000_000_000_000_000 {
                -9_000_000_000_000_000
            } else if now > 9_000_000_000_000_000 {
                9_000_000_000_000_000
            } else {
                now
            };
            days_between(ms, clamped)
        },
        None => 365,
    }
}

/// The value of the last line carrying a marker prefix, across a
/// prefix of the output lines.
pub open spec fn marked_fold(ls: Seq<Seq<char>>, marker: Seq<char>) -> Seq<char>
    decreases ls.len(),
{
    if ls.len() == 0 {
        Seq::<char>::empty()
    } else {
        let prev = marked_fold(ls.drop_last(), marker);
        if starts_with_spec(ls.last(), marker) {
            ls.last().skip(marker.len() as int)
        } else {
            prev
        }
    }
}

fn collect_marked(ls: &Vec<String>, marker: &str) -> (r: String)
    ensures
        r@ == marked_fold(views_of(ls@), marker@),
{
    let ghost lv = views_of(ls@);
    let n = ls.len();
    let mut out = String::new();
    let mut k: usize = 0;
    proof {
        assert(lv.take(0).len() == 0);
        assert(out@ =~= marked_fold(lv.take(0), marker@));
    }
    while k < n
        invariant
            0 <= k <= n,
            n == ls@.len(),
            lv == views_of(ls@),
            out@ == marked_fold(lv.take(k as int), marker@),
        decreases n - k,
    {
        proof {
            assert(lv.take(k + 1).drop_last() =~= lv.take(k as int));
            assert(lv.take(k + 1).last() == lv[k as int]);
            assert(lv[k as int] == ls@[k as int]@);
        }
        if starts_with_str(ls[k].as_str(), marker) {
            let len = ls[k].as_str().unicode_len();
            let ml = marker.unicode_len();
            let v = ls[k].as_str().substring_char(ml, len).to_owned();
            proof {
                assert(v@ =~= ls@[k as int]@.skip(marker@.len() as int));
            }
            out = v;
        }
        k = k + 1;
    }
    proof {
        assert(lv.take(n as int) =~= lv);
    }
    out
}

/// Read a certificate check out of the inspection tool's marked
/// output.  A reported error line wins; otherwise the last line of
/// each marker fills the certificate, and the expiry day count is
/// measured against the wall clock, a year when the date does not
/// parse.
pub fn check_ssl_powershell(host: &str, port: u16, output: &str) -> (r: Result<
    SslCheckResult,
    String,
>)
    ensures
        (r matches Ok(c) && c.host@ == host@ && c.port == port),
        contains_sub(output@, "ERROR:"@) ==> (match r {
            Ok(c) => c.certificate is None && c.protocol_version is None && (match c.error {
                Some(e) => e@ == marked_fold(lines_spec(output@), "ERROR:"@),
                None => false,
            }),
            Err(_) => false,
        }),
        !contains_sub(output@, "ERROR:"@) ==> (match r {
            Ok(c) => c.error is None && (match c.certificate {
                Some(cert) => cert.subject@ == marked_fold(lines_spec(output@), "SUBJECT:"@)
                    && cert.issuer@ == marked_fold(lines_spec(output@), "ISSUER:"@)
                    && cert.valid_from@ == marked_fold(lines_spec(output@), "NOTBEFORE:"@)
                    && cert.valid_to@ == marked_fold(lines_spec(output@), "NOTAFTER:"@)
                    && cert.serial_number@ == marked_fold(lines_spec(output@), "SERIAL:"@)
                    && cert.is_valid == (cert.days_until_expiry > 0) && (rfc3339_ms_of(
                    marked_fold(lines_spec(output@), "NOTAFTER:"@),
                ) is None ==> cert.days_until_expiry == 365) && cert.san@.len() == 1
                    && cert.san@[0]@ == host@,
                None => false,
            }),
            Err(_) => false,
        }),
{
    let ls = split_lines(output);
    if contains_str(output, "ERROR:") {
        let msg = collect_marked(&ls, "ERROR:");
        return Ok(
            SslCheckResult {
                host: host.to_owned(),
                port,
                certificate: None,
                error: Some(msg),
                protocol_version: None,
            },
        );
    }
    let subject = collect_marked(&ls, "SUBJECT:");
    let issuer = collect_marked(&ls, "ISSUER:");
    let valid_from = collect_marked(&ls, "NOTBEFORE:");
    let valid_to = collect_marked(&ls, "NOTAFTER:");
    let serial_number = collect_marked(&ls, "SERIAL:");
    let days_until_expiry = calculate_days_until_expiry(valid_to.as_str());
    let mut san: Vec<String> = Vec::new();
    san.push(host.to_owned());
    Ok(
        SslCheckResult {
            host: host.to_owned(),
            port,
            certificate: Some(
                SslCertificate {
                    subject,
                    issuer,
                    valid_from,
                    valid_to,
                    serial_number,
                    is_valid: days_until_expiry > 0,
                    days_until_expiry,
                    san,
                },
            ),
            error: None,
            protocol_version: Some("TLS 1.2+".to_owned()),
        },
    )
}

} // verus!
