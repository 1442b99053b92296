//! Reachability probing: classifying one probe's textual result and
//! assembling a sweep's outcome list.
//!
//! The probe tool's output is recognized in its English and German
//! renderings.  Round-trip times are parsed into integer microseconds;
//! a reading of "less than one millisecond" is reported as half a
//! millisecond, and a reading beyond `u32::MAX` microseconds is treated
//! as failed extraction, which degrades to a success without a reading.

use vstd::prelude::*;
use vstd::multiset::Multiset;
use vstd::string::StrSliceExecFns;
use vstd::string::StringExecFns;
use crate::text::{
    all_digits, contains_str, contains_sub, digits_val, find_char, find_char_in, find_sub,
    find_sub_in, is_digit, lines_spec, parse_u32_upto, parse_uint, split_char_spec,
    split_char_str, split_lines, starts_with_spec, starts_with_str, str_eq_str, trim_spec,
    trim_str, views_of,
};

verus! {

/// Result of one reachability probe.
#[derive(Clone, Debug)]
pub struct PingResult {
    pub ip: String,
    pub hostname: Option<String>,
    /// "online", "offline" or "timeout".
    pub status: String,
    /// Round-trip time in microseconds, when one was reported.
    pub rtt_us: Option<u32>,
    /// Remaining hop limit, when one was reported.
    pub ttl: Option<u8>,
}

/// Aggregate of one sweep.
#[derive(Clone, Debug)]
pub struct ScanResult {
    pub results: Vec<PingResult>,
    pub total_hosts: usize,
    pub responding_hosts: usize,
    pub duration_ms: u64,
}

// ------------------------------------------------------------------
// reading a round-trip time out of probe output
// ------------------------------------------------------------------

/// Leading `<` characters dropped.
pub open spec fn skip_lt(s: Seq<char>) -> Seq<char>
    decreases s.len(),
{
    if s.len() > 0 && s[0] == '<' {
        skip_lt(s.skip(1))
    } else {
        s
    }
}

pub open spec fn is_digit_or_dot(c: char) -> bool {
    is_digit(c) || c == '.'
}

/// The longest prefix made of digits and dots.
pub open spec fn num_run(s: Seq<char>) -> Seq<char>
    decreases s.len(),
{
    if s.len() > 0 && is_digit_or_dot(s[0]) {
        seq![s[0]].add(num_run(s.skip(1)))
    } else {
        Seq::<char>::empty()
    }
}

proof fn lemma_skip_lt_at(s: Seq<char>, a: int)
    requires
        0 <= a <= s.len(),
        forall|j: int| 0 <= j < a ==> s[j] == '<',
        a < s.len() ==> s[a] != '<',
    ensures
        skip_lt(s) == s.skip(a),
    decreases a,
{
    if a == 0 {
        assert(s.skip(0) =~= s);
    } else {
        assert(s[0] == '<');
        assert forall|j: int| 0 <= j < a - 1 implies s.skip(1)[j] == '<' by {
            assert(s.skip(1)[j] == s[j + 1]);
        }
        if a < s.len() {
            assert(s.skip(1)[a - 1] == s[a]);
        }
        lemma_skip_lt_at(s.skip(1), a - 1);
        assert(s.skip(1).skip(a - 1) =~= s.skip(a));
    }
}

proof fn lemma_num_run_at(s: Seq<char>, k: int)
    requires
        0 <= k <= s.len(),
        forall|j: int| 0 <= j < k ==> is_digit_or_dot(#[trigger] s[j]),
        k < s.len() ==> !is_digit_or_dot(s[k]),
    ensures
        num_run(s) == s.take(k),
    decreases k,
{
    if k == 0 {
        assert(s.take(0) =~= Seq::<char>::empty());
    } else {
        assert(is_digit_or_dot(s[0]));
        assert forall|j: int| 0 <= j < k - 1 implies is_digit_or_dot(#[trigger] s.skip(1)[j]) by {
            assert(s.skip(1)[j] == s[j + 1]);
        }
        if k < s.len() {
            assert(s.skip(1)[k - 1] == s[k]);
        }
        lemma_num_run_at(s.skip(1), k - 1);
        assert(seq![s[0]].add(s.skip(1).take(k - 1)) =~= s.take(k));
    }
}

/// Microseconds in a millisecond reading of the form `digits[.digits]`;
/// fractional digits beyond the microsecond are ignored.
pub open spec fn frac_us_of(fr: Seq<char>) -> nat {
    if fr.len() >= 3 {
        digits_val(fr.take(3))
    } else if fr.len() == 2 {
        digits_val(fr) * 10
    } else if fr.len() == 1 {
        digits_val(fr) * 100
    } else {
        0
    }
}

/// The value, in microseconds, of a millisecond reading; what a float
/// parse of `digits[.digits]` would yield, scaled by a thousand.
pub open spec fn ms_text_us(s: Seq<char>) -> Option<nat> {
    match find_char(s, '.') {
        None => if s.len() > 0 && all_digits(s) {
            Some(digits_val(s) * 1000)
        } else {
            None
        },
        Some(i) => {
            let w = s.take(i);
            let fr = s.skip(i + 1);
            if (w.len() + fr.len() > 0) && all_digits(w) && all_digits(fr) && find_char(fr, '.')
                is None {
                Some(digits_val(w) * 1000 + frac_us_of(fr))
            } else {
                None
            }
        },
    }
}

/// Parse a millisecond reading into microseconds, rejecting values that
/// do not fit 32 bits.
pub fn parse_ms_to_us(s: &str) -> (r: Option<u32>)
    ensures
        match ms_text_us(s@) {
            Some(v) => if v <= 0xFFFF_FFFF {
                r == Some(v as u32)
            } else {
                r is None
            },
            None => r is None,
        },
{
    let len = s.unicode_len();
    match find_char_in(s, '.') {
        None => {
            if len == 0 {
                return None;
            }
            let mut i: usize = 0;
            while i < len
                invariant
                    0 <= i <= len,
                    len == s@.len(),
                    find_char(s@, '.') is None,
                    all_digits(s@.take(i as int)),
                decreases len - i,
            {
                let c = s.get_char(i);
                if !('0' <= c && c <= '9') {
                    assert(!all_digits(s@));
                    return None;
                }
                proof {
                    assert forall|j: int| 0 <= j < i + 1 implies is_digit(
                        #[trigger] s@.take(i + 1)[j],
                    ) by {
                        if j < i {
                            assert(s@.take(i + 1)[j] == s@.take(i as int)[j]);
                        }
                    }
                }
                i = i + 1;
            }
            proof {
                assert(s@.take(len as int) =~= s@);
            }
            match parse_u32_upto(s, 4294967) {
                Some(w) => {
                    let v: u64 = (w as u64) * 1000;
                    if v > 0xFFFF_FFFF {
                        return None;
                    }
                    Some(v as u32)
                },
                None => {
                    proof {
                        match parse_uint(s@) {
                            Some(pv) => {
                                if pv > 4294967 {
                                    assert(pv * 1000 > 0xFFFF_FFFF);
                                }
                            },
                            None => {},
                        }
                    }
                    None
                },
            }
        },
        Some(d) => {
            proof {
                crate::text::lemma_find_char_props(s@, '.');
            }
            let w = s.substring_char(0, d);
            let fr = s.substring_char(d + 1, len);
            proof {
                assert(w@ =~= s@.take(d as int));
                assert(fr@ =~= s@.skip(d + 1));
            }
            if w.unicode_len() == 0 && fr.unicode_len() == 0 {
                return None;
            }
            if find_char_in(fr, '.').is_some() {
                return None;
            }
            let whole: u32 = if w.unicode_len() == 0 {
                proof {
                    assert(w@.len() == 0);
                    assert(all_digits(w@));
                    assert(digits_val(w@) == 0);
                }
                0
            } else {
                let mut i: usize = 0;
                let wl = w.unicode_len();
                while i < wl
                    invariant
                        0 <= i <= wl,
                        wl == w@.len(),
                        len == s@.len(),
                        find_char(s@, '.') == Some(d as int),
                        0 <= d < len,
                        w@ == s@.take(d as int),
                        all_digits(w@.take(i as int)),
                    decreases wl - i,
                {
                    let c = w.get_char(i);
                    if !('0' <= c && c <= '9') {
                        assert(!all_digits(w@));
                        return None;
                    }
                    proof {
                        assert forall|j: int| 0 <= j < i + 1 implies is_digit(
                            #[trigger] w@.take(i + 1)[j],
                        ) by {
                            if j < i {
                                assert(w@.take(i + 1)[j] == w@.take(i as int)[j]);
                            }
                        }
                    }
                    i = i + 1;
                }
                proof {
                    assert(w@.take(wl as int) =~= w@);
                }
                match parse_u32_upto(w, 4294967) {
                    Some(v) => v,
                    None => {
                        proof {
                            match parse_uint(w@) {
                                Some(pv) => {
                                    if pv > 4294967 {
                                        assert(pv * 1000 > 0xFFFF_FFFF);
                                    }
                                },
                                None => {},
                            }
                        }
                        return None;
                    },
                }
            };
            let frus = match frac_us(fr) {
                Some(v) => v,
                None => {
                    return None;
                },
            };
            let total: u64 = (whole as u64) * 1000 + (frus as u64);
            if total > 0xFFFF_FFFF {
                return None;
            }
            Some(total as u32)
        },
    }
}

/// Microsecond value of the fractional digits of a millisecond reading.
fn frac_us(fr: &str) -> (r: Option<u32>)
    ensures
        match r {
            Some(v) => all_digits(fr@) && v == frac_us_of(fr@) && v <= 999,
            None => !all_digits(fr@),
        },
{
    let len = fr.unicode_len();
    let mut i: usize = 0;
    while i < len
        invariant
            0 <= i <= len,
            len == fr@.len(),
            all_digits(fr@.take(i as int)),
        decreases len - i,
    {
        let c = fr.get_char(i);
        if !('0' <= c && c <= '9') {
            assert(!all_digits(fr@));
            return None;
        }
        proof {
            assert forall|j: int| 0 <= j < i + 1 implies is_digit(
                #[trigger] fr@.take(i + 1)[j],
            ) by {
                if j < i {
                    assert(fr@.take(i + 1)[j] == fr@.take(i as int)[j]);
                }
            }
        }
        i = i + 1;
    }
    proof {
        assert(fr@.take(len as int) =~= fr@);
    }
    if len == 0 {
        return Some(0);
    }
    let d0: u32 = (fr.get_char(0) as u32) - 48;
    proof {
        assert(d0 == crate::text::digit_of(fr@[0]));
        assert(fr@.take(1).drop_last() =~= Seq::<char>::empty());
        assert(fr@.take(1).last() == fr@[0]);
        assert(digits_val(Seq::<char>::empty()) == 0);
        assert(digits_val(fr@.take(1)) == d0);
    }
    if len == 1 {
        proof {
            assert(fr@.take(1) =~= fr@);
        }
        return Some(d0 * 100);
    }
    let d1: u32 = (fr.get_char(1) as u32) - 48;
    proof {
        assert(d1 == crate::text::digit_of(fr@[1]));
        assert(fr@.take(2).drop_last() =~= fr@.take(1));
        assert(fr@.take(2).last() == fr@[1]);
        assert(digits_val(fr@.take(2)) == d0 * 10 + d1);
    }
    if len == 2 {
        proof {
            assert(fr@.take(2) =~= fr@);
        }
        return Some((d0 * 10 + d1) * 10);
    }
    let d2: u32 = (fr.get_char(2) as u32) - 48;
    proof {
        assert(d2 == crate::text::digit_of(fr@[2]));
        assert(fr@.take(3).drop_last() =~= fr@.take(2));
        assert(fr@.take(3).last() == fr@[2]);
        assert(digits_val(fr@.take(3)) == d0 * 100 + d1 * 10 + d2);
    }
    Some(d0 * 100 + d1 * 10 + d2)
}

// ------------------------------------------------------------------
// extracting readings from probe output
// ------------------------------------------------------------------

/// The reading that follows a marker at `idx`: five marker characters
/// are dropped, further `<` signs skipped, and the digit-and-dot run
/// read as milliseconds.
pub open spec fn rtt_after(line: Seq<char>, idx: int) -> Option<nat> {
    ms_text_us(num_run(skip_lt(line.skip(idx + 5))))
}

/// Position of the `=` marker, or failing that the `<` marker, with a
/// flag saying which was found.
pub open spec fn marker_at(line: Seq<char>, eq: Seq<char>, lt: Seq<char>) -> Option<(int, bool)> {
    match find_sub(line, eq) {
        Some(i) => Some((i, false)),
        None => match find_sub(line, lt) {
            Some(i) => Some((i, true)),
            None => None,
        },
    }
}

/// One language's reading on one line: a "less than one millisecond"
/// reading counts as half a millisecond; a reading too large for 32
/// bits of microseconds counts as no reading at all.
pub open spec fn lang_rtt(line: Seq<char>, eq: Seq<char>, lt: Seq<char>) -> Option<u32> {
    match marker_at(line, eq, lt) {
        None => None,
        Some((i, is_lt)) => match rtt_after(line, i) {
            Some(v) => if v <= 0xFFFF_FFFF {
                if is_lt && v == 1000 {
                    Some(500u32)
                } else {
                    Some(v as u32)
                }
            } else {
                None
            },
            None => None,
        },
    }
}

/// The German reading takes precedence on each line, then the English.
pub open spec fn line_rtt(line: Seq<char>) -> Option<u32> {
    match lang_rtt(line, "Zeit="@, "Zeit<"@) {
        Some(v) => Some(v),
        None => lang_rtt(line, "time="@, "time<"@),
    }
}

pub open spec fn lines_rtt(ls: Seq<Seq<char>>) -> Option<u32>
    decreases ls.len(),
{
    if ls.len() == 0 {
        None
    } else {
        match line_rtt(ls[0]) {
            Some(v) => Some(v),
            None => lines_rtt(ls.skip(1)),
        }
    }
}

/// The round-trip time reported in probe output: the first line with a
/// reading wins; failing all lines, a literal "less than one
/// millisecond" anywhere still counts as half a millisecond.
pub open spec fn extract_rtt_spec(out: Seq<char>) -> Option<u32> {
    match lines_rtt(lines_spec(out)) {
        Some(v) => Some(v),
        None => if contains_sub(out, "time<1ms"@) || contains_sub(out, "Zeit<1ms"@) {
            Some(500u32)
        } else {
            None
        },
    }
}

/// One language's reading on one line.
fn lang_rtt_exec(line: &str, eq: &str, lt: &str) -> (r: Option<u32>)
    requires
        eq@.len() == 5,
        lt@.len() == 5,
    ensures
        r == lang_rtt(line@, eq@, lt@),
{
    let found: Option<(usize, bool)> = match find_sub_in(line, eq) {
        Some(i) => Some((i, false)),
        None => match find_sub_in(line, lt) {
            Some(i) => Some((i, true)),
            None => None,
        },
    };
    match found {
        None => None,
        Some((i, is_lt)) => {
            proof {
                crate::text::lemma_find_sub_props(line@, eq@);
                crate::text::lemma_find_sub_props(line@, lt@);
            }
            let len = line.unicode_len();
            let rest = line.substring_char(i + 5, len);
            proof {
                assert(rest@ =~= line@.skip(i + 5));
            }
            let rl = rest.unicode_len();
            let mut a: usize = 0;
            while a < rl && rest.get_char(a) == '<'
                invariant
                    0 <= a <= rl,
                    rl == rest@.len(),
                    forall|j: int| 0 <= j < a ==> rest@[j] == '<',
                decreases rl - a,
            {
                a = a + 1;
            }
            proof {
                lemma_skip_lt_at(rest@, a as int);
            }
            let mut b: usize = a;
            while b < rl && is_digit_or_dot_ch(rest.get_char(b))
                invariant
                    a <= b <= rl,
                    rl == rest@.len(),
                    forall|j: int| a <= j < b ==> is_digit_or_dot(#[trigger] rest@[j]),
                decreases rl - b,
            {
                b = b + 1;
            }
            proof {
                assert forall|j: int| 0 <= j < b - a implies is_digit_or_dot(
                    #[trigger] rest@.skip(a as int)[j],
                ) by {
                    assert(rest@.skip(a as int)[j] == rest@[j + a]);
                }
                if b < rl {
                    assert(rest@.skip(a as int)[b - a] == rest@[b as int]);
                }
                lemma_num_run_at(rest@.skip(a as int), b - a);
            }
            let run = rest.substring_char(a, b);
            proof {
                assert(run@ =~= rest@.skip(a as int).take(b - a));
                assert(run@ == num_run(skip_lt(line@.skip(i + 5))));
            }
            match parse_ms_to_us(run) {
                Some(v) => if is_lt && v == 1000 {
                    Some(500)
                } else {
                    Some(v)
                },
                None => None,
            }
        },
    }
}

fn is_digit_or_dot_ch(c: char) -> (r: bool)
    ensures
        r == is_digit_or_dot(c),
{
    ('0' <= c && c <= '9') || c == '.'
}

/// The round-trip time reported in probe output, in microseconds.
pub fn extract_rtt(output: &str) -> (r: Option<u32>)
    ensures
        r == extract_rtt_spec(output@),
{
    let ls = split_lines(output);
    let ghost lv = lines_spec(output@);
    let n = ls.len();
    let mut k: usize = 0;
    proof {
        assert(lv.skip(0) =~= lv);
    }
    while k < n
        invariant
            0 <= k <= n,
            n == ls@.len(),
            views_of(ls@) == lv,
            lv == lines_spec(output@),
            lines_rtt(lv) == lines_rtt(lv.skip(k as int)),
        decreases n - k,
    {
        proof {
            reveal_strlit("Zeit=");
            reveal_strlit("Zeit<");
            reveal_strlit("time=");
            reveal_strlit("time<");
        }
        let here = match lang_rtt_exec(ls[k].as_str(), "Zeit=", "Zeit<") {
            Some(v) => Some(v),
            None => lang_rtt_exec(ls[k].as_str(), "time=", "time<"),
        };
        proof {
            assert(lv.skip(k as int)[0] == lv[k as int]);
            assert(lv[k as int] == ls@[k as int]@);
        }
        match here {
            Some(v) => {
                return Some(v);
            },
            None => {
                proof {
                    assert(lv.skip(k as int).skip(1) =~= lv.skip(k + 1));
                }
            },
        }
        k = k + 1;
    }
    proof {
        assert(lv.skip(n as int) =~= Seq::<Seq<char>>::empty());
    }
    if contains_str(output, "time<1ms") || contains_str(output, "Zeit<1ms") {
        Some(500)
    } else {
        None
    }
}

/// The longest prefix made of digits only.
pub open spec fn dig_run(s: Seq<char>) -> Seq<char>
    decreases s.len(),
{
    if s.len() > 0 && is_digit(s[0]) {
        seq![s[0]].add(dig_run(s.skip(1)))
    } else {
        Seq::<char>::empty()
    }
}

proof fn lemma_dig_run_at(s: Seq<char>, k: int)
    requires
        0 <= k <= s.len(),
        forall|j: int| 0 <= j < k ==> is_digit(#[trigger] s[j]),
        k < s.len() ==> !is_digit(s[k]),
    ensures
        dig_run(s) == s.take(k),
    decreases k,
{
    if k == 0 {
        assert(s.take(0) =~= Seq::<char>::empty());
    } else {
        assert forall|j: int| 0 <= j < k - 1 implies is_digit(#[trigger] s.skip(1)[j]) by {
            assert(s.skip(1)[j] == s[j + 1]);
        }
        if k < s.len() {
            assert(s.skip(1)[k - 1] == s[k]);
        }
        lemma_dig_run_at(s.skip(1), k - 1);
        assert(seq![s[0]].add(s.skip(1).take(k - 1)) =~= s.take(k));
    }
}

/// The hop limit on one line: the digits after the first `TTL=`, read
/// as a number of at most 255.
pub open spec fn line_ttl(line: Seq<char>) -> Option<u8> {
    match find_sub(line, "TTL="@) {
        None => None,
        Some(i) => match parse_uint(dig_run(line.skip(i + 4))) {
            Some(v) => if v <= 255 {
                Some(v as u8)
            } else {
                None
            },
            None => None,
        },
    }
}

pub open spec fn lines_ttl(ls: Seq<Seq<char>>) -> Option<u8>
    decreases ls.len(),
{
    if ls.len() == 0 {
        None
    } else {
        match line_ttl(ls[0]) {
            Some(v) => Some(v),
            None => lines_ttl(ls.skip(1)),
        }
    }
}

/// The hop limit reported in probe output.
pub open spec fn extract_ttl_spec(out: Seq<char>) -> Option<u8> {
    lines_ttl(lines_spec(out))
}

fn line_ttl_exec(line: &str) -> (r: Option<u8>)
    ensures
        r == line_ttl(line@),
{
    match find_sub_in(line, "TTL=") {
        None => None,
        Some(i) => {
            proof {
                reveal_strlit("TTL=");
                crate::text::lemma_find_sub_props(line@, "TTL="@);
            }
            let len = line.unicode_len();
            let rest = line.substring_char(i + 4, len);
            proof {
                assert(rest@ =~= line@.skip(i + 4));
            }
            let rl = rest.unicode_len();
            let mut b: usize = 0;
            while b < rl && is_digit_ch(rest.get_char(b))
                invariant
                    0 <= b <= rl,
                    rl == rest@.len(),
                    forall|j: int| 0 <= j < b ==> is_digit(#[trigger] rest@[j]),
                decreases rl - b,
            {
                b = b + 1;
            }
            proof {
                lemma_dig_run_at(rest@, b as int);
            }
            let run = rest.substring_char(0, b);
            proof {
                assert(run@ =~= rest@.take(b as int));
            }
            match parse_u32_upto(run, 255) {
                Some(v) => Some(v as u8),
                None => None,
            }
        },
    }
}

fn is_digit_ch(c: char) -> (r: bool)
    ensures
        r == is_digit(c),
{
    '0' <= c && c <= '9'
}

/// The hop limit reported in probe output.
pub fn extract_ttl(output: &str) -> (r: Option<u8>)
    ensures
        r == extract_ttl_spec(output@),
{
    let ls = split_lines(output);
    let ghost lv = lines_spec(output@);
    let n = ls.len();
    let mut k: usize = 0;
    proof {
        assert(lv.skip(0) =~= lv);
    }
    while k < n
        invariant
            0 <= k <= n,
            n == ls@.len(),
            views_of(ls@) == lv,
            lv == lines_spec(output@),
            lines_ttl(lv) == lines_ttl(lv.skip(k as int)),
        decreases n - k,
    {
        let here = line_ttl_exec(ls[k].as_str());
        proof {
            assert(lv.skip(k as int)[0] == lv[k as int]);
            assert(lv[k as int] == ls@[k as int]@);
        }
        match here {
            Some(v) => {
                return Some(v);
            },
            None => {
                proof {
                    assert(lv.skip(k as int).skip(1) =~= lv.skip(k + 1));
                }
            },
        }
        k = k + 1;
    }
    proof {
        assert(lv.skip(n as int) =~= Seq::<Seq<char>>::empty());
    }
    None
}

// ------------------------------------------------------------------
// classifying one probe
// ------------------------------------------------------------------

/// The status of one probe: online when the tool succeeded and its
/// output shows a reply, timeout on an explicit timeout message in
/// either language, otherwise offline.
pub open spec fn ping_status(exec_ok: bool, out: Seq<char>) -> Seq<char> {
    if exec_ok && (contains_sub(out, "TTL="@) || contains_sub(out, "Antwort von"@) || contains_sub(
        out,
        "Reply from"@,
    )) {
        "online"@
    } else if contains_sub(out, "Zeit\u{fc}berschreitung"@) || contains_sub(
        out,
        "Request timed out"@,
    ) || contains_sub(out, "100% Verlust"@) || contains_sub(out, "100% loss"@) {
        "timeout"@
    } else {
        "offline"@
    }
}

/// Classify one reachability probe from the tool's exit state and its
/// textual output.  No hostname is resolved here.
pub fn ping_outcome(ip: String, exec_ok: bool, output: &str) -> (r: PingResult)
    ensures
        r.ip == ip,
        r.hostname is None,
        r.status@ == ping_status(exec_ok, output@),
        r.rtt_us == extract_rtt_spec(output@),
        r.ttl == extract_ttl_spec(output@),
{
    let online = exec_ok && (contains_str(output, "TTL=") || contains_str(output, "Antwort von")
        || contains_str(output, "Reply from"));
    let timeout = contains_str(output, "Zeit\u{fc}berschreitung") || contains_str(
        output,
        "Request timed out",
    ) || contains_str(output, "100% Verlust") || contains_str(output, "100% loss");
    let status = if online {
        "online".to_owned()
    } else if timeout {
        "timeout".to_owned()
    } else {
        "offline".to_owned()
    };
    let rtt_us = extract_rtt(output);
    let ttl = extract_ttl(output);
    PingResult { ip, hostname: None, status, rtt_us, ttl }
}

// ------------------------------------------------------------------
// hostname and local-address output parsing
// ------------------------------------------------------------------

/// What follows the first colon on a line, trimmed, when there is one.
pub open spec fn after_colon(line: Seq<char>) -> Option<Seq<char>> {
    let parts = split_char_spec(line, ':');
    if parts.len() >= 2 {
        Some(trim_spec(parts[1]))
    } else {
        None
    }
}

pub open spec fn lines_hostname(ls: Seq<Seq<char>>) -> Option<Seq<char>>
    decreases ls.len(),
{
    if ls.len() == 0 {
        None
    } else if contains_sub(ls[0], "Name:"@) && after_colon(ls[0]) is Some {
        after_colon(ls[0])
    } else {
        lines_hostname(ls.skip(1))
    }
}

/// The host name in name-lookup output: what follows the colon on the
/// first line that names one.
pub open spec fn get_hostname_spec(out: Seq<char>) -> Option<Seq<char>> {
    lines_hostname(lines_spec(out))
}

/// Read the resolved name out of name-lookup output; the absence of a
/// name line is reported as an error, as the lookup tool's caller
/// expects.
pub fn get_hostname(output: &str) -> (r: Result<String, String>)
    ensures
        match get_hostname_spec(output@) {
            Some(n) => r matches Ok(s) && s@ == n,
            None => r matches Err(e) && e@ == "Hostname not found"@,
        },
{
    let ls = split_lines(output);
    let ghost lv = lines_spec(output@);
    let n = ls.len();
    let mut k: usize = 0;
    proof {
        assert(lv.skip(0) =~= lv);
    }
    while k < n
        invariant
            0 <= k <= n,
            n == ls@.len(),
            views_of(ls@) == lv,
            lv == lines_spec(output@),
            lines_hostname(lv) == lines_hostname(lv.skip(k as int)),
        decreases n - k,
    {
        proof {
            assert(lv.skip(k as int)[0] == lv[k as int]);
            assert(lv[k as int] == ls@[k as int]@);
        }
        if contains_str(ls[k].as_str(), "Name:") {
            let parts = split_char_str(ls[k].as_str(), ':');
            if parts.len() >= 2 {
                let name = trim_str(parts[1].as_str());
                proof {
                    assert(parts@[1]@ == split_char_spec(lv[k as int], ':')[1]);
                }
                return Ok(name);
            }
        }
        proof {
            assert(lv.skip(k as int).skip(1) =~= lv.skip(k + 1));
        }
        k = k + 1;
    }
    proof {
        assert(lv.skip(n as int) =~= Seq::<Seq<char>>::empty());
    }
    Err("Hostname not found".to_owned())
}

pub open spec fn lines_local_ip(ls: Seq<Seq<char>>) -> Option<Seq<char>>
    decreases ls.len(),
{
    if ls.len() == 0 {
        None
    } else if contains_sub(ls[0], "IPv4"@) && contains_sub(ls[0], ":"@) && after_colon(ls[0])
        is Some && !starts_with_spec(after_colon(ls[0]).unwrap(), "127."@) {
        after_colon(ls[0])
    } else {
        lines_local_ip(ls.skip(1))
    }
}

/// The machine's own address in interface-listing output: what follows
/// the colon on the first address line that is not a loopback address.
pub open spec fn local_ip_spec(out: Seq<char>) -> Option<Seq<char>> {
    lines_local_ip(lines_spec(out))
}

/// Read the local address out of interface-listing output.
pub fn parse_local_ip(output: &str) -> (r: Result<String, String>)
    ensures
        match local_ip_spec(output@) {
            Some(n) => r matches Ok(s) && s@ == n,
            None => r matches Err(e) && e@ == "Could not determine local IP address"@,
        },
{
    let ls = split_lines(output);
    let ghost lv = lines_spec(output@);
    let n = ls.len();
    let mut k: usize = 0;
    proof {
        assert(lv.skip(0) =~= lv);
    }
    while k < n
        invariant
            0 <= k <= n,
            n == ls@.len(),
            views_of(ls@) == lv,
            lv == lines_spec(output@),
            lines_local_ip(lv) == lines_local_ip(lv.skip(k as int)),
        decreases n - k,
    {
        proof {
            assert(lv.skip(k as int)[0] == lv[k as int]);
            assert(lv[k as int] == ls@[k as int]@);
        }
        if contains_str(ls[k].as_str(), "IPv4") && contains_str(ls[k].as_str(), ":") {
            let parts = split_char_str(ls[k].as_str(), ':');
            if parts.len() >= 2 {
                let ip = trim_str(parts[1].as_str());
                proof {
                    assert(parts@[1]@ == split_char_spec(lv[k as int], ':')[1]);
                }
                if !starts_with_str(ip.as_str(), "127.") {
                    return Ok(ip);
                }
            }
        }
        proof {
            assert(lv.skip(k as int).skip(1) =~= lv.skip(k + 1));
        }
        k = k + 1;
    }
    proof {
        assert(lv.skip(n as int) =~= Seq::<Seq<char>>::empty());
    }
    Err("Could not determine local IP address".to_owned())
}

// ------------------------------------------------------------------
// deterministic ordering of sweep results
// ------------------------------------------------------------------

/// Fold the numeric pieces of a dotted string into one ordering key:
/// each piece that reads as a 32-bit number shifts the accumulator one
/// byte and ors itself in; other pieces are skipped.
pub open spec fn ip_key_fold(parts: Seq<Seq<char>>, acc: u32) -> u32
    decreases parts.len(),
{
    if parts.len() == 0 {
        acc
    } else {
        match parse_uint(parts[0]) {
            Some(v) => if v <= 0xFFFF_FFFF {
                ip_key_fold(parts.skip(1), (acc << 8u32) | (v as u32))
            } else {
                ip_key_fold(parts.skip(1), acc)
            },
            None => ip_key_fold(parts.skip(1), acc),
        }
    }
}

/// The ordering key of one probed address.
pub open spec fn ip_key(s: Seq<char>) -> u32 {
    ip_key_fold(split_char_spec(s, '.'), 0u32)
}

/// The ordering key of one probed address: for a dotted quad this is
/// its numeric value.
pub fn ip_sort_key(s: &str) -> (r: u32)
    ensures
        r == ip_key(s@),
{
    let parts = split_char_str(s, '.');
    let ghost pv = split_char_spec(s@, '.');
    let n = parts.len();
    let mut acc: u32 = 0;
    let mut i: usize = 0;
    proof {
        assert(pv.skip(0) =~= pv);
    }
    while i < n
        invariant
            0 <= i <= n,
            n == parts@.len(),
            views_of(parts@) == pv,
            ip_key_fold(pv, 0u32) == ip_key_fold(pv.skip(i as int), acc),
        decreases n - i,
    {
        proof {
            assert(pv.skip(i as int)[0] == pv[i as int]);
            assert(pv[i as int] == parts@[i as int]@);
            assert(pv.skip(i as int).skip(1) =~= pv.skip(i + 1));
        }
        match parse_u32_upto(parts[i].as_str(), 0xFFFF_FFFF) {
            Some(v) => {
                acc = (acc << 8u32) | v;
            },
            None => {},
        }
        i = i + 1;
    }
    proof {
        assert(pv.skip(n as int) =~= Seq::<Seq<char>>::empty());
    }
    acc
}

pub open spec fn key_of(p: PingResult) -> u32 {
    ip_key(p.ip@)
}

/// Nondecreasing by address key.
pub open spec fn sorted_by_ip(s: Seq<PingResult>) -> bool {
    forall|i: int, j: int| 0 <= i <= j < s.len() ==> key_of(s[i]) <= key_of(s[j])
}

/// Insert before the first strictly larger key, keeping equal keys in
/// arrival order.
pub open spec fn insert_by_ip(x: PingResult, s: Seq<PingResult>) -> Seq<PingResult>
    decreases s.len(),
{
    if s.len() == 0 {
        seq![x]
    } else if key_of(x) <= key_of(s[0]) {
        seq![x].add(s)
    } else {
        seq![s[0]].add(insert_by_ip(x, s.skip(1)))
    }
}

/// Stable insertion sort by address key.
pub open spec fn sort_by_ip(s: Seq<PingResult>) -> Seq<PingResult>
    decreases s.len(),
{
    if s.len() == 0 {
        s
    } else {
        insert_by_ip(s[0], sort_by_ip(s.skip(1)))
    }
}

pub proof fn lemma_insert_by_ip(x: PingResult, s: Seq<PingResult>)
    requires
        sorted_by_ip(s),
    ensures
        sorted_by_ip(insert_by_ip(x, s)),
        insert_by_ip(x, s).to_multiset() == s.to_multiset().insert(x),
        insert_by_ip(x, s).len() == s.len() + 1,
        forall|j: int|
            0 <= j < insert_by_ip(x, s).len() ==> insert_by_ip(x, s)[j] == x || s.contains(
                #[trigger] insert_by_ip(x, s)[j],
            ),
    decreases s.len(),
{
    broadcast use vstd::seq_lib::group_to_multiset_ensures;

    let r = insert_by_ip(x, s);
    if s.len() == 0 {
        assert(seq![x] =~= Seq::<PingResult>::empty().push(x));
        assert(r.to_multiset() =~= s.to_multiset().insert(x));
    } else if key_of(x) <= key_of(s[0]) {
        vstd::seq_lib::lemma_multiset_commutative(seq![x], s);
        assert(seq![x].to_multiset() =~= Multiset::<PingResult>::empty().insert(x));
        assert(r.to_multiset() =~= s.to_multiset().insert(x));
        assert forall|i: int, j: int| 0 <= i <= j < r.len() implies key_of(r[i]) <= key_of(
            r[j],
        ) by {
            if i == 0 && j > 0 {
                assert(r[j] == s[j - 1]);
                assert(key_of(s[0]) <= key_of(s[j - 1]));
            } else if i > 0 {
                assert(r[i] == s[i - 1] && r[j] == s[j - 1]);
            }
        }
        assert forall|j: int| 0 <= j < r.len() implies r[j] == x || s.contains(
            #[trigger] r[j],
        ) by {
            if j > 0 {
                assert(r[j] == s[j - 1]);
            }
        }
    } else {
        let tail = s.skip(1);
        assert forall|i: int, j: int| 0 <= i <= j < tail.len() implies key_of(tail[i]) <= key_of(
            tail[j],
        ) by {
            assert(tail[i] == s[i + 1] && tail[j] == s[j + 1]);
        }
        lemma_insert_by_ip(x, tail);
        let rec = insert_by_ip(x, tail);
        vstd::seq_lib::lemma_multiset_commutative(seq![s[0]], rec);
        assert(seq![s[0]].to_multiset() =~= Multiset::<PingResult>::empty().insert(s[0]));
        assert(s =~= seq![s[0]].add(tail));
        vstd::seq_lib::lemma_multiset_commutative(seq![s[0]], tail);
        assert(r.to_multiset() =~= s.to_multiset().insert(x));
        assert forall|i: int, j: int| 0 <= i <= j < r.len() implies key_of(r[i]) <= key_of(
            r[j],
        ) by {
            if i == 0 && j > 0 {
                assert(r[j] == rec[j - 1]);
                assert(rec[j - 1] == x || tail.contains(rec[j - 1]));
                if rec[j - 1] == x {
                    assert(key_of(s[0]) <= key_of(x));
                } else {
                    let w = choose|w: int| 0 <= w < tail.len() && tail[w] == rec[j - 1];
                    assert(key_of(s[0]) <= key_of(s[w + 1]));
                }
            } else if i > 0 {
                assert(r[i] == rec[i - 1] && r[j] == rec[j - 1]);
            }
        }
        assert forall|j: int| 0 <= j < r.len() implies r[j] == x || s.contains(
            #[trigger] r[j],
        ) by {
            if j > 0 {
                assert(r[j] == rec[j - 1]);
                if rec[j - 1] != x {
                    let w = choose|w: int| 0 <= w < tail.len() && tail[w] == rec[j - 1];
                    assert(s[w + 1] == rec[j - 1]);
                }
            } else {
                assert(r[0] == s[0]);
            }
        }
    }
}

/// LAW: sorting a sweep's results permutes them into nondecreasing
/// order of the probed address's numeric key, whatever order the
/// probes completed in.
pub proof fn lemma_sort_by_ip(s: Seq<PingResult>)
    ensures
        sorted_by_ip(sort_by_ip(s)),
        sort_by_ip(s).to_multiset() == s.to_multiset(),
        sort_by_ip(s).len() == s.len(),
    decreases s.len(),
{
    broadcast use vstd::seq_lib::group_to_multiset_ensures;

    if s.len() > 0 {
        lemma_sort_by_ip(s.skip(1));
        lemma_insert_by_ip(s[0], sort_by_ip(s.skip(1)));
        assert(s =~= seq![s[0]].add(s.skip(1)));
        vstd::seq_lib::lemma_multiset_commutative(seq![s[0]], s.skip(1));
        assert(seq![s[0]].to_multiset() =~= Multiset::<PingResult>::empty().insert(s[0]));
        assert(sort_by_ip(s).to_multiset() =~= s.to_multiset());
    }
}

fn insert_ping(x: PingResult, v: Vec<PingResult>) -> (r: Vec<PingResult>)
    ensures
        r@ == insert_by_ip(x, v@),
    decreases v@.len(),
{
    if v.len() == 0 {
        let mut r: Vec<PingResult> = Vec::new();
        r.push(x);
        proof {
            assert(r@ =~= insert_by_ip(x, v@));
        }
        r
    } else if ip_sort_key(x.ip.as_str()) <= ip_sort_key(v[0].ip.as_str()) {
        let mut r = v;
        r.insert(0, x);
        proof {
            assert(r@ =~= insert_by_ip(x, r@.skip(1)));
        }
        r
    } else {
        let ghost v0 = v@;
        let mut rest = v;
        let first = rest.remove(0);
        proof {
            assert(rest@ =~= v0.skip(1));
        }
        let sub = insert_ping(x, rest);
        let mut r = sub;
        r.insert(0, first);
        proof {
            assert(r@ =~= insert_by_ip(x, v0));
        }
        r
    }
}

/// Sort sweep results by address key, ascending.
pub fn sort_pings(v: Vec<PingResult>) -> (r: Vec<PingResult>)
    ensures
        r@ == sort_by_ip(v@),
    decreases v@.len(),
{
    if v.len() == 0 {
        v
    } else {
        let ghost v0 = v@;
        let mut rest = v;
        let first = rest.remove(0);
        proof {
            assert(rest@ =~= v0.skip(1));
        }
        let sorted_rest = sort_pings(rest);
        let r = insert_ping(first, sorted_rest);
        r
    }
}

/// The results kept for reporting: all of them, or only the online
/// ones when the caller asked for responders alone.
pub open spec fn keep_results(s: Seq<PingResult>, only_responding: bool) -> Seq<PingResult>
    decreases s.len(),
{
    if s.len() == 0 {
        s
    } else {
        keep_results(s.drop_last(), only_responding).add(
            if !only_responding || s.last().status@ == "online"@ {
                seq![s.last()]
            } else {
                Seq::<PingResult>::empty()
            },
        )
    }
}

/// How many results are online.
pub open spec fn count_online(s: Seq<PingResult>) -> int
    decreases s.len(),
{
    if s.len() == 0 {
        0
    } else {
        count_online(s.drop_last()) + (if s.last().status@ == "online"@ {
            1int
        } else {
            0
        })
    }
}

/// Collect a sweep: keep the requested results, order them by the
/// probed address's numeric value ascending — independent of the order
/// in which the probes completed — and count the responders.
pub fn assemble_scan_result(
    results: Vec<PingResult>,
    total_hosts: usize,
    only_responding: bool,
    duration_ms: u64,
) -> (r: ScanResult)
    ensures
        r.results@ == sort_by_ip(keep_results(results@, only_responding)),
        sorted_by_ip(r.results@),
        r.results@.to_multiset() == keep_results(results@, only_responding).to_multiset(),
        r.total_hosts == total_hosts,
        r.duration_ms == duration_ms,
        r.responding_hosts == count_online(r.results@),
{
    let ghost rv = results@;
    let n = results.len();
    let mut remaining = results;
    let mut kept: Vec<PingResult> = Vec::new();
    let mut i: usize = 0;
    proof {
        assert(kept@ =~= keep_results(rv.take(0), only_responding));
        assert(remaining@ =~= rv.skip(0));
    }
    while i < n
        invariant
            0 <= i <= n,
            n == rv.len(),
            remaining@ == rv.skip(i as int),
            kept@ == keep_results(rv.take(i as int), only_responding),
        decreases n - i,
    {
        let item = remaining.remove(0);
        proof {
            assert(rv.skip(i as int)[0] == rv[i as int]);
            assert(rv.skip(i as int).remove(0) =~= rv.skip(i + 1));
        }
        let keep = if only_responding {
            str_eq_str(item.status.as_str(), "online")
        } else {
            true
        };
        if keep {
            kept.push(item);
        }
        proof {
            assert(rv.take(i + 1).drop_last() =~= rv.take(i as int));
            assert(rv.take(i + 1).last() == rv[i as int]);
            assert(kept@ =~= keep_results(rv.take(i + 1), only_responding));
        }
        i = i + 1;
    }
    proof {
        assert(rv.take(n as int) =~= rv);
    }
    let sorted = sort_pings(kept);
    proof {
        lemma_sort_by_ip(keep_results(rv, only_responding));
    }
    let m = sorted.len();
    let mut responding: usize = 0;
    let mut j: usize = 0;
    proof {
        assert(sorted@.take(0) =~= Seq::<PingResult>::empty());
    }
    while j < m
        invariant
            0 <= j <= m,
            m == sorted@.len(),
            0 <= responding <= j,
            responding == count_online(sorted@.take(j as int)),
        decreases m - j,
    {
        proof {
            assert(sorted@.take(j + 1).drop_last() =~= sorted@.take(j as int));
            assert(sorted@.take(j + 1).last() == sorted@[j as int]);
        }
        if str_eq_str(sorted[j].status.as_str(), "online") {
            responding = responding + 1;
        }
        j = j + 1;
    }
    proof {
        assert(sorted@.take(m as int) =~= sorted@);
    }
    ScanResult { results: sorted, total_hosts, responding_hosts: responding, duration_ms }
}

} // verus!
