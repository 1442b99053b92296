//! Target expansion: a user-supplied target (single host, dash range or
//! CIDR block) becomes a bounded list of address strings.
//!
//! A CIDR block is parsed by the `ipnetwork` crate behind a trusted
//! wrapper; everything after the parse — network address, block size,
//! capping, and rendering — is verified here.

use vstd::prelude::*;
use vstd::arithmetic::power2::pow2;
use vstd::string::StrSliceExecFns;
use vstd::string::StringExecFns;
use crate::text::{
    all_digits, contains_str, contains_sub, dec_str, digit_of, digits_val, find_char, is_digit, parse_u32_upto,
    parse_uint, split_char_spec, split_char_str, trim_spec, trim_str, u64_to_dec, views_of,
};

verus! {

/// The hard cap on how many addresses one target may expand to.
pub const EXPAND_CAP: usize = 256;

// ------------------------------------------------------------------
// dotted-quad addresses
// ------------------------------------------------------------------

/// One octet as the standard library's address parser accepts it:
/// one to three digits, no leading zero, value at most 255.
pub open spec fn strict_octet(s: Seq<char>) -> bool {
    1 <= s.len() <= 3 && all_digits(s) && (s.len() > 1 ==> s[0] != '0') && digits_val(s) <= 255
}

/// What `Ipv4Addr::from_str` accepts: four strict octets joined by dots.
pub open spec fn parse_ipv4_spec(s: Seq<char>) -> Option<u32> {
    let p = split_char_spec(s, '.');
    if p.len() == 4 && strict_octet(p[0]) && strict_octet(p[1]) && strict_octet(p[2])
        && strict_octet(p[3]) {
        Some(
            (digits_val(p[0]) * 0x1000000 + digits_val(p[1]) * 0x10000 + digits_val(p[2]) * 0x100
                + digits_val(p[3])) as u32,
        )
    } else {
        None
    }
}

/// The canonical text of an address value.
pub open spec fn ipv4_str(ip: u32) -> Seq<char> {
    dec_str(((ip >> 24u32) & 0xFF) as nat).add(seq!['.']).add(
        dec_str(((ip >> 16u32) & 0xFF) as nat),
    ).add(seq!['.']).add(dec_str(((ip >> 8u32) & 0xFF) as nat)).add(seq!['.']).add(
        dec_str((ip & 0xFF) as nat),
    )
}

/// Render an address value as a dotted quad.
pub fn format_ipv4(ip: u32) -> (r: String)
    ensures
        r@ == ipv4_str(ip),
{
    proof {
        reveal_strlit(".");
    }
    let mut s = u64_to_dec(((ip >> 24u32) & 0xFF) as u64);
    s.append(".");
    let o1 = u64_to_dec(((ip >> 16u32) & 0xFF) as u64);
    s.append(o1.as_str());
    s.append(".");
    let o2 = u64_to_dec(((ip >> 8u32) & 0xFF) as u64);
    s.append(o2.as_str());
    s.append(".");
    let o3 = u64_to_dec((ip & 0xFF) as u64);
    s.append(o3.as_str());
    s
}

/// Parse one strict octet.
fn parse_octet(s: &str) -> (r: Option<u8>)
    ensures
        r == (if strict_octet(s@) {
            Some(digits_val(s@) as u8)
        } else {
            None::<u8>
        }),
{
    let len = s.unicode_len();
    if len < 1 || len > 3 {
        return None;
    }
    let mut val: u32 = 0;
    let mut i: usize = 0;
    while i < len
        invariant
            0 <= i <= len <= 3,
            len == s@.len(),
            all_digits(s@.take(i as int)),
            val == digits_val(s@.take(i as int)),
            i == 0 ==> val == 0,
            i == 1 ==> val <= 9,
            i == 2 ==> val <= 99,
            val <= 999,
        decreases len - i,
    {
        let c = s.get_char(i);
        if !('0' <= c && c <= '9') {
            assert(!all_digits(s@));
            return None;
        }
        proof {
            assert(s@.take(i + 1).drop_last() =~= s@.take(i as int));
            assert(s@.take(i + 1).last() == s@[i as int]);
            assert((c as u32) - 48 == digit_of(c));
            assert forall|j: int| 0 <= j < i + 1 implies is_digit(#[trigger] s@.take(i + 1)[j]) by {
                if j < i {
                    assert(s@.take(i + 1)[j] == s@.take(i as int)[j]);
                }
            }
        }
        val = val * 10 + ((c as u32) - 48);
        i = i + 1;
    }
    proof {
        assert(s@.take(len as int) =~= s@);
    }
    if len > 1 && s.get_char(0) == '0' {
        return None;
    }
    if val > 255 {
        return None;
    }
    Some(val as u8)
}

/// Parse a dotted-quad address to its 32-bit value.
pub fn parse_ipv4(s: &str) -> (r: Option<u32>)
    ensures
        r == parse_ipv4_spec(s@),
{
    let parts = split_char_str(s, '.');
    let ghost p = split_char_spec(s@, '.');
    if parts.len() != 4 {
        return None;
    }
    assert(parts@[0]@ == p[0] && parts@[1]@ == p[1] && parts@[2]@ == p[2] && parts@[3]@ == p[3]);
    let a = match parse_octet(parts[0].as_str()) {
        Some(v) => v,
        None => {
            return None;
        },
    };
    let b = match parse_octet(parts[1].as_str()) {
        Some(v) => v,
        None => {
            return None;
        },
    };
    let c = match parse_octet(parts[2].as_str()) {
        Some(v) => v,
        None => {
            return None;
        },
    };
    let d = match parse_octet(parts[3].as_str()) {
        Some(v) => v,
        None => {
            return None;
        },
    };
    let v: u32 = ((a as u32) << 24u32) | ((b as u32) << 16u32) | ((c as u32) << 8u32) | (d as u32);
    proof {
        assert(((a as u32) << 24u32) | ((b as u32) << 16u32) | ((c as u32) << 8u32) | (d as u32)
            == (a as u32) * 0x1000000 + (b as u32) * 0x10000 + (c as u32) * 0x100
            + (d as u32)) by (bit_vector);
    }
    Some(v)
}

// ------------------------------------------------------------------
// CIDR notation, through ipnetwork
// ------------------------------------------------------------------

/// The network mask of a prefix length.
pub open spec fn mask_of_prefix(p: u8) -> u32
    recommends
        p <= 32,
{
    if p == 0 {
        0u32
    } else {
        (0xFFFF_FFFFu32 << ((32 - p) as u32)) as u32
    }
}

/// The prefix length of a contiguous netmask, if the mask is contiguous.
pub open spec fn netmask_prefix(m: u32) -> Option<u8> {
    if exists|p: u8| p <= 32 && m == mask_of_prefix(p) {
        Some(choose|p: u8| p <= 32 && m == mask_of_prefix(p))
    } else {
        None
    }
}

/// What `ipnetwork::Ipv4Network::from_str` accepts: a strict dotted-quad
/// address, optionally followed by a single `/` and either a contiguous
/// dotted-quad netmask or a decimal prefix of at most 32 (the prefix is
/// read leniently, as `str::parse::<u8>` reads it); a missing prefix
/// means 32.
pub open spec fn parse_cidr_spec(s: Seq<char>) -> Option<(u32, u8)> {
    match find_char(s, '/') {
        None => match parse_ipv4_spec(s) {
            Some(a) => Some((a, 32u8)),
            None => None,
        },
        Some(i) => {
            let addr = s.take(i);
            let rest = s.skip(i + 1);
            if find_char(rest, '/') is Some {
                None
            } else {
                match parse_ipv4_spec(addr) {
                    None => None,
                    Some(a) => match parse_ipv4_spec(rest) {
                        Some(m) => match netmask_prefix(m) {
                            Some(p) => Some((a, p)),
                            None => None,
                        },
                        None => match parse_uint(rest) {
                            Some(v) => if v <= 32 {
                                Some((a, v as u8))
                            } else {
                                None
                            },
                            None => None,
                        },
                    },
                }
            }
        },
    }
}

/// Relies on `ipnetwork::Ipv4Network::from_str` (ipnetwork 0.21): it splits
/// at the single allowed `/`, parses the address with `Ipv4Addr::from_str`,
/// reads the prefix as a contiguous netmask or a decimal number of at most
/// 32 (32 when absent), and keeps the given address unmasked.
#[verifier::external_body]
pub(crate) fn parse_cidr(s: &str) -> (r: Option<(u32, u8)>)
    ensures
        r == parse_cidr_spec(s@),
{
    match s.parse::<ipnetwork::Ipv4Network>() {
        Ok(net) => Some((u32::from(net.ip()), net.prefix())),
        Err(_) => None,
    }
}

// ------------------------------------------------------------------
// expansion
// ------------------------------------------------------------------

/// Addition on address values that stays within 32 bits.
pub open spec fn add32(a: u32, i: int) -> u32 {
    ((a as int + i) % 0x1_0000_0000) as u32
}

/// The dotted-quad texts of `count` consecutive addresses from `start`.
pub open spec fn ip_range_strs(start: u32, count: nat) -> Seq<Seq<char>> {
    Seq::new(count, |i: int| ipv4_str(add32(start, i)))
}

/// Number of addresses in a block of the given prefix length.
pub open spec fn block_size(p: u8) -> nat
    recommends
        p <= 32,
{
    pow2((32 - p) as nat)
}

/// How many addresses a block yields once the cap is applied.
pub open spec fn capped_block_size(p: u8) -> nat
    recommends
        p <= 32,
{
    if block_size(p) <= 256 {
        block_size(p)
    } else {
        256
    }
}

/// The number of addresses that the cap admits, computed without
/// overflow: every prefix of 24 or less is capped.
fn capped_count(p: u8) -> (r: usize)
    requires
        p <= 32,
    ensures
        r == capped_block_size(p),
        1 <= r <= 256,
{
    proof {
        vstd::arithmetic::power2::lemma2_to64();
        if p < 24 {
            vstd::arithmetic::power2::lemma_pow2_strictly_increases(8, (32 - p) as nat);
        }
    }
    if p >= 32 {
        1
    } else if p == 31 {
        2
    } else if p == 30 {
        4
    } else if p == 29 {
        8
    } else if p == 28 {
        16
    } else if p == 27 {
        32
    } else if p == 26 {
        64
    } else if p == 25 {
        128
    } else {
        EXPAND_CAP
    }
}

/// Last index of `c` in `s`, if any.
pub open spec fn rfind_char(s: Seq<char>, c: char) -> Option<int>
    decreases s.len(),
{
    if s.len() == 0 {
        None
    } else if s.last() == c {
        Some(s.len() - 1)
    } else {
        rfind_char(s.drop_last(), c)
    }
}

pub proof fn lemma_rfind_char_at(s: Seq<char>, c: char, i: int)
    requires
        0 <= i < s.len(),
        s[i] == c,
        forall|j: int| i < j < s.len() ==> s[j] != c,
    ensures
        rfind_char(s, c) == Some(i),
    decreases s.len(),
{
    if i == s.len() - 1 {
    } else {
        assert(s.drop_last()[i] == s[i]);
        assert forall|j: int| i < j < s.drop_last().len() implies s.drop_last()[j] != c by {
            assert(s.drop_last()[j] == s[j]);
        }
        lemma_rfind_char_at(s.drop_last(), c, i);
    }
}

pub proof fn lemma_rfind_char_none(s: Seq<char>, c: char)
    requires
        forall|j: int| 0 <= j < s.len() ==> s[j] != c,
    ensures
        rfind_char(s, c) is None,
    decreases s.len(),
{
    if s.len() == 0 {
    } else {
        assert forall|j: int| 0 <= j < s.drop_last().len() implies s.drop_last()[j] != c by {
            assert(s.drop_last()[j] == s[j]);
        }
        lemma_rfind_char_none(s.drop_last(), c);
    }
}

/// Last index of `c` in `s`, if any.
pub fn rfind_char_in(s: &str, c: char) -> (r: Option<usize>)
    ensures
        match r {
            Some(k) => rfind_char(s@, c) == Some(k as int),
            None => rfind_char(s@, c) is None,
        },
{
    let len = s.unicode_len();
    let mut i: usize = len;
    while i > 0
        invariant
            0 <= i <= len,
            len == s@.len(),
            forall|j: int| i <= j < len ==> s@[j] != c,
        decreases i,
    {
        i = i - 1;
        if s.get_char(i) == c {
            proof {
                lemma_rfind_char_at(s@, c, i as int);
            }
            return Some(i);
        }
    }
    proof {
        lemma_rfind_char_none(s@, c);
    }
    None
}

/// The texts of a short-form range: the shared prefix (dot included)
/// followed by each final octet from `s0` to `e0` inclusive.
pub open spec fn short_range_strs(pre: Seq<char>, s0: u8, e0: u8) -> Seq<Seq<char>> {
    Seq::new(
        if s0 <= e0 {
            (e0 - s0 + 1) as nat
        } else {
            0
        },
        |i: int| pre.add(dec_str((s0 + i) as nat)),
    )
}

/// What one trimmed target expands to.
///
/// A `/` means a CIDR block: all its addresses in ascending order, the
/// first 256 only for a larger block, none when the block does not parse.
/// Otherwise a `-` means a range: the short form keeps everything up to
/// the last dot of the left side and runs over final octets; the full
/// form runs over whole addresses, capped at 256, and yields nothing
/// when the range is reversed or either side does not parse.  Anything
/// else is a single host, passed through unchanged.
pub open spec fn expand_spec(input: Seq<char>) -> Seq<Seq<char>> {
    let t = trim_spec(input);
    if contains_sub(t, seq!['/']) {
        match parse_cidr_spec(t) {
            None => Seq::<Seq<char>>::empty(),
            Some((a, p)) => ip_range_strs(a & mask_of_prefix(p), capped_block_size(p)),
        }
    } else if contains_sub(t, seq!['-']) {
        let parts = split_char_spec(t, '-');
        if parts.len() != 2 {
            Seq::<Seq<char>>::empty()
        } else {
            let st = trim_spec(parts[0]);
            let en = trim_spec(parts[1]);
            if !contains_sub(en, seq!['.']) {
                match rfind_char(st, '.') {
                    None => Seq::<Seq<char>>::empty(),
                    Some(d) => match (parse_uint(st.skip(d + 1)), parse_uint(en)) {
                        (Some(s0), Some(e0)) => if s0 <= 255 && e0 <= 255 {
                            short_range_strs(st.take(d + 1), s0 as u8, e0 as u8)
                        } else {
                            Seq::<Seq<char>>::empty()
                        },
                        _ => Seq::<Seq<char>>::empty(),
                    },
                }
            } else {
                match (parse_ipv4_spec(st), parse_ipv4_spec(en)) {
                    (Some(s0), Some(e0)) => if s0 <= e0 {
                        ip_range_strs(
                            s0,
                            if e0 - s0 + 1 <= 256 {
                                (e0 - s0 + 1) as nat
                            } else {
                                256
                            },
                        )
                    } else {
                        Seq::<Seq<char>>::empty()
                    },
                    _ => Seq::<Seq<char>>::empty(),
                }
            }
        }
    } else {
        seq![t]
    }
}

/// Push `count` consecutive addresses starting at `start`.
fn push_ip_range(out: &mut Vec<String>, start: u32, count: usize)
    requires
        count <= 0x1_0000_0000,
        old(out)@.len() == 0,
    ensures
        views_of(final(out)@) == ip_range_strs(start, count as nat),
{
    let mut i: usize = 0;
    while i < count
        invariant
            0 <= i <= count <= 0x1_0000_0000,
            views_of(out@) =~= ip_range_strs(start, i as nat),
        decreases count - i,
    {
        let ghost out0 = out@;
        let addr64: u64 = ((start as u64) + (i as u64)) % 0x1_0000_0000;
        let addr: u32 = addr64 as u32;
        proof {
            assert(addr64 == (start as int + i as int) % 0x1_0000_0000);
            assert(0 <= addr64 < 0x1_0000_0000);
            assert(addr == add32(start, i as int));
        }
        let piece = format_ipv4(addr);
        out.push(piece);
        proof {
            assert(out@ == out0.push(piece));
            assert(views_of(out0).len() == out0.len());
            assert(out0.len() == i);
            assert forall|j: int| 0 <= j < i + 1 implies views_of(out@)[j] == ip_range_strs(
                start,
                (i + 1) as nat,
            )[j] by {
                if j < i {
                    assert(out@[j] == out0[j]);
                    assert(views_of(out0)[j] == ip_range_strs(start, i as nat)[j]);
                } else {
                    assert(out@[j] == piece);
                }
            }
            assert(views_of(out@) =~~= ip_range_strs(start, (i + 1) as nat));
        }
        i = i + 1;
    }
    proof {
        assert(views_of(out@) =~~= ip_range_strs(start, count as nat));
    }
}

/// Expand one target (single host, dash range, or CIDR block) into a
/// bounded, ascending list of address strings; malformed input yields
/// an empty list, never an error.
pub fn expand_targets(target: &str) -> (r: Vec<String>)
    ensures
        views_of(r@) == expand_spec(target@),
{
    proof {
        reveal_strlit("/");
        reveal_strlit("-");
        reveal_strlit(".");
        assert("/"@ =~= seq!['/']);
        assert("-"@ =~= seq!['-']);
        assert("."@ =~= seq!['.']);
    }
    let trimmed = trim_str(target);
    let t = trimmed.as_str();
    let mut out: Vec<String> = Vec::new();
    proof {
        assert(views_of(out@) =~= Seq::<Seq<char>>::empty());
    }
    if contains_str(t, "/") {
        match parse_cidr(t) {
            None => out,
            Some((a, p)) => {
                assert(p <= 32);
                let mask: u32 = if p == 0 {
                    0
                } else {
                    0xFFFF_FFFFu32 << ((32 - p) as u32)
                };
                let net: u32 = a & mask;
                let count = capped_count(p);
                push_ip_range(&mut out, net, count);
                out
            },
        }
    } else if contains_str(t, "-") {
        let parts = split_char_str(t, '-');
        if parts.len() != 2 {
            return out;
        }
        let st = trim_str(parts[0].as_str());
        let en = trim_str(parts[1].as_str());
        if !contains_str(en.as_str(), ".") {
            match rfind_char_in(st.as_str(), '.') {
                None => out,
                Some(d) => {
                    proof {
                        lemma_rfind_char_props(st@, '.');
                    }
                    let stlen = st.as_str().unicode_len();
                    let tailnum = st.as_str().substring_char(d + 1, stlen);
                    proof {
                        assert(tailnum@ =~= st@.skip(d + 1));
                    }
                    let s0 = match parse_u32_upto(tailnum, 255) {
                        Some(v) => v as u8,
                        None => {
                            return out;
                        },
                    };
                    let e0 = match parse_u32_upto(en.as_str(), 255) {
                        Some(v) => v as u8,
                        None => {
                            return out;
                        },
                    };
                    let pre = st.as_str().substring_char(0, d + 1);
                    proof {
                        assert(pre@ =~= st@.take(d + 1));
                    }
                    let mut i: u32 = s0 as u32;
                    let lim: u32 = e0 as u32;
                    while i <= lim
                        invariant
                            s0 as u32 <= i,
                            s0 <= e0 ==> i <= lim + 1,
                            lim == e0 as u32,
                            s0 <= e0 ==> views_of(out@) =~= short_range_strs(pre@, s0, e0).take(
                                i - s0,
                            ),
                            s0 > e0 ==> i == s0 as u32 && out@.len() == 0,
                        decreases lim + 1 - i,
                    {
                        let ghost out0 = out@;
                        let mut piece = pre.to_owned();
                        let numtxt = u64_to_dec(i as u64);
                        piece.append(numtxt.as_str());
                        out.push(piece);
                        proof {
                            assert(out@ == out0.push(piece));
                            assert(piece@ == pre@.add(dec_str(i as nat)));
                            assert(short_range_strs(pre@, s0, e0)[i - s0] == pre@.add(
                                dec_str((s0 + (i - s0)) as nat),
                            ));
                            assert(views_of(out@) =~= short_range_strs(pre@, s0, e0).take(
                                i + 1 - s0,
                            ));
                        }
                        i = i + 1;
                    }
                    proof {
                        if s0 <= e0 {
                            assert(short_range_strs(pre@, s0, e0).take(lim + 1 - s0)
                                =~= short_range_strs(pre@, s0, e0));
                        }
                        assert(views_of(out@) =~= short_range_strs(st@.take(d + 1), s0, e0));
                    }
                    out
                },
            }
        } else {
            let s0 = match parse_ipv4(st.as_str()) {
                Some(v) => v,
                None => {
                    return out;
                },
            };
            let e0 = match parse_ipv4(en.as_str()) {
                Some(v) => v,
                None => {
                    return out;
                },
            };
            if s0 > e0 {
                return out;
            }
            let span: u64 = (e0 as u64) - (s0 as u64) + 1;
            let count: usize = if span <= 256 {
                span as usize
            } else {
                EXPAND_CAP
            };
            push_ip_range(&mut out, s0, count);
            out
        }
    } else {
        out.push(trimmed);
        proof {
            assert(views_of(out@) =~= seq![trim_spec(target@)]);
        }
        out
    }
}

/// `rfind_char` finds a real occurrence.
pub proof fn lemma_rfind_char_props(s: Seq<char>, c: char)
    ensures
        match rfind_char(s, c) {
            Some(i) => 0 <= i < s.len() && s[i] == c,
            None => true,
        },
    decreases s.len(),
{
    if s.len() == 0 {
    } else if s.last() == c {
    } else {
        lemma_rfind_char_props(s.drop_last(), c);
    }
}

// ------------------------------------------------------------------
// laws of expansion
// ------------------------------------------------------------------

/// Any prefix the CIDR grammar yields is at most 32.
pub proof fn lemma_cidr_prefix_range(s: Seq<char>)
    ensures
        parse_cidr_spec(s) matches Some(ap) ==> ap.1 <= 32,
{
    match find_char(s, '/') {
        None => {},
        Some(sl) => {
            let rest = s.skip(sl + 1);
            if parse_ipv4_spec(rest) is Some {
                let m = parse_ipv4_spec(rest).unwrap();
                if exists|q: u8| q <= 32 && m == mask_of_prefix(q) {
                    let q = choose|q: u8| q <= 32 && m == mask_of_prefix(q);
                    assert(q <= 32);
                }
            }
        },
    }
}

/// No address of a block leaves 32 bits: the network address plus the
/// block size stays within `2^32`.
pub proof fn lemma_block_fits(a: u32, p: u8)
    requires
        p <= 32,
    ensures
        (a & mask_of_prefix(p)) + block_size(p) <= 0x1_0000_0000,
{
    vstd::arithmetic::power2::lemma2_to64();
    if p == 0 {
        assert(a & 0u32 == 0u32) by (bit_vector);
    } else {
        let k: u32 = (32 - p) as u32;
        assert((((a & (0xFFFF_FFFFu32 << k)) as u64) + (1u64 << (k as u64)))
            <= 0x1_0000_0000u64) by (bit_vector)
            requires
                k < 32,
        ;
        assert(pow2(k as nat) == (1u64 << (k as u64))) by {
            vstd::bits::lemma_u64_pow2_no_overflow(k as nat);
            vstd::bits::lemma_u64_shl_is_mul(1u64, k as u64);
        }
    }
}

/// Within one expanded block the address arithmetic never wraps.
pub proof fn lemma_cidr_no_wrap(a: u32, p: u8)
    requires
        p <= 32,
    ensures
        forall|i: int|
            0 <= i < capped_block_size(p) ==> #[trigger] add32(a & mask_of_prefix(p), i) == (a
                & mask_of_prefix(p)) + i,
{
    lemma_block_fits(a, p);
    assert forall|i: int| 0 <= i < capped_block_size(p) implies #[trigger] add32(
        a & mask_of_prefix(p),
        i,
    ) == (a & mask_of_prefix(p)) + i by {
        assert(capped_block_size(p) <= block_size(p));
        assert((a & mask_of_prefix(p)) as int + i < 0x1_0000_0000);
    }
}

/// LAW: a CIDR target expands to one address per host in its block, in
/// ascending numeric order from the network address, capped at 256; a
/// block of `2^(32-prefix)` hosts that exceeds the cap yields exactly
/// the first 256.
pub proof fn lemma_expand_cidr(input: Seq<char>, a: u32, p: u8)
    requires
        contains_sub(trim_spec(input), seq!['/']),
        parse_cidr_spec(trim_spec(input)) == Some((a, p)),
    ensures
        p <= 32,
        expand_spec(input).len() == capped_block_size(p),
        block_size(p) <= 256 ==> expand_spec(input).len() == block_size(p),
        block_size(p) > 256 ==> expand_spec(input).len() == 256,
        forall|i: int|
            0 <= i < expand_spec(input).len() ==> #[trigger] expand_spec(input)[i] == ipv4_str(
                (((a & mask_of_prefix(p)) + i) as u32),
            ),
{
    lemma_cidr_prefix_range(trim_spec(input));
    lemma_cidr_no_wrap(a, p);
    assert forall|i: int| 0 <= i < expand_spec(input).len() implies #[trigger] expand_spec(
        input,
    )[i] == ipv4_str((((a & mask_of_prefix(p)) + i) as u32)) by {
        assert(expand_spec(input)[i] == ipv4_str(add32(a & mask_of_prefix(p), i)));
    }
}

/// LAW: a short-form range runs over final octets from start to end
/// inclusive, in ascending order on the shared prefix; a reversed range
/// yields nothing at all.
pub proof fn lemma_expand_short_range(input: Seq<char>, d: int, s0: nat, e0: nat)
    requires
        !contains_sub(trim_spec(input), seq!['/']),
        contains_sub(trim_spec(input), seq!['-']),
        split_char_spec(trim_spec(input), '-').len() == 2,
        !contains_sub(trim_spec(split_char_spec(trim_spec(input), '-')[1]), seq!['.']),
        rfind_char(trim_spec(split_char_spec(trim_spec(input), '-')[0]), '.') == Some(d),
        parse_uint(trim_spec(split_char_spec(trim_spec(input), '-')[0]).skip(d + 1)) == Some(s0),
        parse_uint(trim_spec(split_char_spec(trim_spec(input), '-')[1])) == Some(e0),
        s0 <= 255,
        e0 <= 255,
    ensures
        expand_spec(input).len() == (if s0 <= e0 {
            e0 - s0 + 1
        } else {
            0
        }),
        s0 > e0 ==> expand_spec(input) == Seq::<Seq<char>>::empty(),
        forall|i: int|
            0 <= i < expand_spec(input).len() ==> #[trigger] expand_spec(input)[i] == trim_spec(
                split_char_spec(trim_spec(input), '-')[0],
            ).take(d + 1).add(dec_str((s0 + i) as nat)),
{
    if s0 > e0 {
        assert(expand_spec(input) =~~= Seq::<Seq<char>>::empty());
    }
}

} // verus!
