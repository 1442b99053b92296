//! Verified text utilities: character classes, decimal parsing, substring
//! search, splitting, trimming and number formatting.
//!
//! Every executable function here is specified against a small recursive
//! spec function over `Seq<char>`, so the parsers built on top of this
//! module can state their results exactly.

use vstd::prelude::*;
use vstd::string::StrSliceExecFns;
use vstd::string::StringExecFns;

verus! {

// ------------------------------------------------------------------
// character classes
// ------------------------------------------------------------------

pub open spec fn is_digit(c: char) -> bool {
    '0' <= c && c <= '9'
}

/// Numeric value of a decimal digit character.
pub open spec fn digit_of(c: char) -> nat {
    (c as int - 48) as nat
}

/// The ASCII whitespace characters stripped by `trim`.
pub open spec fn is_space(c: char) -> bool {
    c == ' ' || c == '\t' || c == '\r' || c == '\n'
}

pub open spec fn all_digits(s: Seq<char>) -> bool {
    forall|i: int| 0 <= i < s.len() ==> is_digit(#[trigger] s[i])
}

// ------------------------------------------------------------------
// decimal values
// ------------------------------------------------------------------

/// Value of a digit string read most-significant first; non-digit
/// characters contribute zero so the function is total.
pub open spec fn digits_val(s: Seq<char>) -> nat
    decreases s.len(),
{
    if s.len() == 0 {
        0
    } else {
        digits_val(s.drop_last()) * 10 + (if is_digit(s.last()) {
            digit_of(s.last())
        } else {
            0
        })
    }
}

/// What `str::parse` for an unsigned integer accepts: an optional leading
/// `+`, then one or more digits (leading zeros allowed), with no bound on
/// the mathematical value.
pub open spec fn parse_uint(s: Seq<char>) -> Option<nat> {
    let t = if s.len() > 0 && s[0] == '+' {
        s.skip(1)
    } else {
        s
    };
    if t.len() > 0 && all_digits(t) {
        Some(digits_val(t))
    } else {
        None
    }
}

pub proof fn lemma_digits_val_prefix_le(s: Seq<char>, i: int)
    requires
        0 <= i <= s.len(),
    ensures
        digits_val(s.take(i)) <= digits_val(s),
    decreases s.len() - i,
{
    if i == s.len() {
        assert(s.take(i) =~= s);
    } else {
        assert(s.take(i + 1).drop_last() =~= s.take(i));
        assert(s.take(i + 1).last() == s[i]);
        assert(digits_val(s.take(i)) <= digits_val(s.take(i + 1)));
        lemma_digits_val_prefix_le(s, i + 1);
    }
}

/// Parse a decimal (or `+`-prefixed) integer and accept it only when its
/// value is at most `max`; mirrors `str::parse` followed by a range check.
pub fn parse_u32_upto(s: &str, max: u32) -> (r: Option<u32>)
    ensures
        match parse_uint(s@) {
            Some(v) => if v <= max {
                r == Some(v as u32)
            } else {
                r is None
            },
            None => r is None,
        },
{
    let len = s.unicode_len();
    let mut i: usize = 0;
    if len > 0 && s.get_char(0) == '+' {
        i = 1;
    }
    let ghost t = if s@.len() > 0 && s@[0] == '+' {
        s@.skip(1)
    } else {
        s@
    };
    if i >= len {
        assert(t.len() == 0);
        return None;
    }
    let ghost off = i as int;
    let mut acc: u64 = 0;
    let mut j: usize = i;
    while j < len
        invariant
            0 <= off <= j <= len,
            len == s@.len(),
            t =~= s@.skip(off),
            t == (if s@.len() > 0 && s@[0] == '+' {
                s@.skip(1)
            } else {
                s@
            }),
            acc <= max,
            acc as nat == digits_val(t.take(j - off)),
            all_digits(t.take(j - off)),
        decreases len - j,
    {
        let c = s.get_char(j);
        assert(c == t[j - off]) by {
            assert(t[j - off] == s@.skip(off)[j - off]);
        }
        if !('0' <= c && c <= '9') {
            assert(!all_digits(t));
            return None;
        }
        let d: u32 = (c as u32) - 48;
        assert(d == digit_of(c));
        let next: u64 = acc * 10 + (d as u64);
        proof {
            assert(t.take(j - off + 1).drop_last() =~= t.take(j - off));
            assert(t.take(j - off + 1).last() == t[j - off]);
        }
        if next > max as u64 {
            proof {
                if parse_uint(s@) is Some {
                    lemma_digits_val_prefix_le(t, j - off + 1);
                }
            }
            return None;
        }
        acc = next;
        j = j + 1;
    }
    assert(t.take(len - off) =~= t);
    assert(parse_uint(s@) == Some(digits_val(t)));
    Some(acc as u32)
}

// ------------------------------------------------------------------
// searching
// ------------------------------------------------------------------

/// Index of the first occurrence of `c` in `s`.
pub open spec fn find_char(s: Seq<char>, c: char) -> Option<int>
    decreases s.len(),
{
    if s.len() == 0 {
        None
    } else if s[0] == c {
        Some(0int)
    } else {
        match find_char(s.skip(1), c) {
            None => None,
            Some(i) => Some(i + 1),
        }
    }
}

pub proof fn lemma_find_char_props(s: Seq<char>, c: char)
    ensures
        match find_char(s, c) {
            Some(i) => 0 <= i < s.len() && s[i] == c && (forall|j: int|
                0 <= j < i ==> s[j] != c),
            None => forall|j: int| 0 <= j < s.len() ==> s[j] != c,
        },
    decreases s.len(),
{
    if s.len() == 0 {
    } else if s[0] == c {
    } else {
        lemma_find_char_props(s.skip(1), c);
        match find_char(s.skip(1), c) {
            None => {
                assert forall|j: int| 0 <= j < s.len() implies s[j] != c by {
                    if j > 0 {
                        assert(s[j] == s.skip(1)[j - 1]);
                    }
                }
            },
            Some(i) => {
                assert(s[i + 1] == s.skip(1)[i]);
                assert forall|j: int| 0 <= j < i + 1 implies s[j] != c by {
                    if j > 0 {
                        assert(s[j] == s.skip(1)[j - 1]);
                    }
                }
            },
        }
    }
}

pub proof fn lemma_find_char_at(s: Seq<char>, c: char, i: int)
    requires
        0 <= i < s.len(),
        s[i] == c,
        forall|j: int| 0 <= j < i ==> s[j] != c,
    ensures
        find_char(s, c) == Some(i),
    decreases i,
{
    if i == 0 {
    } else {
        assert(s.skip(1)[i - 1] == s[i]);
        assert forall|j: int| 0 <= j < i - 1 implies s.skip(1)[j] != c by {
            assert(s.skip(1)[j] == s[j + 1]);
        }
        lemma_find_char_at(s.skip(1), c, i - 1);
    }
}

/// First index of `c` in `s`, if any.
pub fn find_char_in(s: &str, c: char) -> (r: Option<usize>)
    ensures
        match r {
            Some(k) => find_char(s@, c) == Some(k as int),
            None => find_char(s@, c) is None,
        },
{
    let len = s.unicode_len();
    let mut i: usize = 0;
    while i < len
        invariant
            0 <= i <= len,
            len == s@.len(),
            forall|j: int| 0 <= j < i ==> s@[j] != c,
        decreases len - i,
    {
        if s.get_char(i) == c {
            proof {
                lemma_find_char_at(s@, c, i as int);
            }
            return Some(i);
        }
        i = i + 1;
    }
    proof {
        lemma_find_char_props(s@, c);
    }
    None
}

// ------------------------------------------------------------------
// splitting
// ------------------------------------------------------------------

/// Split on a separator character; always yields at least one piece, and
/// a separator at the edge yields an empty piece, as `str::split` does.
pub open spec fn split_char_spec(s: Seq<char>, sep: char) -> Seq<Seq<char>>
    decreases s.len(),
{
    if s.len() == 0 {
        seq![Seq::<char>::empty()]
    } else if s[0] == sep {
        seq![Seq::<char>::empty()].add(split_char_spec(s.skip(1), sep))
    } else {
        let rest = split_char_spec(s.skip(1), sep);
        seq![seq![s[0]].add(rest[0])].add(rest.skip(1))
    }
}

pub proof fn lemma_split_nonempty(s: Seq<char>, sep: char)
    ensures
        split_char_spec(s, sep).len() >= 1,
    decreases s.len(),
{
    if s.len() == 0 {
    } else {
        lemma_split_nonempty(s.skip(1), sep);
    }
}

/// The first piece of a split is everything before the first separator.
pub proof fn lemma_split_at_first(s: Seq<char>, sep: char)
    ensures
        match find_char(s, sep) {
            None => split_char_spec(s, sep) == seq![s],
            Some(i) => split_char_spec(s, sep) == seq![s.take(i)].add(
                split_char_spec(s.skip(i + 1), sep),
            ),
        },
    decreases s.len(),
{
    lemma_find_char_props(s, sep);
    if s.len() == 0 {
        assert(split_char_spec(s, sep) =~~= seq![s]);
    } else if s[0] == sep {
        assert(s.take(0) =~= Seq::<char>::empty());
        assert(split_char_spec(s, sep) =~~= seq![s.take(0)].add(split_char_spec(s.skip(1), sep)));
    } else {
        lemma_split_at_first(s.skip(1), sep);
        lemma_split_nonempty(s.skip(1), sep);
        let rest = split_char_spec(s.skip(1), sep);
        match find_char(s.skip(1), sep) {
            None => {
                assert(rest =~~= seq![s.skip(1)]);
                assert(seq![s[0]].add(s.skip(1)) =~= s);
                assert(split_char_spec(s, sep) =~~= seq![s]);
            },
            Some(i1) => {
                lemma_find_char_props(s.skip(1), sep);
                assert(find_char(s, sep) == Some(i1 + 1));
                assert(rest == seq![s.skip(1).take(i1)].add(split_char_spec(s.skip(1).skip(i1 + 1), sep)));
                assert(seq![s[0]].add(s.skip(1).take(i1)) =~= s.take(i1 + 1));
                assert(s.skip(1).skip(i1 + 1) =~= s.skip(i1 + 2));
                assert(rest.skip(1) =~~= split_char_spec(s.skip(1).skip(i1 + 1), sep));
                assert(split_char_spec(s, sep) =~~= seq![s.take(i1 + 1)].add(
                    split_char_spec(s.skip(i1 + 2), sep),
                ));
            },
        }
    }
}

/// The views of a vector of strings.
pub open spec fn views_of(v: Seq<String>) -> Seq<Seq<char>> {
    v.map_values(|t: String| t@)
}

/// Split a string on a separator character.
pub fn split_char_str(s: &str, sep: char) -> (r: Vec<String>)
    ensures
        views_of(r@) == split_char_spec(s@, sep),
    decreases s@.len(),
{
    let len = s.unicode_len();
    match find_char_in(s, sep) {
        None => {
            let mut v: Vec<String> = Vec::new();
            v.push(s.to_owned());
            proof {
                lemma_split_at_first(s@, sep);
                assert(views_of(v@) =~~= split_char_spec(s@, sep));
            }
            v
        },
        Some(i) => {
            proof {
                lemma_find_char_props(s@, sep);
            }
            let head = s.substring_char(0, i).to_owned();
            let tail = s.substring_char(i + 1, len);
            let mut rest = split_char_str(tail, sep);
            rest.insert(0, head);
            proof {
                lemma_split_at_first(s@, sep);
                assert(head@ =~= s@.take(i as int));
                assert(tail@ =~= s@.skip(i + 1));
                assert(views_of(rest@) =~~= split_char_spec(s@, sep));
            }
            rest
        },
    }
}

// ------------------------------------------------------------------
// lines
// ------------------------------------------------------------------

/// Drop one trailing carriage return, as `str::lines` does before a
/// line feed.
pub open spec fn strip_cr(s: Seq<char>) -> Seq<char> {
    if s.len() > 0 && s.last() == '\r' {
        s.drop_last()
    } else {
        s
    }
}

/// What `str::lines` yields: pieces split on `'\n'`, a carriage return
/// stripped from every piece that was followed by a line feed, and no
/// final empty piece.
pub open spec fn lines_spec(s: Seq<char>) -> Seq<Seq<char>> {
    let p = split_char_spec(s, '\n');
    p.take(p.len() - 1).map_values(|t: Seq<char>| strip_cr(t)).add(
        if p.last().len() == 0 {
            Seq::<Seq<char>>::empty()
        } else {
            seq![p.last()]
        },
    )
}

fn strip_cr_str(s: &str) -> (r: String)
    ensures
        r@ == strip_cr(s@),
{
    let len = s.unicode_len();
    if len > 0 && s.get_char(len - 1) == '\r' {
        let r = s.substring_char(0, len - 1).to_owned();
        proof {
            assert(r@ =~= s@.drop_last());
        }
        r
    } else {
        s.to_owned()
    }
}

/// Split a string into its lines, as `str::lines` does.
pub fn split_lines(s: &str) -> (r: Vec<String>)
    ensures
        views_of(r@) == lines_spec(s@),
{
    let parts = split_char_str(s, '\n');
    proof {
        lemma_split_nonempty(s@, '\n');
    }
    let n = parts.len();
    let ghost p = split_char_spec(s@, '\n');
    let mut r: Vec<String> = Vec::new();
    let mut k: usize = 0;
    while k < n - 1
        invariant
            0 <= k <= n - 1,
            n == parts.len(),
            n >= 1,
            views_of(parts@) == p,
            views_of(r@) =~= p.take(k as int).map_values(|t: Seq<char>| strip_cr(t)),
        decreases n - 1 - k,
    {
        let ghost r0 = r@;
        let piece = strip_cr_str(parts[k].as_str());
        r.push(piece);
        proof {
            assert(p[k as int] == parts@[k as int]@);
            assert(piece@ == strip_cr(p[k as int]));
            assert(r@ == r0.push(piece));
            assert(views_of(r@) =~= views_of(r0).push(strip_cr(p[k as int])));
            assert(views_of(r@) =~= p.take(k + 1).map_values(|t: Seq<char>| strip_cr(t)));
        }
        k = k + 1;
    }
    if !parts[n - 1].as_str().is_empty() {
        let last = parts[n - 1].clone();
        r.push(last);
    }
    proof {
        assert(views_of(r@) =~~= lines_spec(s@));
    }
    r
}

// ------------------------------------------------------------------
// trimming
// ------------------------------------------------------------------

/// ASCII whitespace removed from both ends.
pub open spec fn trim_spec(s: Seq<char>) -> Seq<char>
    decreases s.len(),
{
    if s.len() == 0 {
        s
    } else if is_space(s[0]) {
        trim_spec(s.skip(1))
    } else if is_space(s.last()) {
        trim_spec(s.drop_last())
    } else {
        s
    }
}

pub proof fn lemma_trim_all_space(s: Seq<char>)
    requires
        forall|j: int| 0 <= j < s.len() ==> is_space(#[trigger] s[j]),
    ensures
        trim_spec(s) == Seq::<char>::empty(),
    decreases s.len(),
{
    if s.len() == 0 {
        assert(trim_spec(s) =~= Seq::<char>::empty());
    } else {
        assert(is_space(s[0]));
        assert forall|j: int| 0 <= j < s.skip(1).len() implies is_space(#[trigger] s.skip(1)[j]) by {
            assert(s.skip(1)[j] == s[j + 1]);
        }
        lemma_trim_all_space(s.skip(1));
    }
}

pub proof fn lemma_trim_range(s: Seq<char>, a: int, b: int)
    requires
        0 <= a <= b <= s.len(),
        forall|j: int| 0 <= j < a ==> is_space(#[trigger] s[j]),
        forall|j: int| b <= j < s.len() ==> is_space(#[trigger] s[j]),
        a < b ==> !is_space(s[a]) && !is_space(s[b - 1]),
    ensures
        trim_spec(s) == s.subrange(a, b),
    decreases s.len(),
{
    if a == b {
        assert forall|j: int| 0 <= j < s.len() implies is_space(#[trigger] s[j]) by {}
        lemma_trim_all_space(s);
        assert(s.subrange(a, b) =~= Seq::<char>::empty());
    } else if 0 < a {
        assert(is_space(s[0]));
        let t = s.skip(1);
        assert forall|j: int| 0 <= j < a - 1 implies is_space(#[trigger] t[j]) by {
            assert(t[j] == s[j + 1]);
        }
        assert forall|j: int| b - 1 <= j < t.len() implies is_space(#[trigger] t[j]) by {
            assert(t[j] == s[j + 1]);
        }
        assert(t[a - 1] == s[a]);
        assert(t[b - 2] == s[b - 1]);
        lemma_trim_range(t, a - 1, b - 1);
        assert(t.subrange(a - 1, b - 1) =~= s.subrange(a, b));
    } else if b < s.len() {
        assert(!is_space(s[0]));
        assert(is_space(s.last()));
        let t = s.drop_last();
        lemma_trim_range(t, a, b);
        assert(t.subrange(a, b) =~= s.subrange(a, b));
    } else {
        assert(!is_space(s[0]) && !is_space(s.last()));
        assert(trim_spec(s) == s);
        assert(s.subrange(a, b) =~= s);
    }
}

fn is_space_char(c: char) -> (r: bool)
    ensures
        r == is_space(c),
{
    c == ' ' || c == '\t' || c == '\r' || c == '\n'
}

/// Remove leading and trailing ASCII whitespace, as `str::trim` does on
/// such input.
pub fn trim_str(s: &str) -> (r: String)
    ensures
        r@ == trim_spec(s@),
{
    let len = s.unicode_len();
    let mut a: usize = 0;
    while a < len && is_space_char(s.get_char(a))
        invariant
            0 <= a <= len,
            len == s@.len(),
            forall|j: int| 0 <= j < a ==> is_space(#[trigger] s@[j]),
        decreases len - a,
    {
        a = a + 1;
    }
    let mut b: usize = len;
    while b > a && is_space_char(s.get_char(b - 1))
        invariant
            a <= b <= len,
            len == s@.len(),
            forall|j: int| b <= j < len ==> is_space(#[trigger] s@[j]),
        decreases b,
    {
        b = b - 1;
    }
    let r = s.substring_char(a, b).to_owned();
    proof {
        lemma_trim_range(s@, a as int, b as int);
    }
    r
}

// ------------------------------------------------------------------
// prefixes, equality, substring search
// ------------------------------------------------------------------

pub open spec fn starts_with_spec(s: Seq<char>, p: Seq<char>) -> bool {
    p.len() <= s.len() && s.take(p.len() as int) == p
}

pub fn starts_with_str(s: &str, p: &str) -> (r: bool)
    ensures
        r == starts_with_spec(s@, p@),
{
    let sl = s.unicode_len();
    let pl = p.unicode_len();
    if pl > sl {
        return false;
    }
    let mut i: usize = 0;
    while i < pl
        invariant
            0 <= i <= pl <= sl,
            sl == s@.len(),
            pl == p@.len(),
            forall|j: int| 0 <= j < i ==> s@[j] == p@[j],
        decreases pl - i,
    {
        if s.get_char(i) != p.get_char(i) {
            assert(s@.take(pl as int)[i as int] != p@[i as int]);
            return false;
        }
        i = i + 1;
    }
    proof {
        assert(s@.take(pl as int) =~= p@);
    }
    true
}

/// Character-wise string equality.
pub fn str_eq_str(s: &str, p: &str) -> (r: bool)
    ensures
        r == (s@ == p@),
{
    let sl = s.unicode_len();
    let pl = p.unicode_len();
    if sl != pl {
        return false;
    }
    let mut i: usize = 0;
    while i < pl
        invariant
            0 <= i <= pl == sl,
            sl == s@.len(),
            pl == p@.len(),
            forall|j: int| 0 <= j < i ==> s@[j] == p@[j],
        decreases pl - i,
    {
        if s.get_char(i) != p.get_char(i) {
            return false;
        }
        i = i + 1;
    }
    proof {
        assert(s@ =~= p@);
    }
    true
}

/// Index of the first occurrence of `p` as a contiguous substring of `s`.
pub open spec fn find_sub(s: Seq<char>, p: Seq<char>) -> Option<int>
    decreases s.len(),
{
    if p.len() > s.len() {
        None
    } else if s.take(p.len() as int) == p {
        Some(0int)
    } else if s.len() == 0 {
        None
    } else {
        match find_sub(s.skip(1), p) {
            None => None,
            Some(i) => Some(i + 1),
        }
    }
}

pub open spec fn contains_sub(s: Seq<char>, p: Seq<char>) -> bool {
    find_sub(s, p) is Some
}

pub proof fn lemma_find_sub_props(s: Seq<char>, p: Seq<char>)
    ensures
        match find_sub(s, p) {
            Some(i) => 0 <= i && i + p.len() <= s.len() && s.subrange(i, i + p.len() as int) == p
                && (forall|j: int| 0 <= j < i ==> #[trigger] s.subrange(j, j + p.len() as int) != p),
            None => forall|j: int|
                0 <= j && j + p.len() <= s.len() ==> #[trigger] s.subrange(j, j + p.len() as int) != p,
        },
    decreases s.len(),
{
    if p.len() > s.len() {
    } else if s.take(p.len() as int) == p {
        assert(s.subrange(0, p.len() as int) =~= s.take(p.len() as int));
    } else if s.len() == 0 {
        assert(s.take(p.len() as int) =~= p);
    } else {
        lemma_find_sub_props(s.skip(1), p);
        assert(s.subrange(0, p.len() as int) =~= s.take(p.len() as int));
        assert forall|j: int|
            1 <= j && j + p.len() <= s.len() implies #[trigger] s.subrange(j, j + p.len() as int)
            == s.skip(1).subrange(j - 1, j - 1 + p.len() as int) by {
            assert(s.subrange(j, j + p.len() as int) =~= s.skip(1).subrange(
                j - 1,
                j - 1 + p.len() as int,
            ));
        }
    }
}

pub proof fn lemma_find_sub_at(s: Seq<char>, p: Seq<char>, i: int)
    requires
        0 <= i,
        i + p.len() <= s.len(),
        s.subrange(i, i + p.len() as int) == p,
        forall|j: int| 0 <= j < i ==> #[trigger] s.subrange(j, j + p.len() as int) != p,
    ensures
        find_sub(s, p) == Some(i),
    decreases i,
{
    if i == 0 {
        assert(s.take(p.len() as int) =~= s.subrange(0, p.len() as int));
    } else {
        assert(s.take(p.len() as int) =~= s.subrange(0, p.len() as int));
        assert(s.skip(1).subrange(i - 1, i - 1 + p.len() as int) =~= s.subrange(
            i,
            i + p.len() as int,
        ));
        assert forall|j: int| 0 <= j < i - 1 implies #[trigger] s.skip(1).subrange(j, j + p.len() as int)
            != p by {
            assert(s.skip(1).subrange(j, j + p.len() as int) =~= s.subrange(
                j + 1,
                j + 1 + p.len() as int,
            ));
        }
        lemma_find_sub_at(s.skip(1), p, i - 1);
        assert(s.subrange(0, 0 + p.len() as int) != p);
        assert(s.take(p.len() as int) != p);
        assert(find_sub(s.skip(1), p) == Some(i - 1));
        assert(find_sub(s, p) == Some(i));
    }
}

/// First index where `p` occurs as a substring of `s`, if any.
pub fn find_sub_in(s: &str, p: &str) -> (r: Option<usize>)
    ensures
        match r {
            Some(k) => find_sub(s@, p@) == Some(k as int),
            None => find_sub(s@, p@) is None,
        },
{
    let sl = s.unicode_len();
    let pl = p.unicode_len();
    if pl > sl {
        return None;
    }
    if pl == 0 {
        proof {
            assert(s@.take(0) =~= p@);
        }
        return Some(0);
    }
    let mut i: usize = 0;
    while i <= sl - pl
        invariant
            0 <= i <= sl - pl + 1,
            0 < pl <= sl,
            sl == s@.len(),
            pl == p@.len(),
            forall|j: int| 0 <= j < i ==> #[trigger] s@.subrange(j, j + pl as int) != p@,
        decreases sl - pl + 1 - i,
    {
        let mut k: usize = 0;
        let mut matched = true;
        while k < pl
            invariant
                0 <= k <= pl,
                0 <= i,
                i + pl <= sl,
                sl == s@.len(),
                pl == p@.len(),
                matched ==> forall|m: int| 0 <= m < k ==> s@[i + m] == p@[m],
                !matched ==> s@.subrange(i as int, i + pl as int) != p@,
            decreases pl - k,
        {
            if s.get_char(i + k) != p.get_char(k) {
                proof {
                    assert(s@.subrange(i as int, i + pl as int)[k as int] == s@[i + k]);
                }
                matched = false;
                k = pl;
            } else {
                k = k + 1;
            }
        }
        if matched {
            proof {
                assert(s@.subrange(i as int, i + pl as int) =~= p@);
                lemma_find_sub_at(s@, p@, i as int);
            }
            return Some(i);
        }
        i = i + 1;
    }
    proof {
        lemma_find_sub_props(s@, p@);
    }
    None
}

/// Whether `p` occurs as a contiguous substring of `s`.
pub fn contains_str(s: &str, p: &str) -> (r: bool)
    ensures
        r == contains_sub(s@, p@),
{
    find_sub_in(s, p).is_some()
}

// ------------------------------------------------------------------
// decimal and hexadecimal rendering
// ------------------------------------------------------------------

pub open spec fn dec_digit_char(d: nat) -> char {
    if d == 0 { '0' }
    else if d == 1 { '1' }
    else if d == 2 { '2' }
    else if d == 3 { '3' }
    else if d == 4 { '4' }
    else if d == 5 { '5' }
    else if d == 6 { '6' }
    else if d == 7 { '7' }
    else if d == 8 { '8' }
    else { '9' }
}

/// The decimal rendering of a natural number, most significant digit first.
pub open spec fn dec_str(n: nat) -> Seq<char>
    decreases n,
{
    if n < 10 {
        seq![dec_digit_char(n)]
    } else {
        dec_str(n / 10).push(dec_digit_char(n % 10))
    }
}

fn dec_digit_str(d: u64) -> (r: &'static str)
    requires
        d < 10,
    ensures
        r@ == seq![dec_digit_char(d as nat)],
{
    proof {
        reveal_strlit("0");
        reveal_strlit("1");
        reveal_strlit("2");
        reveal_strlit("3");
        reveal_strlit("4");
        reveal_strlit("5");
        reveal_strlit("6");
        reveal_strlit("7");
        reveal_strlit("8");
        reveal_strlit("9");
    }
    let r = if d == 0 { "0" }
    else if d == 1 { "1" }
    else if d == 2 { "2" }
    else if d == 3 { "3" }
    else if d == 4 { "4" }
    else if d == 5 { "5" }
    else if d == 6 { "6" }
    else if d == 7 { "7" }
    else { "9" };
    let r = if d == 8 { "8" } else { r };
    proof {
        assert(r@ =~= seq![dec_digit_char(d as nat)]);
    }
    r
}

/// Render an unsigned integer in decimal.
pub fn u64_to_dec(n: u64) -> (r: String)
    ensures
        r@ == dec_str(n as nat),
    decreases n,
{
    if n < 10 {
        dec_digit_str(n).to_owned()
    } else {
        let mut s = u64_to_dec(n / 10);
        s.append(dec_digit_str(n % 10));
        proof {
            assert(s@ =~= dec_str((n / 10) as nat).push(dec_digit_char((n % 10) as nat)));
        }
        s
    }
}

pub open spec fn hex_digit_char(d: nat, upper: bool) -> char {
    if d < 10 {
        dec_digit_char(d)
    } else if d == 10 { if upper { 'A' } else { 'a' } }
    else if d == 11 { if upper { 'B' } else { 'b' } }
    else if d == 12 { if upper { 'C' } else { 'c' } }
    else if d == 13 { if upper { 'D' } else { 'd' } }
    else if d == 14 { if upper { 'E' } else { 'e' } }
    else { if upper { 'F' } else { 'f' } }
}

/// Two hexadecimal digits of one byte.
pub open spec fn hex2(b: nat, upper: bool) -> Seq<char> {
    seq![hex_digit_char(b / 16 % 16, upper), hex_digit_char(b % 16, upper)]
}

fn hex_digit_str(d: u8, upper: bool) -> (r: &'static str)
    requires
        d < 16,
    ensures
        r@ == seq![hex_digit_char(d as nat, upper)],
{
    if d < 10 {
        dec_digit_str(d as u64)
    } else {
        proof {
            reveal_strlit("a");
            reveal_strlit("b");
            reveal_strlit("c");
            reveal_strlit("d");
            reveal_strlit("e");
            reveal_strlit("f");
            reveal_strlit("A");
            reveal_strlit("B");
            reveal_strlit("C");
            reveal_strlit("D");
            reveal_strlit("E");
            reveal_strlit("F");
        }
        let r = if d == 10 { if upper { "A" } else { "a" } }
        else if d == 11 { if upper { "B" } else { "b" } }
        else if d == 12 { if upper { "C" } else { "c" } }
        else if d == 13 { if upper { "D" } else { "d" } }
        else if d == 14 { if upper { "E" } else { "e" } }
        else { if upper { "F" } else { "f" } };
        proof {
            assert(r@ =~= seq![hex_digit_char(d as nat, upper)]);
        }
        r
    }
}

/// Render one byte as two hexadecimal digits.
pub fn byte_to_hex(b: u8, upper: bool) -> (r: String)
    ensures
        r@ == hex2(b as nat, upper),
{
    let mut s = hex_digit_str(b / 16, upper).to_owned();
    s.append(hex_digit_str(b % 16, upper));
    proof {
        assert(s@ =~= hex2(b as nat, upper));
    }
    s
}

/// The lower-case hexadecimal rendering of a byte string.
pub open spec fn bytes_hex_lower(s: Seq<u8>) -> Seq<char>
    decreases s.len(),
{
    if s.len() == 0 {
        Seq::<char>::empty()
    } else {
        bytes_hex_lower(s.drop_last()).add(hex2(s.last() as nat, false))
    }
}

/// Render a byte string as lower-case hexadecimal digit pairs.
pub fn slice_to_hex_lower(v: &[u8]) -> (r: String)
    ensures
        r@ == bytes_hex_lower(v@),
{
    let mut s = String::new();
    let mut i: usize = 0;
    while i < v.len()
        invariant
            0 <= i <= v@.len(),
            s@ == bytes_hex_lower(v@.take(i as int)),
        decreases v@.len() - i,
    {
        let h = byte_to_hex(v[i], false);
        s.append(h.as_str());
        proof {
            assert(v@.take(i + 1).drop_last() =~= v@.take(i as int));
            assert(v@.take(i + 1).last() == v@[i as int]);
        }
        i = i + 1;
    }
    proof {
        assert(v@.take(v@.len() as int) =~= v@);
    }
    s
}

// ------------------------------------------------------------------
// lexicographic order on character sequences
// ------------------------------------------------------------------

/// Code-point lexicographic order; on `String` values this coincides
/// with the standard library's ordering of the underlying text.
pub open spec fn lex_le(a: Seq<char>, b: Seq<char>) -> bool
    decreases a.len(),
{
    if a.len() == 0 {
        true
    } else if b.len() == 0 {
        false
    } else if a[0] != b[0] {
        a[0] < b[0]
    } else {
        lex_le(a.skip(1), b.skip(1))
    }
}

pub proof fn lemma_lex_total(a: Seq<char>, b: Seq<char>)
    ensures
        lex_le(a, b) || lex_le(b, a),
    decreases a.len(),
{
    if a.len() == 0 || b.len() == 0 {
    } else if a[0] != b[0] {
    } else {
        lemma_lex_total(a.skip(1), b.skip(1));
    }
}

pub proof fn lemma_lex_antisym(a: Seq<char>, b: Seq<char>)
    requires
        lex_le(a, b),
        lex_le(b, a),
    ensures
        a == b,
    decreases a.len(),
{
    if a.len() == 0 {
        assert(b.len() == 0);
        assert(a =~= b);
    } else {
        assert(b.len() > 0);
        assert(a[0] == b[0]);
        lemma_lex_antisym(a.skip(1), b.skip(1));
        assert forall|j: int| 0 <= j < a.len() implies a[j] == b[j] by {
            if j > 0 {
                assert(a[j] == a.skip(1)[j - 1]);
                assert(b[j] == b.skip(1)[j - 1]);
            }
        }
        assert(a =~= b);
    }
}

pub proof fn lemma_lex_trans(a: Seq<char>, b: Seq<char>, c: Seq<char>)
    requires
        lex_le(a, b),
        lex_le(b, c),
    ensures
        lex_le(a, c),
    decreases a.len(),
{
    if a.len() == 0 {
    } else {
        assert(b.len() > 0);
        assert(c.len() > 0);
        if a[0] == b[0] && b[0] == c[0] {
            lemma_lex_trans(a.skip(1), b.skip(1), c.skip(1));
        }
    }
}

pub proof fn lemma_lex_common_prefix(a: Seq<char>, b: Seq<char>, i: int)
    requires
        0 <= i <= a.len(),
        i <= b.len(),
        forall|j: int| 0 <= j < i ==> a[j] == b[j],
    ensures
        lex_le(a, b) == lex_le(a.skip(i), b.skip(i)),
    decreases i,
{
    if i == 0 {
        assert(a.skip(0) =~= a);
        assert(b.skip(0) =~= b);
    } else {
        assert(a[0] == b[0]);
        assert forall|j: int| 0 <= j < i - 1 implies a.skip(1)[j] == b.skip(1)[j] by {
            assert(a.skip(1)[j] == a[j + 1]);
            assert(b.skip(1)[j] == b[j + 1]);
        }
        lemma_lex_common_prefix(a.skip(1), b.skip(1), i - 1);
        assert(a.skip(1).skip(i - 1) =~= a.skip(i));
        assert(b.skip(1).skip(i - 1) =~= b.skip(i));
    }
}

/// Whether `a` is at most `b` in lexicographic order.
pub fn str_le_str(a: &str, b: &str) -> (r: bool)
    ensures
        r == lex_le(a@, b@),
{
    let al = a.unicode_len();
    let bl = b.unicode_len();
    let mut i: usize = 0;
    while i < al && i < bl
        invariant
            0 <= i <= al,
            i <= bl,
            al == a@.len(),
            bl == b@.len(),
            forall|j: int| 0 <= j < i ==> a@[j] == b@[j],
        decreases al - i,
    {
        let ca = a.get_char(i);
        let cb = b.get_char(i);
        if ca != cb {
            proof {
                lemma_lex_common_prefix(a@, b@, i as int);
                assert(a@.skip(i as int)[0] == ca);
                assert(b@.skip(i as int)[0] == cb);
            }
            return ca < cb;
        }
        i = i + 1;
    }
    proof {
        lemma_lex_common_prefix(a@, b@, i as int);
    }
    al <= bl
}

// ------------------------------------------------------------------
// sorting and deduplication of string lists
// ------------------------------------------------------------------

/// Insert into a lexicographically sorted sequence, before any equal
/// element.
pub open spec fn insert_sorted_lex(x: Seq<char>, s: Seq<Seq<char>>) -> Seq<Seq<char>>
    decreases s.len(),
{
    if s.len() == 0 {
        seq![x]
    } else if lex_le(x, s[0]) {
        seq![x].add(s)
    } else {
        seq![s[0]].add(insert_sorted_lex(x, s.skip(1)))
    }
}

/// Lexicographic insertion sort; stable, like the standard sort.
pub open spec fn sort_lex(s: Seq<Seq<char>>) -> Seq<Seq<char>>
    decreases s.len(),
{
    if s.len() == 0 {
        s
    } else {
        insert_sorted_lex(s[0], sort_lex(s.skip(1)))
    }
}

/// Drop each element equal to its successor, as `Vec::dedup` does.
pub open spec fn dedup_adj(s: Seq<Seq<char>>) -> Seq<Seq<char>>
    decreases s.len(),
{
    if s.len() <= 1 {
        s
    } else if s[0] == s[1] {
        dedup_adj(s.skip(1))
    } else {
        seq![s[0]].add(dedup_adj(s.skip(1)))
    }
}

fn insert_sorted_str(x: String, v: Vec<String>) -> (r: Vec<String>)
    ensures
        views_of(r@) == insert_sorted_lex(x@, views_of(v@)),
    decreases v@.len(),
{
    if v.len() == 0 {
        let mut r: Vec<String> = Vec::new();
        r.push(x);
        proof {
            assert(views_of(r@) =~~= insert_sorted_lex(x@, views_of(v@)));
        }
        r
    } else if str_le_str(x.as_str(), v[0].as_str()) {
        let mut r = v;
        r.insert(0, x);
        proof {
            assert(views_of(r@) =~~= insert_sorted_lex(x@, views_of(v@)));
        }
        r
    } else {
        let ghost v0 = v@;
        let mut rest = v;
        let first = rest.remove(0);
        proof {
            assert(rest@ =~= v0.skip(1));
            assert(views_of(rest@) =~~= views_of(v0).skip(1));
        }
        let sub = insert_sorted_str(x, rest);
        let mut r = sub;
        r.insert(0, first);
        proof {
            assert(views_of(r@) =~~= insert_sorted_lex(x@, views_of(v0)));
        }
        r
    }
}

/// Sort strings in ascending lexicographic order.
pub fn sort_strs(v: Vec<String>) -> (r: Vec<String>)
    ensures
        views_of(r@) == sort_lex(views_of(v@)),
    decreases v@.len(),
{
    if v.len() == 0 {
        v
    } else {
        let ghost v0 = v@;
        let mut rest = v;
        let first = rest.remove(0);
        proof {
            assert(rest@ =~= v0.skip(1));
            assert(views_of(rest@) =~~= views_of(v0).skip(1));
        }
        let sorted_rest = sort_strs(rest);
        let r = insert_sorted_str(first, sorted_rest);
        proof {
            assert(views_of(r@) =~~= sort_lex(views_of(v0)));
        }
        r
    }
}

/// Remove consecutive duplicates, as `Vec::dedup` does.
pub fn dedup_strs(v: Vec<String>) -> (r: Vec<String>)
    ensures
        views_of(r@) == dedup_adj(views_of(v@)),
    decreases v@.len(),
{
    if v.len() <= 1 {
        return v;
    }
    let ghost v0 = v@;
    let mut rest = v;
    let first = rest.remove(0);
    proof {
        assert(rest@ =~= v0.skip(1));
        assert(views_of(rest@) =~~= views_of(v0).skip(1));
    }
    if str_eq_str(first.as_str(), rest[0].as_str()) {
        let r = dedup_strs(rest);
        proof {
            assert(views_of(r@) =~~= dedup_adj(views_of(v0)));
        }
        r
    } else {
        let sub = dedup_strs(rest);
        let mut r = sub;
        r.insert(0, first);
        proof {
            assert(views_of(r@) =~~= dedup_adj(views_of(v0)));
        }
        r
    }
}

// ------------------------------------------------------------------
// whitespace splitting
// ------------------------------------------------------------------

/// The words of a string: maximal runs of non-whitespace characters,
/// as `str::split_whitespace` yields them on ASCII-spaced text.
pub open spec fn split_ws(s: Seq<char>) -> Seq<Seq<char>>
    decreases s.len(),
{
    if s.len() == 0 {
        Seq::<Seq<char>>::empty()
    } else if is_space(s[0]) {
        split_ws(s.skip(1))
    } else if s.len() == 1 {
        seq![seq![s[0]]]
    } else if is_space(s[1]) {
        seq![seq![s[0]]].add(split_ws(s.skip(1)))
    } else {
        let rest = split_ws(s.skip(1));
        seq![seq![s[0]].add(rest[0])].add(rest.skip(1))
    }
}

pub proof fn lemma_split_ws_spaces(s: Seq<char>, a: int)
    requires
        0 <= a <= s.len(),
        forall|j: int| 0 <= j < a ==> is_space(#[trigger] s[j]),
    ensures
        split_ws(s) == split_ws(s.skip(a)),
    decreases a,
{
    if a == 0 {
        assert(s.skip(0) =~= s);
    } else {
        assert(is_space(s[0]));
        assert forall|j: int| 0 <= j < a - 1 implies is_space(#[trigger] s.skip(1)[j]) by {
            assert(s.skip(1)[j] == s[j + 1]);
        }
        lemma_split_ws_spaces(s.skip(1), a - 1);
        assert(s.skip(1).skip(a - 1) =~= s.skip(a));
    }
}

/// The first word of a whitespace split runs to the first space.
pub proof fn lemma_split_ws_word(s: Seq<char>, b: int)
    requires
        0 < b <= s.len(),
        forall|j: int| 0 <= j < b ==> !is_space(#[trigger] s[j]),
        b < s.len() ==> is_space(s[b]),
    ensures
        split_ws(s) == seq![s.take(b)].add(split_ws(s.skip(b))),
    decreases b,
{
    if b == 1 {
        if s.len() == 1 {
            assert(s.skip(1).len() == 0);
            assert(split_ws(s) =~~= seq![s.take(1)].add(split_ws(s.skip(1))));
        } else {
            assert(is_space(s[1]));
            assert(s.take(1) =~= seq![s[0]]);
            assert(split_ws(s) =~~= seq![s.take(1)].add(split_ws(s.skip(1))));
        }
    } else {
        assert(!is_space(s[1]));
        assert forall|j: int| 0 <= j < b - 1 implies !is_space(#[trigger] s.skip(1)[j]) by {
            assert(s.skip(1)[j] == s[j + 1]);
        }
        if b - 1 < s.skip(1).len() {
            assert(s.skip(1)[b - 1] == s[b]);
        }
        lemma_split_ws_word(s.skip(1), b - 1);
        let rest = split_ws(s.skip(1));
        assert(rest[0] == s.skip(1).take(b - 1));
        assert(seq![s[0]].add(s.skip(1).take(b - 1)) =~= s.take(b));
        assert(rest.skip(1) =~~= split_ws(s.skip(1).skip(b - 1)));
        assert(s.skip(1).skip(b - 1) =~= s.skip(b));
        assert(split_ws(s) =~~= seq![s.take(b)].add(split_ws(s.skip(b))));
    }
}

/// Split a string into its whitespace-separated words.
pub fn split_whitespace_str(s: &str) -> (r: Vec<String>)
    ensures
        views_of(r@) == split_ws(s@),
{
    let len = s.unicode_len();
    let mut out: Vec<String> = Vec::new();
    let mut i: usize = 0;
    proof {
        assert(s@.skip(0) =~= s@);
        assert(views_of(out@) =~~= Seq::<Seq<char>>::empty());
    }
    while i < len
        invariant
            0 <= i <= len,
            len == s@.len(),
            split_ws(s@) == views_of(out@).add(split_ws(s@.skip(i as int))),
        decreases len - i,
    {
        let c = s.get_char(i);
        if c == ' ' || c == '\t' || c == '\r' || c == '\n' {
            proof {
                assert(s@.skip(i as int)[0] == s@[i as int]);
                assert(s@.skip(i as int).skip(1) =~= s@.skip(i + 1));
            }
            i = i + 1;
        } else {
            let mut b: usize = i;
            while b < len && !is_space_char(s.get_char(b))
                invariant
                    i <= b <= len,
                    len == s@.len(),
                    forall|j: int| i <= j < b ==> !is_space(#[trigger] s@[j]),
                decreases len - b,
            {
                b = b + 1;
            }
            let word = s.substring_char(i, b).to_owned();
            let ghost out0 = out@;
            out.push(word);
            proof {
                let rem = s@.skip(i as int);
                assert forall|j: int| 0 <= j < b - i implies !is_space(#[trigger] rem[j]) by {
                    assert(rem[j] == s@[j + i]);
                }
                if b < len {
                    assert(rem[b - i] == s@[b as int]);
                }
                lemma_split_ws_word(rem, b - i);
                assert(rem.take(b - i) =~= s@.subrange(i as int, b as int));
                assert(word@ == rem.take(b - i));
                assert(rem.skip(b - i) =~= s@.skip(b as int));
                assert(views_of(out@) =~~= views_of(out0).push(word@));
                assert(views_of(out0).add(seq![word@].add(split_ws(s@.skip(b as int))))
                    =~~= views_of(out@).add(split_ws(s@.skip(b as int))));
            }
            i = b;
        }
    }
    proof {
        assert(s@.skip(len as int).len() == 0);
        assert(split_ws(s@.skip(len as int)) =~~= Seq::<Seq<char>>::empty());
        assert(split_ws(s@) =~~= views_of(out@));
    }
    out
}

// ------------------------------------------------------------------
// stripping and slicing helpers
// ------------------------------------------------------------------

/// All leading occurrences of `c` removed.
pub open spec fn skip_leading(s: Seq<char>, c: char) -> Seq<char>
    decreases s.len(),
{
    if s.len() > 0 && s[0] == c {
        skip_leading(s.skip(1), c)
    } else {
        s
    }
}

pub proof fn lemma_skip_leading_at(s: Seq<char>, c: char, a: int)
    requires
        0 <= a <= s.len(),
        forall|j: int| 0 <= j < a ==> s[j] == c,
        a < s.len() ==> s[a] != c,
    ensures
        skip_leading(s, c) == s.skip(a),
    decreases a,
{
    if a == 0 {
        assert(s.skip(0) =~= s);
    } else {
        assert forall|j: int| 0 <= j < a - 1 implies s.skip(1)[j] == c by {
            assert(s.skip(1)[j] == s[j + 1]);
        }
        if a < s.len() {
            assert(s.skip(1)[a - 1] == s[a]);
        }
        lemma_skip_leading_at(s.skip(1), c, a - 1);
        assert(s.skip(1).skip(a - 1) =~= s.skip(a));
    }
}

/// Remove every leading occurrence of `c`, as `str::trim_start_matches`
/// does for a single-character pattern.
pub fn strip_leading_char(s: &str, c: char) -> (r: String)
    ensures
        r@ == skip_leading(s@, c),
{
    let len = s.unicode_len();
    let mut a: usize = 0;
    while a < len && s.get_char(a) == c
        invariant
            0 <= a <= len,
            len == s@.len(),
            forall|j: int| 0 <= j < a ==> s@[j] == c,
        decreases len - a,
    {
        a = a + 1;
    }
    proof {
        lemma_skip_leading_at(s@, c, a as int);
    }
    let r = s.substring_char(a, len).to_owned();
    proof {
        assert(r@ =~= s@.skip(a as int));
    }
    r
}

/// All trailing occurrences of `c` removed.
pub open spec fn strip_trailing(s: Seq<char>, c: char) -> Seq<char>
    decreases s.len(),
{
    if s.len() > 0 && s.last() == c {
        strip_trailing(s.drop_last(), c)
    } else {
        s
    }
}

pub proof fn lemma_strip_trailing_at(s: Seq<char>, c: char, b: int)
    requires
        0 <= b <= s.len(),
        forall|j: int| b <= j < s.len() ==> s[j] == c,
        b > 0 ==> s[b - 1] != c,
    ensures
        strip_trailing(s, c) == s.take(b),
    decreases s.len() - b,
{
    if b == s.len() {
        assert(s.take(b) =~= s);
    } else {
        assert(s.last() == c);
        let t = s.drop_last();
        assert forall|j: int| b <= j < t.len() implies t[j] == c by {
            assert(t[j] == s[j]);
        }
        if b > 0 {
            assert(t[b - 1] == s[b - 1]);
        }
        lemma_strip_trailing_at(t, c, b);
        assert(t.take(b) =~= s.take(b));
    }
}

/// Remove every trailing occurrence of `c`, as `str::trim_end_matches`
/// does for a single-character pattern.
pub fn strip_trailing_char(s: &str, c: char) -> (r: String)
    ensures
        r@ == strip_trailing(s@, c),
{
    let len = s.unicode_len();
    let mut b: usize = len;
    while b > 0 && s.get_char(b - 1) == c
        invariant
            0 <= b <= len,
            len == s@.len(),
            forall|j: int| b <= j < len ==> s@[j] == c,
        decreases b,
    {
        b = b - 1;
    }
    proof {
        lemma_strip_trailing_at(s@, c, b as int);
    }
    let r = s.substring_char(0, b).to_owned();
    proof {
        assert(r@ =~= s@.take(b as int));
    }
    r
}

/// Leading and trailing occurrences of `c` removed, as
/// `str::trim_matches` does for a single-character pattern.
pub open spec fn strip_both(s: Seq<char>, c: char) -> Seq<char> {
    strip_trailing(skip_leading(s, c), c)
}

/// Remove `c` from both ends.
pub fn strip_both_char(s: &str, c: char) -> (r: String)
    ensures
        r@ == strip_both(s@, c),
{
    let lead = strip_leading_char(s, c);
    strip_trailing_char(lead.as_str(), c)
}

/// The piece between the first and second occurrence of `sep`: what
/// `split(sep).nth(1)` yields.
pub open spec fn piece1(s: Seq<char>, sep: char) -> Option<Seq<char>> {
    let p = split_char_spec(s, sep);
    if p.len() >= 2 {
        Some(p[1])
    } else {
        None
    }
}

/// The second piece of a split on `sep`, if the separator occurs.
pub fn piece1_str(s: &str, sep: char) -> (r: Option<String>)
    ensures
        match r {
            Some(v) => piece1(s@, sep) == Some(v@),
            None => piece1(s@, sep) is None,
        },
{
    let mut parts = split_char_str(s, sep);
    if parts.len() >= 2 {
        let v = parts.remove(1);
        proof {
            assert(v@ == split_char_spec(s@, sep)[1]);
        }
        Some(v)
    } else {
        None
    }
}

/// What comes before the first occurrence of `c`, or the whole string:
/// what `split(c).next()` yields.
pub open spec fn piece0(s: Seq<char>, c: char) -> Seq<char> {
    match find_char(s, c) {
        Some(i) => s.take(i),
        None => s,
    }
}

/// The first piece of a split on `c`.
pub fn piece0_str(s: &str, c: char) -> (r: String)
    ensures
        r@ == piece0(s@, c),
{
    match find_char_in(s, c) {
        Some(i) => {
            proof {
                lemma_find_char_props(s@, c);
            }
            let r = s.substring_char(0, i).to_owned();
            proof {
                assert(r@ =~= s@.take(i as int));
            }
            r
        },
        None => s.to_owned(),
    }
}

/// What `split(pat).nth(1)` yields for a string pattern: the text
/// between the first and second occurrence of `pat`, or everything
/// after the single occurrence.
pub open spec fn between_pat(s: Seq<char>, pat: Seq<char>) -> Option<Seq<char>> {
    match find_sub(s, pat) {
        None => None,
        Some(i) => {
            let rest = s.skip(i + pat.len());
            match find_sub(rest, pat) {
                None => Some(rest),
                Some(j) => Some(rest.take(j)),
            }
        },
    }
}

/// The second piece of a split on a string pattern.
pub fn between_pat_str(s: &str, pat: &str) -> (r: Option<String>)
    ensures
        match r {
            Some(v) => between_pat(s@, pat@) == Some(v@),
            None => between_pat(s@, pat@) is None,
        },
{
    match find_sub_in(s, pat) {
        None => None,
        Some(i) => {
            proof {
                lemma_find_sub_props(s@, pat@);
            }
            let len = s.unicode_len();
            let pl = p_len(pat);
            let rest = s.substring_char(i + pl, len);
            proof {
                assert(rest@ =~= s@.skip(i + pat@.len()));
            }
            match find_sub_in(rest, pat) {
                None => Some(rest.to_owned()),
                Some(j) => {
                    proof {
                        lemma_find_sub_props(rest@, pat@);
                    }
                    let v = rest.substring_char(0, j).to_owned();
                    proof {
                        assert(v@ =~= rest@.take(j as int));
                    }
                    Some(v)
                },
            }
        },
    }
}

fn p_len(p: &str) -> (r: usize)
    ensures
        r == p@.len(),
{
    p.unicode_len()
}

// ------------------------------------------------------------------
// ASCII case folding
// ------------------------------------------------------------------

/// ASCII lower-casing of one character; everything else is unchanged.
pub open spec fn lower_char(c: char) -> char {
    if 'A' <= c && c <= 'Z' {
        (((c as u8) + 32) as char)
    } else {
        c
    }
}

/// ASCII lower-casing of a text.
pub open spec fn lower_seq(s: Seq<char>) -> Seq<char> {
    s.map_values(|c: char| lower_char(c))
}

fn lower_char_exec(c: char) -> (r: char)
    ensures
        r == lower_char(c),
{
    if 'A' <= c && c <= 'Z' {
        ((c as u8) + 32) as char
    } else {
        c
    }
}

/// Whether the ASCII-lowered text starts with the (already lowered)
/// prefix.
pub fn starts_with_lower(s: &str, p: &str) -> (r: bool)
    ensures
        r == starts_with_spec(lower_seq(s@), p@),
{
    let sl = s.unicode_len();
    let pl = p.unicode_len();
    if pl > sl {
        return false;
    }
    let mut i: usize = 0;
    while i < pl
        invariant
            0 <= i <= pl <= sl,
            sl == s@.len(),
            pl == p@.len(),
            forall|j: int| 0 <= j < i ==> lower_seq(s@)[j] == p@[j],
        decreases pl - i,
    {
        if lower_char_exec(s.get_char(i)) != p.get_char(i) {
            assert(lower_seq(s@).take(pl as int)[i as int] != p@[i as int]);
            return false;
        }
        i = i + 1;
    }
    proof {
        assert(lower_seq(s@).take(pl as int) =~= p@);
    }
    true
}

/// Whether the ASCII-lowered text contains the (already lowered)
/// pattern.
pub fn contains_lower(s: &str, p: &str) -> (r: bool)
    ensures
        r == contains_sub(lower_seq(s@), p@),
{
    let ghost low = lower_seq(s@);
    let sl = s.unicode_len();
    let pl = p.unicode_len();
    if pl > sl {
        return false;
    }
    if pl == 0 {
        proof {
            assert(low.take(0) =~= p@);
        }
        return true;
    }
    let mut i: usize = 0;
    while i <= sl - pl
        invariant
            0 <= i <= sl - pl + 1,
            0 < pl <= sl,
            low == lower_seq(s@),
            sl == s@.len(),
            sl == low.len(),
            pl == p@.len(),
            forall|j: int| 0 <= j < i ==> #[trigger] low.subrange(j, j + pl as int) != p@,
        decreases sl - pl + 1 - i,
    {
        let mut k: usize = 0;
        let mut matched = true;
        while k < pl
            invariant
                0 <= k <= pl,
                0 <= i,
                i + pl <= sl,
                low == lower_seq(s@),
                sl == s@.len(),
                sl == low.len(),
                pl == p@.len(),
                matched ==> forall|m: int| 0 <= m < k ==> low[i + m] == p@[m],
                !matched ==> low.subrange(i as int, i + pl as int) != p@,
            decreases pl - k,
        {
            if lower_char_exec(s.get_char(i + k)) != p.get_char(k) {
                proof {
                    assert(low.subrange(i as int, i + pl as int)[k as int] == low[i + k]);
                }
                matched = false;
                k = pl;
            } else {
                k = k + 1;
            }
        }
        if matched {
            proof {
                assert(low.subrange(i as int, i + pl as int) =~= p@);
                lemma_find_sub_at(low, p@, i as int);
            }
            return true;
        }
        i = i + 1;
    }
    proof {
        lemma_find_sub_props(low, p@);
    }
    false
}

/// Whether the ASCII-lowered text equals the (already lowered) word.
pub fn eq_lower(s: &str, p: &str) -> (r: bool)
    ensures
        r == (lower_seq(s@) == p@),
{
    let sl = s.unicode_len();
    let pl = p.unicode_len();
    if sl != pl {
        return false;
    }
    let mut i: usize = 0;
    while i < pl
        invariant
            0 <= i <= pl == sl,
            sl == s@.len(),
            pl == p@.len(),
            forall|j: int| 0 <= j < i ==> lower_seq(s@)[j] == p@[j],
        decreases pl - i,
    {
        if lower_char_exec(s.get_char(i)) != p.get_char(i) {
            return false;
        }
        i = i + 1;
    }
    proof {
        assert(lower_seq(s@) =~= p@);
    }
    true
}

/// Everything after the first occurrence of `c`, rejoined: what
/// `split(c).skip(1).collect().join(c)` yields, or nothing when `c`
/// does not occur.
pub open spec fn after_first(s: Seq<char>, c: char) -> Seq<char> {
    match find_char(s, c) {
        Some(i) => s.skip(i + 1),
        None => Seq::<char>::empty(),
    }
}

/// Everything after the first occurrence of `c`.
pub fn after_first_str(s: &str, c: char) -> (r: String)
    ensures
        r@ == after_first(s@, c),
{
    match find_char_in(s, c) {
        Some(i) => {
            proof {
                lemma_find_char_props(s@, c);
            }
            let len = s.unicode_len();
            let r = s.substring_char(i + 1, len).to_owned();
            proof {
                assert(r@ =~= s@.skip(i + 1));
            }
            r
        },
        None => String::new(),
    }
}

/// The view of an optional string.
pub open spec fn opt_view(o: Option<String>) -> Option<Seq<char>> {
    match o {
        Some(s) => Some(s@),
        None => None,
    }
}

/// Nondecreasing in lexicographic order.
pub open spec fn sorted_lex(s: Seq<Seq<char>>) -> bool {
    forall|i: int, j: int| 0 <= i <= j < s.len() ==> lex_le(s[i], s[j])
}

pub proof fn lemma_insert_sorted_lex_props(x: Seq<char>, s: Seq<Seq<char>>)
    requires
        sorted_lex(s),
    ensures
        sorted_lex(insert_sorted_lex(x, s)),
        insert_sorted_lex(x, s).len() == s.len() + 1,
        forall|j: int|
            0 <= j < insert_sorted_lex(x, s).len() ==> insert_sorted_lex(x, s)[j] == x
                || s.contains(#[trigger] insert_sorted_lex(x, s)[j]),
    decreases s.len(),
{
    let r = insert_sorted_lex(x, s);
    if s.len() == 0 {
        lemma_lex_total(x, x);
        assert(r[0] == x);
    } else if lex_le(x, s[0]) {
        assert forall|i: int, j: int| 0 <= i <= j < r.len() implies lex_le(r[i], r[j]) by {
            if i == 0 && j > 0 {
                assert(r[j] == s[j - 1]);
                assert(lex_le(s[0], s[j - 1]));
                lemma_lex_trans(x, s[0], s[j - 1]);
            } else if i > 0 {
                assert(r[i] == s[i - 1] && r[j] == s[j - 1]);
            } else {
                lemma_lex_total(x, x);
            }
        }
        assert forall|j: int| 0 <= j < r.len() implies r[j] == x || s.contains(
            #[trigger] r[j],
        ) by {
            if j > 0 {
                assert(r[j] == s[j - 1]);
            }
        }
    } else {
        lemma_lex_total(x, s[0]);
        assert(lex_le(s[0], x));
        let tail = s.skip(1);
        assert forall|i: int, j: int| 0 <= i <= j < tail.len() implies lex_le(
            tail[i],
            tail[j],
        ) by {
            assert(tail[i] == s[i + 1] && tail[j] == s[j + 1]);
        }
        lemma_insert_sorted_lex_props(x, tail);
        let rec = insert_sorted_lex(x, tail);
        assert forall|i: int, j: int| 0 <= i <= j < r.len() implies lex_le(r[i], r[j]) by {
            if i == 0 && j == 0 {
                lemma_lex_total(s[0], s[0]);
            } else if i == 0 && j > 0 {
                assert(r[j] == rec[j - 1]);
                assert(rec[j - 1] == x || tail.contains(rec[j - 1]));
                if rec[j - 1] == x {
                } else {
                    let w = choose|w: int| 0 <= w < tail.len() && tail[w] == rec[j - 1];
                    assert(lex_le(s[0], s[w + 1]));
                }
            } else if i > 0 {
                assert(r[i] == rec[i - 1] && r[j] == rec[j - 1]);
            }
        }
        assert forall|j: int| 0 <= j < r.len() implies r[j] == x || s.contains(
            #[trigger] r[j],
        ) by {
            if j > 0 {
                assert(r[j] == rec[j - 1]);
                if rec[j - 1] != x {
                    let w = choose|w: int| 0 <= w < tail.len() && tail[w] == rec[j - 1];
                    assert(s[w + 1] == rec[j - 1]);
                }
            } else {
                assert(r[0] == s[0]);
            }
        }
    }
}

/// The insertion sort really sorts.
pub proof fn lemma_sort_lex_sorted(s: Seq<Seq<char>>)
    ensures
        sorted_lex(sort_lex(s)),
        sort_lex(s).len() == s.len(),
    decreases s.len(),
{
    if s.len() > 0 {
        lemma_sort_lex_sorted(s.skip(1));
        lemma_insert_sorted_lex_props(s[0], sort_lex(s.skip(1)));
    }
}

/// Removing adjacent duplicates from a sorted list leaves a strictly
/// ascending list.
pub proof fn lemma_dedup_adj_strict(s: Seq<Seq<char>>)
    requires
        sorted_lex(s),
    ensures
        sorted_lex(dedup_adj(s)),
        forall|i: int, j: int| 0 <= i < j < dedup_adj(s).len() ==> dedup_adj(s)[i] != dedup_adj(
            s,
        )[j],
        forall|j: int| 0 <= j < dedup_adj(s).len() ==> s.contains(#[trigger] dedup_adj(s)[j]),
    decreases s.len(),
{
    let r = dedup_adj(s);
    if s.len() <= 1 {
        assert forall|j: int| 0 <= j < r.len() implies s.contains(#[trigger] r[j]) by {
            assert(r[j] == s[j]);
        }
    } else {
        let tail = s.skip(1);
        assert forall|i: int, j: int| 0 <= i <= j < tail.len() implies lex_le(
            tail[i],
            tail[j],
        ) by {
            assert(tail[i] == s[i + 1] && tail[j] == s[j + 1]);
        }
        lemma_dedup_adj_strict(tail);
        let rec = dedup_adj(tail);
        if s[0] == s[1] {
            assert forall|j: int| 0 <= j < r.len() implies s.contains(#[trigger] r[j]) by {
                let w = choose|w: int| 0 <= w < tail.len() && tail[w] == rec[j];
                assert(s[w + 1] == r[j]);
            }
        } else {
            assert forall|j: int| 0 <= j < r.len() implies s.contains(#[trigger] r[j]) by {
                if j > 0 {
                    assert(r[j] == rec[j - 1]);
                    let w = choose|w: int| 0 <= w < tail.len() && tail[w] == rec[j - 1];
                    assert(s[w + 1] == r[j]);
                } else {
                    assert(r[0] == s[0]);
                }
            }
            assert forall|i: int, j: int| 0 <= i <= j < r.len() implies lex_le(r[i], r[j]) by {
                if i == 0 && j > 0 {
                    assert(r[j] == rec[j - 1]);
                    let w = choose|w: int| 0 <= w < tail.len() && tail[w] == rec[j - 1];
                    assert(lex_le(s[0], s[w + 1]));
                } else if i > 0 {
                    assert(r[i] == rec[i - 1] && r[j] == rec[j - 1]);
                } else {
                    lemma_lex_total(s[0], s[0]);
                }
            }
            assert forall|i: int, j: int| 0 <= i < j < r.len() implies r[i] != r[j] by {
                if i > 0 {
                    assert(r[i] == rec[i - 1] && r[j] == rec[j - 1]);
                } else {
                    assert(r[j] == rec[j - 1]);
                    let w = choose|w: int| 0 <= w < tail.len() && tail[w] == rec[j - 1];
                    if r[0] == r[j] {
                        assert(lex_le(s[1], s[w + 1]));
                        assert(lex_le(s[0], s[1]));
                        assert(lex_le(s[1], s[0])) by {
                            assert(s[w + 1] == s[0]);
                        }
                        lemma_lex_antisym(s[0], s[1]);
                        assert(false);
                    }
                }
            }
        }
    }
}

} // verus!
