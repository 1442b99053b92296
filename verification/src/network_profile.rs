//! The host-table file and machine naming: parsing the table, writing
//! it back with its leading comments preserved, and validating a new
//! machine name.  Applying any of it to the system happens in the
//! caller.

use vstd::prelude::*;
use vstd::string::StrSliceExecFns;
use vstd::string::StringExecFns;
use crate::text::{
    lines_spec, opt_view, split_lines, split_whitespace_str, split_ws, trim_spec, trim_str,
    views_of,
};

verus! {

/// One row of the host-table file.
#[derive(Clone, Debug)]
pub struct HostsEntry {
    pub ip: String,
    pub hostname: String,
    pub comment: Option<String>,
}

/// Words joined by single spaces.
pub open spec fn join_sp(ws: Seq<Seq<char>>) -> Seq<char>
    decreases ws.len(),
{
    if ws.len() == 0 {
        Seq::<char>::empty()
    } else if ws.len() == 1 {
        ws[0]
    } else {
        ws[0].add(seq![' ']).add(join_sp(ws.skip(1)))
    }
}

fn join_sp_from(ws: &Vec<String>, i: usize) -> (r: String)
    requires
        i <= ws@.len(),
    ensures
        r@ == join_sp(views_of(ws@).skip(i as int)),
    decreases ws@.len() - i,
{
    proof {
        reveal_strlit(" ");
    }
    if i >= ws.len() {
        proof {
            assert(views_of(ws@).skip(i as int).len() == 0);
        }
        String::new()
    } else if i == ws.len() - 1 {
        proof {
            assert(views_of(ws@).skip(i as int).len() == 1);
            assert(views_of(ws@).skip(i as int)[0] == ws@[i as int]@);
        }
        ws[i].clone()
    } else {
        let mut s = ws[i].clone();
        s.append(" ");
        let rest = join_sp_from(ws, i + 1);
        s.append(rest.as_str());
        proof {
            let wv = views_of(ws@);
            assert(wv.skip(i as int)[0] == ws@[i as int]@);
            assert(wv.skip(i as int).skip(1) =~= wv.skip(i + 1));
            assert(" "@ =~= seq![' ']);
            assert(s@ =~= join_sp(wv.skip(i as int)));
        }
        s
    }
}

/// The entry on one line of the file: comments and blanks yield
/// nothing; a line of at least two words yields address, name, and
/// the remaining words as a comment.
pub open spec fn hosts_line(line: Seq<char>) -> Seq<(Seq<char>, Seq<char>, Option<Seq<char>>)> {
    let t = trim_spec(line);
    if t.len() == 0 || t[0] == '#' {
        Seq::<(Seq<char>, Seq<char>, Option<Seq<char>>)>::empty()
    } else {
        let w = split_ws(t);
        if w.len() >= 2 {
            seq![
                (
                    w[0],
                    w[1],
                    if w.len() > 2 {
                        Some(join_sp(w.skip(2)))
                    } else {
                        None::<Seq<char>>
                    },
                ),
            ]
        } else {
            Seq::<(Seq<char>, Seq<char>, Option<Seq<char>>)>::empty()
        }
    }
}

pub open spec fn hosts_all(ls: Seq<Seq<char>>) -> Seq<(Seq<char>, Seq<char>, Option<Seq<char>>)>
    decreases ls.len(),
{
    if ls.len() == 0 {
        Seq::<(Seq<char>, Seq<char>, Option<Seq<char>>)>::empty()
    } else {
        hosts_line(ls[0]).add(hosts_all(ls.skip(1)))
    }
}

/// The fields of each entry, as plain values.
pub open spec fn hosts_views(v: Seq<HostsEntry>) -> Seq<
    (Seq<char>, Seq<char>, Option<Seq<char>>),
> {
    v.map_values(|e: HostsEntry| (e.ip@, e.hostname@, opt_view(e.comment)))
}

/// Parse the host-table file's text into its entries.
pub fn parse_hosts_content(content: &str) -> (r: Vec<HostsEntry>)
    ensures
        hosts_views(r@) == hosts_all(lines_spec(content@)),
{
    let ls = split_lines(content);
    let ghost lv = lines_spec(content@);
    let n = ls.len();
    let mut out: Vec<HostsEntry> = Vec::new();
    let mut k: usize = 0;
    proof {
        assert(lv.skip(0) =~= lv);
        assert(hosts_views(out@) =~~= Seq::<(Seq<char>, Seq<char>, Option<Seq<char>>)>::empty());
    }
    while k < n
        invariant
            0 <= k <= n,
            n == ls@.len(),
            views_of(ls@) == lv,
            hosts_all(lv) == hosts_views(out@).add(hosts_all(lv.skip(k as int))),
        decreases n - k,
    {
        proof {
            assert(lv.skip(k as int)[0] == lv[k as int]);
            assert(lv[k as int] == ls@[k as int]@);
            assert(lv.skip(k as int).skip(1) =~= lv.skip(k + 1));
        }
        let t = trim_str(ls[k].as_str());
        let tlen = t.as_str().unicode_len();
        let mut pushed = false;
        if tlen > 0 && t.as_str().get_char(0) != '#' {
            let w = split_whitespace_str(t.as_str());
            if w.len() >= 2 {
                let ghost wv = split_ws(t@);
                let comment: Option<String> = if w.len() > 2 {
                    Some(join_sp_from(&w, 2))
                } else {
                    None
                };
                let mut w2 = w;
                let hostname = w2.remove(1);
                let ip = w2.remove(0);
                proof {
                    assert(ip@ == wv[0] && hostname@ == wv[1]);
                    assert(wv.skip(2) =~= split_ws(t@).skip(2));
                }
                let ghost out0 = out@;
                let entry = HostsEntry { ip, hostname, comment };
                let ghost entv = (entry.ip@, entry.hostname@, opt_view(entry.comment));
                out.push(entry);
                pushed = true;
                proof {
                    assert(hosts_views(out@) =~~= hosts_views(out0).push(entv));
                    assert(hosts_line(lv[k as int]) =~~= seq![entv]);
                }
            }
        }
        proof {
            if !pushed {
                assert(hosts_line(lv[k as int]) =~~= Seq::<
                    (Seq<char>, Seq<char>, Option<Seq<char>>),
                >::empty());
            }
            assert(hosts_all(lv) =~~= hosts_views(out@).add(hosts_all(lv.skip(k + 1))));
        }
        k = k + 1;
    }
    proof {
        assert(lv.skip(n as int).len() == 0);
        assert(hosts_all(lv.skip(n as int)) =~~= Seq::<
            (Seq<char>, Seq<char>, Option<Seq<char>>),
        >::empty());
        assert(hosts_views(out@) =~~= hosts_all(lv));
    }
    out
}

/// Whether a character counts as alphanumeric under the standard
/// library's Unicode tables.
pub uninterp spec fn is_unicode_alnum(c: char) -> bool;

/// Relies on `char::is_alphanumeric`: the classification depends on
/// the character alone.
#[verifier::external_body]
fn char_is_alphanumeric(c: char) -> (r: bool)
    ensures
        r == is_unicode_alnum(c),
{
    c.is_alphanumeric()
}

pub open spec fn valid_name_char(c: char) -> bool {
    is_unicode_alnum(c) || c == '-'
}

/// Check a new machine name: one to fifteen characters, letters,
/// digits and hyphens only.
pub fn validate_computer_name(name: &str) -> (r: Result<(), String>)
    ensures
        name@.len() == 0 || name@.len() > 15 ==> (r matches Err(e) && e@
            == "Computer-Name muss 1-15 Zeichen lang sein"@),
        1 <= name@.len() <= 15 && (forall|i: int|
            0 <= i < name@.len() ==> valid_name_char(#[trigger] name@[i])) ==> r is Ok,
        1 <= name@.len() <= 15 && !(forall|i: int|
            0 <= i < name@.len() ==> valid_name_char(#[trigger] name@[i])) ==> (r matches Err(e)
            && e@ == "Computer-Name darf nur Buchstaben, Zahlen und Bindestriche enthalten"@),
{
    let len = name.unicode_len();
    if len == 0 || len > 15 {
        return Err("Computer-Name muss 1-15 Zeichen lang sein".to_owned());
    }
    let mut i: usize = 0;
    while i < len
        invariant
            0 <= i <= len,
            1 <= len <= 15,
            len == name@.len(),
            forall|j: int| 0 <= j < i ==> valid_name_char(#[trigger] name@[j]),
        decreases len - i,
    {
        let c = name.get_char(i);
        if !(char_is_alphanumeric(c) || c == '-') {
            return Err(
                "Computer-Name darf nur Buchstaben, Zahlen und Bindestriche enthalten".to_owned(),
            );
        }
        i = i + 1;
    }
    Ok(())
}

} // verus!
