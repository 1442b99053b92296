//! Parsing the neighbour table as the system's table-listing tool
//! prints it: interface headers set the current interface, data rows
//! with a plausible hardware address become entries.

use vstd::prelude::*;
use vstd::string::StrSliceExecFns;
use crate::text::{
    contains_str, contains_sub, lines_spec, split_lines, split_whitespace_str, split_ws,
    starts_with_spec, starts_with_str, trim_spec, trim_str,
};

verus! {

/// One row of the neighbour table.
#[derive(Clone, Debug)]
pub struct ArpEntry {
    pub ip: String,
    pub mac: String,
    pub interface: String,
    pub entry_type: String,
}

/// The whole table.
#[derive(Clone, Debug)]
pub struct ArpResult {
    pub entries: Vec<ArpEntry>,
    pub count: usize,
}

/// The fields of each entry, as plain character sequences.
pub open spec fn arp_views(v: Seq<ArpEntry>) -> Seq<(Seq<char>, Seq<char>, Seq<char>, Seq<char>)> {
    v.map_values(|e: ArpEntry| (e.ip@, e.mac@, e.interface@, e.entry_type@))
}

/// The entries contributed by each line: an interface header switches
/// the current interface; header and separator rows are skipped; a row
/// of at least three words whose second word looks like a hardware
/// address becomes an entry under the current interface.
pub open spec fn arp_lines(ls: Seq<Seq<char>>, iface: Seq<char>) -> Seq<
    (Seq<char>, Seq<char>, Seq<char>, Seq<char>),
>
    decreases ls.len(),
{
    if ls.len() == 0 {
        Seq::<(Seq<char>, Seq<char>, Seq<char>, Seq<char>)>::empty()
    } else {
        let t = trim_spec(ls[0]);
        if starts_with_spec(t, "Interface:"@) {
            let w = split_ws(t);
            if w.len() >= 2 {
                arp_lines(ls.skip(1), w[1])
            } else {
                arp_lines(ls.skip(1), iface)
            }
        } else if t.len() == 0 || starts_with_spec(t, "Internet Address"@) || starts_with_spec(
            t,
            "---"@,
        ) {
            arp_lines(ls.skip(1), iface)
        } else {
            let w = split_ws(t);
            if w.len() >= 3 && (contains_sub(w[1], "-"@) || contains_sub(w[1], ":"@)) {
                seq![(w[0], w[1], iface, w[2])].add(arp_lines(ls.skip(1), iface))
            } else {
                arp_lines(ls.skip(1), iface)
            }
        }
    }
}

/// Parse the table-listing tool's output into entries.
pub fn parse_arp_output(output: &str) -> (r: Vec<ArpEntry>)
    ensures
        arp_views(r@) == arp_lines(lines_spec(output@), Seq::<char>::empty()),
{
    let ls = split_lines(output);
    let ghost lv = lines_spec(output@);
    let n = ls.len();
    let mut out: Vec<ArpEntry> = Vec::new();
    let mut iface = String::new();
    let mut k: usize = 0;
    proof {
        assert(lv.skip(0) =~= lv);
        assert(arp_views(out@) =~~= Seq::<(Seq<char>, Seq<char>, Seq<char>, Seq<char>)>::empty());
    }
    while k < n
        invariant
            0 <= k <= n,
            n == ls@.len(),
            crate::text::views_of(ls@) == lv,
            arp_lines(lv, Seq::<char>::empty()) == arp_views(out@).add(
                arp_lines(lv.skip(k as int), iface@),
            ),
        decreases n - k,
    {
        proof {
            assert(lv.skip(k as int)[0] == lv[k as int]);
            assert(lv[k as int] == ls@[k as int]@);
            assert(lv.skip(k as int).skip(1) =~= lv.skip(k + 1));
        }
        let t = trim_str(ls[k].as_str());
        if starts_with_str(t.as_str(), "Interface:") {
            let w = split_whitespace_str(t.as_str());
            if w.len() >= 2 {
                let ghost wv = split_ws(t@);
                let mut w2 = w;
                let picked = w2.remove(1);
                proof {
                    assert(picked@ == wv[1]);
                }
                iface = picked;
            }
        } else if t.as_str().is_empty() || starts_with_str(t.as_str(), "Internet Address")
            || starts_with_str(t.as_str(), "---") {
        } else {
            let w = split_whitespace_str(t.as_str());
            if w.len() >= 3 {
                if contains_str(w[1].as_str(), "-") || contains_str(w[1].as_str(), ":") {
                    let ghost wv = split_ws(t@);
                    let ghost out0 = out@;
                    let mut w2 = w;
                    let entry_type = w2.remove(2);
                    let mac = w2.remove(1);
                    let ip = w2.remove(0);
                    proof {
                        assert(ip@ == wv[0] && mac@ == wv[1] && entry_type@ == wv[2]);
                    }
                    let entry = ArpEntry { ip, mac, interface: iface.clone(), entry_type };
                    let ghost entv = (entry.ip@, entry.mac@, entry.interface@, entry.entry_type@);
                    out.push(entry);
                    proof {
                        assert(entry.interface@ == iface@) by {
                            assert(iface@ == iface@);
                        }
                        assert(arp_views(out@) =~~= arp_views(out0).push(entv));
                        assert(arp_views(out0).add(
                            seq![entv].add(arp_lines(lv.skip(k + 1), iface@)),
                        ) =~~= arp_views(out@).add(arp_lines(lv.skip(k + 1), iface@)));
                    }
                }
            }
        }
        k = k + 1;
    }
    proof {
        assert(lv.skip(n as int).len() == 0);
        assert(arp_lines(lv.skip(n as int), iface@) =~~= Seq::<
            (Seq<char>, Seq<char>, Seq<char>, Seq<char>),
        >::empty());
        assert(arp_views(out@) =~~= arp_lines(lv, Seq::<char>::empty()));
    }
    out
}

/// The table with its row count.
pub fn assemble_arp_result(entries: Vec<ArpEntry>) -> (r: ArpResult)
    ensures
        r.entries@ == entries@,
        r.count == entries@.len(),
{
    let count = entries.len();
    ArpResult { entries, count }
}

} // verus!
