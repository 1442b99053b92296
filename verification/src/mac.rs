//! Hardware-address formatting and vendor lookup against the built-in
//! table of well-known address prefixes.

use vstd::prelude::*;
use vstd::string::StrSliceExecFns;
use vstd::string::StringExecFns;
use crate::text::{
    byte_to_hex, contains_str, contains_sub, dec_str, hex2, is_digit, str_eq_str, trim_spec,
    trim_str, u64_to_dec,
};

verus! {

/// The eight renderings of one hardware address.
#[derive(Clone, Debug)]
pub struct MacFormats {
    pub colon_upper: String,
    pub colon_lower: String,
    pub hyphen_upper: String,
    pub hyphen_lower: String,
    pub dot_upper: String,
    pub dot_lower: String,
    pub no_separator: String,
    pub cisco: String,
}

/// A parsed hardware address with its renderings and vendor.
#[derive(Clone, Debug)]
pub struct MacResult {
    pub original: String,
    pub formats: MacFormats,
    pub vendor: Option<String>,
    pub is_valid: bool,
}

/// The key and vendor of each table row, as plain character sequences.
pub open spec fn oui_views(v: Seq<(&'static str, &'static str)>) -> Seq<(Seq<char>, Seq<char>)> {
    v.map_values(|p: (&'static str, &'static str)| (p.0@, p.1@))
}


pub open spec fn oui_entry_g0(i: int) -> (Seq<char>, Seq<char>) {
    if i == 0 {
        ("00:00:0C"@, "Cisco Systems"@)
    } else if i == 1 {
        ("00:01:42"@, "Cisco Systems"@)
    } else if i == 2 {
        ("00:1A:A0"@, "Dell Inc."@)
    } else if i == 3 {
        ("00:14:22"@, "Dell Inc."@)
    } else if i == 4 {
        ("00:50:56"@, "VMware"@)
    } else if i == 5 {
        ("00:0C:29"@, "VMware"@)
    } else if i == 6 {
        ("00:15:5D"@, "Microsoft Hyper-V"@)
    } else if i == 7 {
        ("00:03:FF"@, "Microsoft"@)
    } else if i == 8 {
        ("00:0D:3A"@, "Microsoft Azure"@)
    } else {
        ("00:1C:42"@, "Parallels"@)
    }
}

pub open spec fn oui_entry_g1(i: int) -> (Seq<char>, Seq<char>) {
    if i == 10 {
        ("08:00:27"@, "Oracle VirtualBox"@)
    } else if i == 11 {
        ("52:54:00"@, "QEMU/KVM"@)
    } else if i == 12 {
        ("00:16:3E"@, "Xen"@)
    } else if i == 13 {
        ("00:1A:4A"@, "Qumranet (KVM)"@)
    } else if i == 14 {
        ("AC:DE:48"@, "Private (LAA)"@)
    } else if i == 15 {
        ("00:25:90"@, "Super Micro Computer"@)
    } else if i == 16 {
        ("00:30:48"@, "Supermicro"@)
    } else if i == 17 {
        ("D4:BE:D9"@, "Dell Inc."@)
    } else if i == 18 {
        ("B8:AC:6F"@, "Dell Inc."@)
    } else {
        ("34:17:EB"@, "Dell Inc."@)
    }
}

pub open spec fn oui_entry_g2(i: int) -> (Seq<char>, Seq<char>) {
    if i == 20 {
        ("00:1E:67"@, "Intel Corporate"@)
    } else if i == 21 {
        ("00:1F:3C"@, "Intel Corporate"@)
    } else if i == 22 {
        ("00:22:FA"@, "Intel Corporate"@)
    } else if i == 23 {
        ("3C:FD:FE"@, "Intel Corporate"@)
    } else if i == 24 {
        ("A4:BF:01"@, "Intel Corporate"@)
    } else if i == 25 {
        ("00:24:D7"@, "Intel Corporate"@)
    } else if i == 26 {
        ("00:1B:21"@, "Intel Corporate"@)
    } else if i == 27 {
        ("00:13:20"@, "Intel Corporate"@)
    } else if i == 28 {
        ("00:02:B3"@, "Intel Corporate"@)
    } else {
        ("00:AA:00"@, "Intel Corporate"@)
    }
}

pub open spec fn oui_entry_g3(i: int) -> (Seq<char>, Seq<char>) {
    if i == 30 {
        ("00:25:00"@, "Apple, Inc."@)
    } else if i == 31 {
        ("00:1E:C2"@, "Apple, Inc."@)
    } else if i == 32 {
        ("00:23:6C"@, "Apple, Inc."@)
    } else if i == 33 {
        ("00:25:BC"@, "Apple, Inc."@)
    } else if i == 34 {
        ("28:CF:DA"@, "Apple, Inc."@)
    } else if i == 35 {
        ("3C:15:C2"@, "Apple, Inc."@)
    } else if i == 36 {
        ("70:CD:60"@, "Apple, Inc."@)
    } else if i == 37 {
        ("98:01:A7"@, "Apple, Inc."@)
    } else if i == 38 {
        ("AC:BC:32"@, "Apple, Inc."@)
    } else {
        ("00:17:F2"@, "Apple, Inc."@)
    }
}

pub open spec fn oui_entry_g4(i: int) -> (Seq<char>, Seq<char>) {
    if i == 40 {
        ("00:1F:F3"@, "Apple, Inc."@)
    } else if i == 41 {
        ("58:55:CA"@, "Apple, Inc."@)
    } else if i == 42 {
        ("60:03:08"@, "Apple, Inc."@)
    } else if i == 43 {
        ("78:CA:39"@, "Apple, Inc."@)
    } else if i == 44 {
        ("00:26:B0"@, "Apple, Inc."@)
    } else if i == 45 {
        ("00:26:BB"@, "Apple, Inc."@)
    } else if i == 46 {
        ("F0:B4:79"@, "HP Inc."@)
    } else if i == 47 {
        ("00:1E:0B"@, "HP Inc."@)
    } else if i == 48 {
        ("00:21:5A"@, "HP Inc."@)
    } else {
        ("00:25:B3"@, "HP Inc."@)
    }
}

pub open spec fn oui_entry_g5(i: int) -> (Seq<char>, Seq<char>) {
    if i == 50 {
        ("2C:27:D7"@, "HP Inc."@)
    } else if i == 51 {
        ("38:63:BB"@, "HP Inc."@)
    } else if i == 52 {
        ("00:30:6E"@, "HP Inc."@)
    } else if i == 53 {
        ("00:17:A4"@, "HP Inc."@)
    } else if i == 54 {
        ("00:14:38"@, "HP Inc."@)
    } else if i == 55 {
        ("00:0B:CD"@, "HP Inc."@)
    } else if i == 56 {
        ("08:00:09"@, "HP Inc."@)
    } else if i == 57 {
        ("EC:B1:D7"@, "HP Inc."@)
    } else if i == 58 {
        ("00:1A:6B"@, "Universal Global Scientific Industrial"@)
    } else {
        ("00:E0:4C"@, "Realtek Semiconductor"@)
    }
}

pub open spec fn oui_entry_g6(i: int) -> (Seq<char>, Seq<char>) {
    if i == 60 {
        ("52:54:AB"@, "Realtek (QEMU)"@)
    } else if i == 61 {
        ("00:0A:CD"@, "Sunrich Technology"@)
    } else if i == 62 {
        ("00:1D:7D"@, "Giga-Byte Technology"@)
    } else if i == 63 {
        ("50:E5:49"@, "GIGA-BYTE Technology"@)
    } else if i == 64 {
        ("1C:83:41"@, "GIGA-BYTE Technology"@)
    } else if i == 65 {
        ("00:1E:8C"@, "ASUSTek Computer"@)
    } else if i == 66 {
        ("00:1A:92"@, "ASUSTek Computer"@)
    } else if i == 67 {
        ("00:15:F2"@, "ASUSTek Computer"@)
    } else if i == 68 {
        ("00:13:D4"@, "ASUSTek Computer"@)
    } else {
        ("00:0E:A6"@, "ASUSTek Computer"@)
    }
}

pub open spec fn oui_entry_g7(i: int) -> (Seq<char>, Seq<char>) {
    if i == 70 {
        ("BC:EE:7B"@, "ASUSTek Computer"@)
    } else if i == 71 {
        ("00:22:15"@, "ASUSTek Computer"@)
    } else if i == 72 {
        ("00:24:8C"@, "ASUSTek Computer"@)
    } else if i == 73 {
        ("20:CF:30"@, "ASUSTek Computer"@)
    } else if i == 74 {
        ("30:85:A9"@, "ASUSTek Computer"@)
    } else if i == 75 {
        ("54:04:A6"@, "ASUSTek Computer"@)
    } else if i == 76 {
        ("60:45:BD"@, "Microsoft"@)
    } else if i == 77 {
        ("7C:1E:52"@, "Microsoft"@)
    } else if i == 78 {
        ("28:18:78"@, "Microsoft"@)
    } else {
        ("00:1D:D8"@, "Microsoft"@)
    }
}

pub open spec fn oui_entry_g8(i: int) -> (Seq<char>, Seq<char>) {
    if i == 80 {
        ("B4:0E:DE"@, "Samsung Electronics"@)
    } else if i == 81 {
        ("00:12:47"@, "Samsung Electronics"@)
    } else if i == 82 {
        ("00:15:99"@, "Samsung Electronics"@)
    } else if i == 83 {
        ("00:16:32"@, "Samsung Electronics"@)
    } else if i == 84 {
        ("00:17:D5"@, "Samsung Electronics"@)
    } else if i == 85 {
        ("00:1A:8A"@, "Samsung Electronics"@)
    } else if i == 86 {
        ("00:21:19"@, "Samsung Electronics"@)
    } else if i == 87 {
        ("00:23:39"@, "Samsung Electronics"@)
    } else if i == 88 {
        ("00:24:54"@, "Samsung Electronics"@)
    } else {
        ("00:25:66"@, "Samsung Electronics"@)
    }
}

pub open spec fn oui_entry_g9(i: int) -> (Seq<char>, Seq<char>) {
    if i == 90 {
        ("00:26:37"@, "Samsung Electronics"@)
    } else if i == 91 {
        ("5C:0A:5B"@, "Samsung Electronics"@)
    } else if i == 92 {
        ("84:25:DB"@, "Samsung Electronics"@)
    } else if i == 93 {
        ("90:18:7C"@, "Samsung Electronics"@)
    } else if i == 94 {
        ("A8:F2:74"@, "Samsung Electronics"@)
    } else if i == 95 {
        ("BC:44:86"@, "Samsung Electronics"@)
    } else if i == 96 {
        ("C4:73:1E"@, "Samsung Electronics"@)
    } else if i == 97 {
        ("E4:7C:F9"@, "Samsung Electronics"@)
    } else if i == 98 {
        ("F8:D0:BD"@, "Samsung Electronics"@)
    } else {
        ("CC:07:AB"@, "Samsung Electronics"@)
    }
}

/// The table row at one index.
pub open spec fn oui_entry(i: int) -> (Seq<char>, Seq<char>) {
    if i < 10 {
        oui_entry_g0(i)
    } else if i < 20 {
        oui_entry_g1(i)
    } else if i < 30 {
        oui_entry_g2(i)
    } else if i < 40 {
        oui_entry_g3(i)
    } else if i < 50 {
        oui_entry_g4(i)
    } else if i < 60 {
        oui_entry_g5(i)
    } else if i < 70 {
        oui_entry_g6(i)
    } else if i < 80 {
        oui_entry_g7(i)
    } else if i < 90 {
        oui_entry_g8(i)
    } else {
        oui_entry_g9(i)
    }
}

/// The built-in prefix table, row by row.
pub open spec fn oui_table() -> Seq<(Seq<char>, Seq<char>)> {
    Seq::new(100, |i: int| oui_entry(i))
}

fn oui_entry_exec_g0(i: usize) -> (r: (&'static str, &'static str))
    requires
        0 <= i < 10,
    ensures
        (r.0@, r.1@) == oui_entry(i as int),
{
    if i == 0 {
        ("00:00:0C", "Cisco Systems")
    } else if i == 1 {
        ("00:01:42", "Cisco Systems")
    } else if i == 2 {
        ("00:1A:A0", "Dell Inc.")
    } else if i == 3 {
        ("00:14:22", "Dell Inc.")
    } else if i == 4 {
        ("00:50:56", "VMware")
    } else if i == 5 {
        ("00:0C:29", "VMware")
    } else if i == 6 {
        ("00:15:5D", "Microsoft Hyper-V")
    } else if i == 7 {
        ("00:03:FF", "Microsoft")
    } else if i == 8 {
        ("00:0D:3A", "Microsoft Azure")
    } else {
        ("00:1C:42", "Parallels")
    }
}

fn oui_entry_exec_g1(i: usize) -> (r: (&'static str, &'static str))
    requires
        10 <= i < 20,
    ensures
        (r.0@, r.1@) == oui_entry(i as int),
{
    if i == 10 {
        ("08:00:27", "Oracle VirtualBox")
    } else if i == 11 {
        ("52:54:00", "QEMU/KVM")
    } else if i == 12 {
        ("00:16:3E", "Xen")
    } else if i == 13 {
        ("00:1A:4A", "Qumranet (KVM)")
    } else if i == 14 {
        ("AC:DE:48", "Private (LAA)")
    } else if i == 15 {
        ("00:25:90", "Super Micro Computer")
    } else if i == 16 {
        ("00:30:48", "Supermicro")
    } else if i == 17 {
        ("D4:BE:D9", "Dell Inc.")
    } else if i == 18 {
        ("B8:AC:6F", "Dell Inc.")
    } else {
        ("34:17:EB", "Dell Inc.")
    }
}

fn oui_entry_exec_g2(i: usize) -> (r: (&'static str, &'static str))
    requires
        20 <= i < 30,
    ensures
        (r.0@, r.1@) == oui_entry(i as int),
{
    if i == 20 {
        ("00:1E:67", "Intel Corporate")
    } else if i == 21 {
        ("00:1F:3C", "Intel Corporate")
    } else if i == 22 {
        ("00:22:FA", "Intel Corporate")
    } else if i == 23 {
        ("3C:FD:FE", "Intel Corporate")
    } else if i == 24 {
        ("A4:BF:01", "Intel Corporate")
    } else if i == 25 {
        ("00:24:D7", "Intel Corporate")
    } else if i == 26 {
        ("00:1B:21", "Intel Corporate")
    } else if i == 27 {
        ("00:13:20", "Intel Corporate")
    } else if i == 28 {
        ("00:02:B3", "Intel Corporate")
    } else {
        ("00:AA:00", "Intel Corporate")
    }
}

fn oui_entry_exec_g3(i: usize) -> (r: (&'static str, &'static str))
    requires
        30 <= i < 40,
    ensures
        (r.0@, r.1@) == oui_entry(i as int),
{
    if i == 30 {
        ("00:25:00", "Apple, Inc.")
    } else if i == 31 {
        ("00:1E:C2", "Apple, Inc.")
    } else if i == 32 {
        ("00:23:6C", "Apple, Inc.")
    } else if i == 33 {
        ("00:25:BC", "Apple, Inc.")
    } else if i == 34 {
        ("28:CF:DA", "Apple, Inc.")
    } else if i == 35 {
        ("3C:15:C2", "Apple, Inc.")
    } else if i == 36 {
        ("70:CD:60", "Apple, Inc.")
    } else if i == 37 {
        ("98:01:A7", "Apple, Inc.")
    } else if i == 38 {
        ("AC:BC:32", "Apple, Inc.")
    } else {
        ("00:17:F2", "Apple, Inc.")
    }
}

fn oui_entry_exec_g4(i: usize) -> (r: (&'static str, &'static str))
    requires
        40 <= i < 50,
    ensures
        (r.0@, r.1@) == oui_entry(i as int),
{
    if i == 40 {
        ("00:1F:F3", "Apple, Inc.")
    } else if i == 41 {
        ("58:55:CA", "Apple, Inc.")
    } else if i == 42 {
        ("60:03:08", "Apple, Inc.")
    } else if i == 43 {
        ("78:CA:39", "Apple, Inc.")
    } else if i == 44 {
        ("00:26:B0", "Apple, Inc.")
    } else if i == 45 {
        ("00:26:BB", "Apple, Inc.")
    } else if i == 46 {
        ("F0:B4:79", "HP Inc.")
    } else if i == 47 {
        ("00:1E:0B", "HP Inc.")
    } else if i == 48 {
        ("00:21:5A", "HP Inc.")
    } else {
        ("00:25:B3", "HP Inc.")
    }
}

fn oui_entry_exec_g5(i: usize) -> (r: (&'static str, &'static str))
    requires
        50 <= i < 60,
    ensures
        (r.0@, r.1@) == oui_entry(i as int),
{
    if i == 50 {
        ("2C:27:D7", "HP Inc.")
    } else if i == 51 {
        ("38:63:BB", "HP Inc.")
    } else if i == 52 {
        ("00:30:6E", "HP Inc.")
    } else if i == 53 {
        ("00:17:A4", "HP Inc.")
    } else if i == 54 {
        ("00:14:38", "HP Inc.")
    } else if i == 55 {
        ("00:0B:CD", "HP Inc.")
    } else if i == 56 {
        ("08:00:09", "HP Inc.")
    } else if i == 57 {
        ("EC:B1:D7", "HP Inc.")
    } else if i == 58 {
        ("00:1A:6B", "Universal Global Scientific Industrial")
    } else {
        ("00:E0:4C", "Realtek Semiconductor")
    }
}

fn oui_entry_exec_g6(i: usize) -> (r: (&'static str, &'static str))
    requires
        60 <= i < 70,
    ensures
        (r.0@, r.1@) == oui_entry(i as int),
{
    if i == 60 {
        ("52:54:AB", "Realtek (QEMU)")
    } else if i == 61 {
        ("00:0A:CD", "Sunrich Technology")
    } else if i == 62 {
        ("00:1D:7D", "Giga-Byte Technology")
    } else if i == 63 {
        ("50:E5:49", "GIGA-BYTE Technology")
    } else if i == 64 {
        ("1C:83:41", "GIGA-BYTE Technology")
    } else if i == 65 {
        ("00:1E:8C", "ASUSTek Computer")
    } else if i == 66 {
        ("00:1A:92", "ASUSTek Computer")
    } else if i == 67 {
        ("00:15:F2", "ASUSTek Computer")
    } else if i == 68 {
        ("00:13:D4", "ASUSTek Computer")
    } else {
        ("00:0E:A6", "ASUSTek Computer")
    }
}

fn oui_entry_exec_g7(i: usize) -> (r: (&'static str, &'static str))
    requires
        70 <= i < 80,
    ensures
        (r.0@, r.1@) == oui_entry(i as int),
{
    if i == 70 {
        ("BC:EE:7B", "ASUSTek Computer")
    } else if i == 71 {
        ("00:22:15", "ASUSTek Computer")
    } else if i == 72 {
        ("00:24:8C", "ASUSTek Computer")
    } else if i == 73 {
        ("20:CF:30", "ASUSTek Computer")
    } else if i == 74 {
        ("30:85:A9", "ASUSTek Computer")
    } else if i == 75 {
        ("54:04:A6", "ASUSTek Computer")
    } else if i == 76 {
        ("60:45:BD", "Microsoft")
    } else if i == 77 {
        ("7C:1E:52", "Microsoft")
    } else if i == 78 {
        ("28:18:78", "Microsoft")
    } else {
        ("00:1D:D8", "Microsoft")
    }
}

fn oui_entry_exec_g8(i: usize) -> (r: (&'static str, &'static str))
    requires
        80 <= i < 90,
    ensures
        (r.0@, r.1@) == oui_entry(i as int),
{
    if i == 80 {
        ("B4:0E:DE", "Samsung Electronics")
    } else if i == 81 {
        ("00:12:47", "Samsung Electronics")
    } else if i == 82 {
        ("00:15:99", "Samsung Electronics")
    } else if i == 83 {
        ("00:16:32", "Samsung Electronics")
    } else if i == 84 {
        ("00:17:D5", "Samsung Electronics")
    } else if i == 85 {
        ("00:1A:8A", "Samsung Electronics")
    } else if i == 86 {
        ("00:21:19", "Samsung Electronics")
    } else if i == 87 {
        ("00:23:39", "Samsung Electronics")
    } else if i == 88 {
        ("00:24:54", "Samsung Electronics")
    } else {
        ("00:25:66", "Samsung Electronics")
    }
}

fn oui_entry_exec_g9(i: usize) -> (r: (&'static str, &'static str))
    requires
        90 <= i < 100,
    ensures
        (r.0@, r.1@) == oui_entry(i as int),
{
    if i == 90 {
        ("00:26:37", "Samsung Electronics")
    } else if i == 91 {
        ("5C:0A:5B", "Samsung Electronics")
    } else if i == 92 {
        ("84:25:DB", "Samsung Electronics")
    } else if i == 93 {
        ("90:18:7C", "Samsung Electronics")
    } else if i == 94 {
        ("A8:F2:74", "Samsung Electronics")
    } else if i == 95 {
        ("BC:44:86", "Samsung Electronics")
    } else if i == 96 {
        ("C4:73:1E", "Samsung Electronics")
    } else if i == 97 {
        ("E4:7C:F9", "Samsung Electronics")
    } else if i == 98 {
        ("F8:D0:BD", "Samsung Electronics")
    } else {
        ("CC:07:AB", "Samsung Electronics")
    }
}

fn oui_entry_exec(i: usize) -> (r: (&'static str, &'static str))
    requires
        i < 100,
    ensures
        (r.0@, r.1@) == oui_entry(i as int),
{
    if i < 10 {
        oui_entry_exec_g0(i)
    } else if i < 20 {
        oui_entry_exec_g1(i)
    } else if i < 30 {
        oui_entry_exec_g2(i)
    } else if i < 40 {
        oui_entry_exec_g3(i)
    } else if i < 50 {
        oui_entry_exec_g4(i)
    } else if i < 60 {
        oui_entry_exec_g5(i)
    } else if i < 70 {
        oui_entry_exec_g6(i)
    } else if i < 80 {
        oui_entry_exec_g7(i)
    } else if i < 90 {
        oui_entry_exec_g8(i)
    } else {
        oui_entry_exec_g9(i)
    }
}

/// The built-in table of well-known address prefixes and their
/// vendors, keyed by the first three bytes in upper-case colon form.
pub fn get_oui_database() -> (r: Vec<(&'static str, &'static str)>)
    ensures
        oui_views(r@) == oui_table(),
{
    let mut db: Vec<(&'static str, &'static str)> = Vec::new();
    let mut i: usize = 0;
    proof {
        assert(oui_views(db@) =~~= oui_table().take(0));
    }
    while i < 100
        invariant
            0 <= i <= 100,
            oui_views(db@) == oui_table().take(i as int),
        decreases 100 - i,
    {
        let e = oui_entry_exec(i);
        let ghost d0 = db@;
        db.push(e);
        proof {
            assert(oui_views(db@) =~~= oui_views(d0).push((e.0@, e.1@)));
            assert(oui_views(db@) =~~= oui_table().take(i + 1));
        }
        i = i + 1;
    }
    proof {
        assert(oui_table().take(100) =~~= oui_table());
    }
    db
}

/// The vendor of the first table row whose key matches.
pub open spec fn vendor_of(pairs: Seq<(Seq<char>, Seq<char>)>, oui: Seq<char>) -> Option<Seq<char>>
    decreases pairs.len(),
{
    if pairs.len() == 0 {
        None
    } else if pairs[0].0 == oui {
        Some(pairs[0].1)
    } else {
        vendor_of(pairs.skip(1), oui)
    }
}

/// The upper-case colon-form prefix of an address.
pub open spec fn oui_str(b0: u8, b1: u8, b2: u8) -> Seq<char> {
    hex2(b0 as nat, true).add(seq![':']).add(hex2(b1 as nat, true)).add(seq![':']).add(
        hex2(b2 as nat, true),
    )
}

fn format_oui(b0: u8, b1: u8, b2: u8) -> (r: String)
    ensures
        r@ == oui_str(b0, b1, b2),
{
    proof {
        reveal_strlit(":");
    }
    let mut s = byte_to_hex(b0, true);
    s.append(":");
    let h1 = byte_to_hex(b1, true);
    s.append(h1.as_str());
    s.append(":");
    let h2 = byte_to_hex(b2, true);
    s.append(h2.as_str());
    proof {
        assert(s@ =~= oui_str(b0, b1, b2));
    }
    s
}

/// Look up the vendor of an address by its first three bytes.
pub fn lookup_vendor(bytes: &[u8; 6]) -> (r: Option<String>)
    ensures
        match r {
            Some(v) => vendor_of(oui_table(), oui_str(bytes[0], bytes[1], bytes[2])) == Some(v@),
            None => vendor_of(oui_table(), oui_str(bytes[0], bytes[1], bytes[2])) is None,
        },
{
    let oui = format_oui(bytes[0], bytes[1], bytes[2]);
    let db = get_oui_database();
    let ghost pv = oui_table();
    let n = db.len();
    let mut i: usize = 0;
    proof {
        assert(pv.skip(0) =~= pv);
    }
    while i < n
        invariant
            0 <= i <= n,
            n == db@.len(),
            oui_views(db@) == pv,
            pv == oui_table(),
            oui@ == oui_str(bytes@[0], bytes@[1], bytes@[2]),
            vendor_of(pv, oui@) == vendor_of(pv.skip(i as int), oui@),
        decreases n - i,
    {
        proof {
            assert(pv.skip(i as int)[0] == pv[i as int]);
            assert(pv[i as int] == (db@[i as int].0@, db@[i as int].1@));
            assert(pv.skip(i as int).skip(1) =~= pv.skip(i + 1));
        }
        if str_eq_str(db[i].0, oui.as_str()) {
            return Some(db[i].1.to_owned());
        }
        i = i + 1;
    }
    proof {
        assert(pv.skip(n as int).len() == 0);
    }
    None
}

// ------------------------------------------------------------------
// parsing and formatting hardware addresses
// ------------------------------------------------------------------

pub open spec fn is_hex_digit(c: char) -> bool {
    is_digit(c) || ('a' <= c && c <= 'f') || ('A' <= c && c <= 'F')
}

pub open spec fn hex_val(c: char) -> nat {
    if is_digit(c) {
        crate::text::digit_of(c)
    } else if 'a' <= c && c <= 'f' {
        (c as int - 87) as nat
    } else {
        (c as int - 55) as nat
    }
}

/// The hexadecimal digits of a text, everything else dropped.
pub open spec fn hex_filter(s: Seq<char>) -> Seq<char>
    decreases s.len(),
{
    if s.len() == 0 {
        Seq::<char>::empty()
    } else {
        hex_filter(s.drop_last()).add(
            if is_hex_digit(s.last()) {
                seq![s.last()]
            } else {
                Seq::<char>::empty()
            },
        )
    }
}

/// Every character a hexadecimal filter keeps is a hexadecimal digit.
proof fn lemma_hex_filter_digits(s: Seq<char>)
    ensures
        forall|j: int|
            0 <= j < hex_filter(s).len() ==> is_hex_digit(#[trigger] hex_filter(s)[j]),
    decreases s.len(),
{
    if s.len() > 0 {
        lemma_hex_filter_digits(s.drop_last());
        let prev = hex_filter(s.drop_last());
        assert forall|j: int|
            0 <= j < hex_filter(s).len() implies is_hex_digit(#[trigger] hex_filter(s)[j]) by {
            if j < prev.len() {
                assert(hex_filter(s)[j] == prev[j]);
            } else {
                assert(hex_filter(s)[j] == s.last());
            }
        }
    }
}

/// Byte `i` of a cleaned twelve-digit address text.
pub open spec fn mac_byte(clean: Seq<char>, i: int) -> u8 {
    (hex_val(clean[2 * i]) * 16 + hex_val(clean[2 * i + 1])) as u8
}

fn is_hex_digit_ch(c: char) -> (r: bool)
    ensures
        r == is_hex_digit(c),
{
    ('0' <= c && c <= '9') || ('a' <= c && c <= 'f') || ('A' <= c && c <= 'F')
}

fn hex_val_ch(c: char) -> (r: u8)
    requires
        is_hex_digit(c),
    ensures
        r == hex_val(c),
        r < 16,
{
    if '0' <= c && c <= '9' {
        ((c as u32) - 48) as u8
    } else if 'a' <= c && c <= 'f' {
        ((c as u32) - 87) as u8
    } else {
        ((c as u32) - 55) as u8
    }
}

/// Parse a hardware address in any common notation: every hexadecimal
/// digit counts, everything else is a separator, and exactly twelve
/// digits must remain.
pub fn parse_mac(mac: &str) -> (r: Option<[u8; 6]>)
    ensures
        match r {
            Some(b) => hex_filter(mac@).len() == 12 && (forall|i: int|
                0 <= i < 6 ==> b[i] == mac_byte(hex_filter(mac@), i)),
            None => hex_filter(mac@).len() != 12,
        },
{
    let len = mac.unicode_len();
    let mut clean: Vec<char> = Vec::new();
    let mut i: usize = 0;
    proof {
        assert(clean@ =~= hex_filter(mac@.take(0)));
    }
    while i < len
        invariant
            0 <= i <= len,
            len == mac@.len(),
            clean@ == hex_filter(mac@.take(i as int)),
        decreases len - i,
    {
        let c = mac.get_char(i);
        proof {
            assert(mac@.take(i + 1).drop_last() =~= mac@.take(i as int));
            assert(mac@.take(i + 1).last() == mac@[i as int]);
        }
        if is_hex_digit_ch(c) {
            clean.push(c);
        }
        proof {
            assert(clean@ =~= hex_filter(mac@.take(i + 1)));
        }
        i = i + 1;
    }
    proof {
        assert(mac@.take(len as int) =~= mac@);
    }
    if clean.len() != 12 {
        return None;
    }
    let ghost cv = clean@;
    proof {
        lemma_hex_filter_digits(mac@);
    }
    let b0 = hex_val_ch(clean[0]) * 16 + hex_val_ch(clean[1]);
    let b1 = hex_val_ch(clean[2]) * 16 + hex_val_ch(clean[3]);
    let b2 = hex_val_ch(clean[4]) * 16 + hex_val_ch(clean[5]);
    let b3 = hex_val_ch(clean[6]) * 16 + hex_val_ch(clean[7]);
    let b4 = hex_val_ch(clean[8]) * 16 + hex_val_ch(clean[9]);
    let b5 = hex_val_ch(clean[10]) * 16 + hex_val_ch(clean[11]);
    let arr: [u8; 6] = [b0, b1, b2, b3, b4, b5];
    proof {
        assert(forall|i: int| 0 <= i < 6 ==> arr[i] == mac_byte(cv, i));
    }
    Some(arr)
}

/// The rendering of six bytes as hexadecimal pairs joined by a
/// separator character.
pub open spec fn mac_sep(b: Seq<u8>, upper: bool, sep: char) -> Seq<char> {
    hex2(b[0] as nat, upper).add(seq![sep]).add(hex2(b[1] as nat, upper)).add(seq![sep]).add(
        hex2(b[2] as nat, upper),
    ).add(seq![sep]).add(hex2(b[3] as nat, upper)).add(seq![sep]).add(hex2(b[4] as nat, upper)).add(
        seq![sep],
    ).add(hex2(b[5] as nat, upper))
}

/// The dotted rendering: three groups of four digits.
pub open spec fn mac_dotted(b: Seq<u8>, upper: bool) -> Seq<char> {
    hex2(b[0] as nat, upper).add(hex2(b[1] as nat, upper)).add(seq!['.']).add(
        hex2(b[2] as nat, upper),
    ).add(hex2(b[3] as nat, upper)).add(seq!['.']).add(hex2(b[4] as nat, upper)).add(
        hex2(b[5] as nat, upper),
    )
}

/// The plain rendering: twelve digits, no separator.
pub open spec fn mac_plain(b: Seq<u8>, upper: bool) -> Seq<char> {
    hex2(b[0] as nat, upper).add(hex2(b[1] as nat, upper)).add(hex2(b[2] as nat, upper)).add(
        hex2(b[3] as nat, upper),
    ).add(hex2(b[4] as nat, upper)).add(hex2(b[5] as nat, upper))
}

fn render_sep(b: &[u8; 6], upper: bool, sep: &str, sepc: char) -> (r: String)
    requires
        sep@ == seq![sepc],
    ensures
        r@ == mac_sep(b@, upper, sepc),
{
    let mut s = byte_to_hex(b[0], upper);
    s.append(sep);
    let h = byte_to_hex(b[1], upper);
    s.append(h.as_str());
    s.append(sep);
    let h = byte_to_hex(b[2], upper);
    s.append(h.as_str());
    s.append(sep);
    let h = byte_to_hex(b[3], upper);
    s.append(h.as_str());
    s.append(sep);
    let h = byte_to_hex(b[4], upper);
    s.append(h.as_str());
    s.append(sep);
    let h = byte_to_hex(b[5], upper);
    s.append(h.as_str());
    proof {
        assert(s@ =~= mac_sep(b@, upper, sepc));
    }
    s
}

fn render_dotted(b: &[u8; 6], upper: bool) -> (r: String)
    ensures
        r@ == mac_dotted(b@, upper),
{
    proof {
        reveal_strlit(".");
    }
    let mut s = byte_to_hex(b[0], upper);
    let h = byte_to_hex(b[1], upper);
    s.append(h.as_str());
    s.append(".");
    let h = byte_to_hex(b[2], upper);
    s.append(h.as_str());
    let h = byte_to_hex(b[3], upper);
    s.append(h.as_str());
    s.append(".");
    let h = byte_to_hex(b[4], upper);
    s.append(h.as_str());
    let h = byte_to_hex(b[5], upper);
    s.append(h.as_str());
    proof {
        assert(s@ =~= mac_dotted(b@, upper));
    }
    s
}

fn render_plain(b: &[u8; 6], upper: bool) -> (r: String)
    ensures
        r@ == mac_plain(b@, upper),
{
    let mut s = byte_to_hex(b[0], upper);
    let h = byte_to_hex(b[1], upper);
    s.append(h.as_str());
    let h = byte_to_hex(b[2], upper);
    s.append(h.as_str());
    let h = byte_to_hex(b[3], upper);
    s.append(h.as_str());
    let h = byte_to_hex(b[4], upper);
    s.append(h.as_str());
    let h = byte_to_hex(b[5], upper);
    s.append(h.as_str());
    proof {
        assert(s@ =~= mac_plain(b@, upper));
    }
    s
}

/// Parse a hardware address and render it in every common notation; an
/// address without exactly twelve hexadecimal digits yields empty
/// renderings and no vendor.
pub fn format_mac(mac: String) -> (r: MacResult)
    ensures
        r.original == mac,
        hex_filter(mac@).len() != 12 ==> !r.is_valid && r.vendor is None
            && r.formats.colon_upper@.len() == 0,
        hex_filter(mac@).len() == 12 ==> {
            let b = seq![
                mac_byte(hex_filter(mac@), 0),
                mac_byte(hex_filter(mac@), 1),
                mac_byte(hex_filter(mac@), 2),
                mac_byte(hex_filter(mac@), 3),
                mac_byte(hex_filter(mac@), 4),
                mac_byte(hex_filter(mac@), 5),
            ];
            &&& r.is_valid
            &&& r.formats.colon_upper@ == mac_sep(b, true, ':')
            &&& r.formats.colon_lower@ == mac_sep(b, false, ':')
            &&& r.formats.hyphen_upper@ == mac_sep(b, true, '-')
            &&& r.formats.hyphen_lower@ == mac_sep(b, false, '-')
            &&& r.formats.dot_upper@ == mac_dotted(b, true)
            &&& r.formats.dot_lower@ == mac_dotted(b, false)
            &&& r.formats.no_separator@ == mac_plain(b, true)
            &&& r.formats.cisco@ == mac_dotted(b, false)
            &&& (match r.vendor {
                Some(v) => vendor_of(oui_table(), oui_str(b[0], b[1], b[2])) == Some(v@),
                None => vendor_of(oui_table(), oui_str(b[0], b[1], b[2])) is None,
            })
        },
{
    proof {
        reveal_strlit(":");
        reveal_strlit("-");
        assert(":"@ =~= seq![':']);
        assert("-"@ =~= seq!['-']);
    }
    match parse_mac(mac.as_str()) {
        None => MacResult {
            original: mac,
            formats: MacFormats {
                colon_upper: String::new(),
                colon_lower: String::new(),
                hyphen_upper: String::new(),
                hyphen_lower: String::new(),
                dot_upper: String::new(),
                dot_lower: String::new(),
                no_separator: String::new(),
                cisco: String::new(),
            },
            vendor: None,
            is_valid: false,
        },
        Some(bytes) => {
            proof {
                assert(bytes@ =~= seq![
                    mac_byte(hex_filter(mac@), 0),
                    mac_byte(hex_filter(mac@), 1),
                    mac_byte(hex_filter(mac@), 2),
                    mac_byte(hex_filter(mac@), 3),
                    mac_byte(hex_filter(mac@), 4),
                    mac_byte(hex_filter(mac@), 5),
                ]);
            }
            let colon_upper = render_sep(&bytes, true, ":", ':');
            let colon_lower = render_sep(&bytes, false, ":", ':');
            let hyphen_upper = render_sep(&bytes, true, "-", '-');
            let hyphen_lower = render_sep(&bytes, false, "-", '-');
            let dot_upper = render_dotted(&bytes, true);
            let dot_lower = render_dotted(&bytes, false);
            let no_separator = render_plain(&bytes, true);
            let cisco = render_dotted(&bytes, false);
            let vendor = lookup_vendor(&bytes);
            MacResult {
                original: mac,
                formats: MacFormats {
                    colon_upper,
                    colon_lower,
                    hyphen_upper,
                    hyphen_lower,
                    dot_upper,
                    dot_lower,
                    no_separator,
                    cisco,
                },
                vendor,
                is_valid: true,
            }
        },
    }
}

/// What the remote vendor registry's answer means: a useful body on
/// success, a named unknown-vendor text for an empty or not-found
/// answer, an error for rate limiting or any other status.
pub fn classify_vendor_response(status: u16, body: &str) -> (r: Result<String, String>)
    ensures
        status == 200 && trim_spec(body@).len() > 0 && !contains_sub(trim_spec(body@), "Not Found"@)
            ==> (r matches Ok(v) && v@ == trim_spec(body@)),
        status == 200 && (trim_spec(body@).len() == 0 || contains_sub(
            trim_spec(body@),
            "Not Found"@,
        )) ==> (r matches Ok(v) && v@ == "Unbekannter Hersteller"@),
        status == 404 ==> (r matches Ok(v) && v@ == "Unbekannter Hersteller"@),
        status == 429 ==> (r matches Err(e) && e@
            == "Rate Limit erreicht. Bitte sp\u{e4}ter erneut versuchen."@),
        status != 200 && status != 404 && status != 429 ==> (r matches Err(e) && e@
            == "API-Fehler: HTTP "@.add(dec_str(status as nat))),
{
    if status == 200 {
        let trimmed = trim_str(body);
        if trimmed.as_str().is_empty() || contains_str(trimmed.as_str(), "Not Found") {
            Ok("Unbekannter Hersteller".to_owned())
        } else {
            Ok(trimmed)
        }
    } else if status == 404 {
        Ok("Unbekannter Hersteller".to_owned())
    } else if status == 429 {
        Err("Rate Limit erreicht. Bitte sp\u{e4}ter erneut versuchen.".to_owned())
    } else {
        let mut e = String::from_str("API-Fehler: HTTP ");
        let d = u64_to_dec(status as u64);
        e.append(d.as_str());
        proof {
            assert(e@ =~= "API-Fehler: HTTP "@.add(dec_str(status as nat)));
        }
        Err(e)
    }
}

} // verus!
