//! Network reconnaissance engine: target-range expansion, probe-output
//! parsing, bounded-concurrency accounting, and per-host rolling statistics,
//! together with the parsers and formatters of the surrounding tool set.
//!
//! All round-trip times are carried as integer microseconds and all
//! percentages as hundredths of a percent, so that every computation here
//! is exact integer arithmetic.

pub mod arp;
pub mod clock;
pub mod dns;
pub mod expand;
pub mod hashes;
pub mod limiter;
pub mod mac;
pub mod monitor;
pub mod network_profile;
pub mod ports;
pub mod scanner;
pub mod ssl;
pub mod subnet;
pub mod text;
pub mod traceroute;
pub mod whois;

use vstd::prelude::*;

verus! {

/// The numeric value of four address octets: the quantity by which a
/// sweep's results are ordered.
pub fn ip_octets_value(a: u8, b: u8, c: u8, d: u8) -> (r: u32)
    ensures
        r == ((a as u32) << 24u32 | (b as u32) << 16u32 | (c as u32) << 8u32 | (d as u32)),
{
    ((a as u32) << 24u32) | ((b as u32) << 16u32) | ((c as u32) << 8u32) | (d as u32)
}

} // verus!
