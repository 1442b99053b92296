//! Subnet arithmetic: netmask and prefix conversions and the derived
//! figures of one CIDR block, all exact 32-bit computations.

use vstd::prelude::*;
use vstd::string::StrSliceExecFns;
use crate::expand::{format_ipv4, ipv4_str, mask_of_prefix, parse_cidr_spec};
use crate::text::{parse_u32_upto, parse_uint, split_char_spec, split_char_str};

verus! {

/// The derived figures of one block.
#[derive(Clone, Debug)]
pub struct SubnetInfo {
    pub network: String,
    pub broadcast: String,
    pub netmask: String,
    pub wildcard_mask: String,
    pub first_host: String,
    pub last_host: String,
    pub total_hosts: u32,
    pub usable_hosts: u32,
    pub cidr: u8,
    pub ip_class: String,
    pub is_private: bool,
}

/// Render a prefix length as its dotted-quad netmask.
pub fn prefix_to_subnet(prefix: u8) -> (r: String)
    requires
        prefix <= 32,
    ensures
        r@ == ipv4_str(mask_of_prefix(prefix)),
{
    let mask: u32 = if prefix == 0 {
        0
    } else {
        0xFFFF_FFFFu32 << ((32 - prefix) as u32)
    };
    format_ipv4(mask)
}

/// The leading octet values of the pieces of a dotted text, keeping
/// only pieces that read as one byte.
pub open spec fn octets_of(parts: Seq<Seq<char>>) -> Seq<u8>
    decreases parts.len(),
{
    if parts.len() == 0 {
        Seq::<u8>::empty()
    } else {
        (match parse_uint(parts[0]) {
            Some(v) => if v <= 255 {
                seq![v as u8]
            } else {
                Seq::<u8>::empty()
            },
            None => Seq::<u8>::empty(),
        }).add(octets_of(parts.skip(1)))
    }
}

/// Bits set among the low `k` bits of `m`.
pub open spec fn bits_set(m: u32, k: nat) -> nat
    decreases k,
{
    if k == 0 {
        0
    } else {
        bits_set(m, (k - 1) as nat) + (((m >> ((k - 1) as u32)) & 1u32) as nat)
    }
}

/// The prefix length encoded by a dotted-quad netmask: the number of
/// set bits, or 24 when the text does not read as four bytes.
pub open spec fn subnet_prefix_spec(s: Seq<char>) -> u8 {
    let os = octets_of(split_char_spec(s, '.'));
    if os.len() != 4 {
        24u8
    } else {
        (bits_set(
            ((os[0] as u32) << 24u32) | ((os[1] as u32) << 16u32) | ((os[2] as u32) << 8u32) | (
            os[3] as u32),
            32,
        ) as u8)
    }
}

/// Read a dotted-quad netmask back into its prefix length, counting
/// its set bits; a malformed mask counts as 24.
pub fn subnet_to_prefix(subnet: &str) -> (r: u8)
    ensures
        r == subnet_prefix_spec(subnet@),
{
    let parts = split_char_str(subnet, '.');
    let ghost pv = split_char_spec(subnet@, '.');
    let n = parts.len();
    let mut os: Vec<u8> = Vec::new();
    let mut i: usize = 0;
    proof {
        assert(pv.skip(0) =~= pv);
        assert(os@.add(octets_of(pv.skip(0))) =~= octets_of(pv));
    }
    while i < n
        invariant
            0 <= i <= n,
            n == parts@.len(),
            crate::text::views_of(parts@) == pv,
            os@.add(octets_of(pv.skip(i as int))) == octets_of(pv),
        decreases n - i,
    {
        proof {
            assert(pv.skip(i as int)[0] == pv[i as int]);
            assert(pv[i as int] == parts@[i as int]@);
            assert(pv.skip(i as int).skip(1) =~= pv.skip(i + 1));
        }
        let ghost o0 = os@;
        match parse_u32_upto(parts[i].as_str(), 255) {
            Some(v) => {
                os.push(v as u8);
                proof {
                    assert(os@ =~= o0.push(v as u8));
                    assert(os@.add(octets_of(pv.skip(i + 1))) =~= octets_of(pv));
                }
            },
            None => {
                proof {
                    assert(os@.add(octets_of(pv.skip(i + 1))) =~= octets_of(pv));
                }
            },
        }
        i = i + 1;
    }
    proof {
        assert(pv.skip(n as int).len() == 0);
        assert(octets_of(pv.skip(n as int)) =~= Seq::<u8>::empty());
        assert(os@ =~= octets_of(pv));
    }
    if os.len() != 4 {
        return 24;
    }
    let mask: u32 = ((os[0] as u32) << 24u32) | ((os[1] as u32) << 16u32) | ((os[2] as u32)
        << 8u32) | (os[3] as u32);
    let mut count: u32 = 0;
    let mut k: u32 = 0;
    while k < 32
        invariant
            0 <= k <= 32,
            count == bits_set(mask, k as nat),
            count <= k,
        decreases 32 - k,
    {
        proof {
            assert(((mask >> k) & 1u32) <= 1) by (bit_vector);
        }
        count = count + ((mask >> k) & 1u32);
        k = k + 1;
    }
    count as u8
}

/// The letter of a first octet's historical address class.
pub open spec fn class_str(o0: u32) -> Seq<char> {
    if o0 <= 127 {
        "A"@
    } else if o0 <= 191 {
        "B"@
    } else if o0 <= 223 {
        "C"@
    } else if o0 <= 239 {
        "D (Multicast)"@
    } else {
        "E (Reserved)"@
    }
}

/// The three private blocks of IPv4: 10/8, 172.16/12 and 192.168/16.
pub open spec fn is_private_net(ip: u32) -> bool {
    ((ip >> 24u32) & 0xFF) == 10 || (((ip >> 24u32) & 0xFF) == 172 && 16 <= ((ip >> 16u32) & 0xFF)
        < 32) || (((ip >> 24u32) & 0xFF) == 192 && ((ip >> 16u32) & 0xFF) == 168)
}

/// Compute every derived figure of one CIDR block.  A text that does
/// not read as an IPv4 block is rejected, and so is a prefix of zero,
/// whose host count does not fit 32 bits.
pub fn calculate_subnet(cidr: String) -> (r: Result<SubnetInfo, String>)
    ensures
        match parse_cidr_spec(cidr@) {
            None => r is Err,
            Some((a, p)) => if p == 0 {
                r is Err
            } else {
                match r {
                    Err(_) => false,
                    Ok(info) => {
                        let net = a & mask_of_prefix(p);
                        &&& info.cidr == p
                        &&& info.network@ == ipv4_str(net)
                        &&& info.netmask@ == ipv4_str(mask_of_prefix(p))
                        &&& info.wildcard_mask@ == ipv4_str((mask_of_prefix(p) ^ 0xFFFF_FFFFu32))
                        &&& info.broadcast@ == ipv4_str(net | (mask_of_prefix(p) ^ 0xFFFF_FFFFu32))
                        &&& info.total_hosts == (1u32 << ((32 - p) as u32))
                        &&& info.usable_hosts == (if p >= 31 {
                            info.total_hosts as int
                        } else {
                            info.total_hosts - 2
                        })
                        &&& info.first_host@ == (if p >= 31 {
                            ipv4_str(net)
                        } else {
                            ipv4_str((net + 1) as u32)
                        })
                        &&& info.last_host@ == (if p >= 31 {
                            ipv4_str(net | (mask_of_prefix(p) ^ 0xFFFF_FFFFu32))
                        } else {
                            ipv4_str(
                                ((net | (mask_of_prefix(p) ^ 0xFFFF_FFFFu32)) - 1) as u32,
                            )
                        })
                        &&& info.ip_class@ == class_str((net >> 24u32) & 0xFF)
                        &&& info.is_private == is_private_net(net)
                    },
                }
            },
        },
{
    let parsed = crate::expand::parse_cidr(cidr.as_str());
    match parsed {
        None => Err("Invalid CIDR notation".to_owned()),
        Some((a, p)) => {
            if p == 0 {
                return Err("Invalid CIDR notation: a prefix of zero is not supported".to_owned());
            }
            assert(p <= 32) by {
                crate::expand::lemma_cidr_prefix_range(cidr@);
            }
            let shift: u32 = (32 - p) as u32;
            let mask: u32 = 0xFFFF_FFFFu32 << shift;
            let wildcard: u32 = mask ^ 0xFFFF_FFFFu32;
            let net: u32 = a & mask;
            let broadcast: u32 = net | wildcard;
            proof {
                assert(net <= 0xFFFF_FFFFu32 - ((0xFFFF_FFFFu32 << shift) ^ 0xFFFF_FFFFu32)
                    && (net | ((0xFFFF_FFFFu32 << shift) ^ 0xFFFF_FFFFu32)) == net + ((
                0xFFFF_FFFFu32 << shift) ^ 0xFFFF_FFFFu32)) by (bit_vector)
                    requires
                        net == a & (0xFFFF_FFFFu32 << shift),
                        shift < 32,
                ;
            }
            let total_hosts: u32 = 1u32 << shift;
            let usable_hosts: u32 = if p >= 31 {
                total_hosts
            } else {
                proof {
                    assert((1u32 << shift) >= 4) by (bit_vector)
                        requires
                            2 <= shift < 32,
                    ;
                }
                total_hosts - 2
            };
            let first_host: u32 = if p >= 31 {
                net
            } else {
                proof {
                    assert(((0xFFFF_FFFFu32 << shift) ^ 0xFFFF_FFFFu32) >= 3) by (bit_vector)
                        requires
                            2 <= shift < 32,
                    ;
                }
                net + 1
            };
            let last_host: u32 = if p >= 31 {
                broadcast
            } else {
                broadcast - 1
            };
            let o0: u32 = (net >> 24u32) & 0xFF;
            let ip_class: &'static str = if o0 <= 127 {
                "A"
            } else if o0 <= 191 {
                "B"
            } else if o0 <= 223 {
                "C"
            } else if o0 <= 239 {
                "D (Multicast)"
            } else {
                "E (Reserved)"
            };
            let o1: u32 = (net >> 16u32) & 0xFF;
            let is_private = o0 == 10 || (o0 == 172 && 16 <= o1 && o1 < 32) || (o0 == 192 && o1
                == 168);
            Ok(
                SubnetInfo {
                    network: format_ipv4(net),
                    broadcast: format_ipv4(broadcast),
                    netmask: format_ipv4(mask),
                    wildcard_mask: format_ipv4(wildcard),
                    first_host: format_ipv4(first_host),
                    last_host: format_ipv4(last_host),
                    total_hosts,
                    usable_hosts,
                    cidr: p,
                    ip_class: ip_class.to_owned(),
                    is_private,
                },
            )
        },
    }
}

} // verus!
