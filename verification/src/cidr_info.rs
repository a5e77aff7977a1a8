//! The description of a subnet, derived from an address and a prefix length.

use crate::addr::Ipv4Addr;
use crate::decimal::{decimal_text, push_decimal};
use crate::error::{view_result, Error, ErrorView};
use crate::helpers::{
    broadcast_bits, get_broadcast_addr, get_first_host_addr, get_host_values, get_last_host_addr,
    get_network_addr, get_subnet_mask, get_wildcard_mask, lemma_host_range,
    lemma_total_hosts_bounds, network_bits, subnet_mask_bits, total_hosts, usable_hosts,
};
use crate::parse::{parse_ip_and_cidr, spec_parse_ip_and_cidr};
use vstd::prelude::*;
use vstd::string::StringExecFns;

verus! {

/// Everything that follows from an address and its prefix length.
#[derive(Clone, Copy, Debug, PartialEq, Eq, Structural)]
pub struct CidrInfo {
    pub ip: Ipv4Addr,
    pub cidr: u8,
    pub subnet_mask: Ipv4Addr,
    pub wildcard_mask: Ipv4Addr,
    pub first_host_addr: Ipv4Addr,
    pub last_host_addr: Ipv4Addr,
    pub usable_hosts: u64,
    pub network_addr: Ipv4Addr,
    pub broadcast_addr: Ipv4Addr,
    pub total_hosts: u64,
}

impl CidrInfo {
    /// The description of the subnet of `ip` with prefix length `cidr`.
    pub open spec fn spec_new(ip: Ipv4Addr, cidr: u8) -> CidrInfo {
        let network = network_bits(ip.bits, cidr);
        let broadcast = broadcast_bits(ip.bits, cidr);
        let no_hosts = usable_hosts(cidr) == 0;
        CidrInfo {
            ip,
            cidr,
            subnet_mask: Ipv4Addr { bits: subnet_mask_bits(cidr) },
            wildcard_mask: Ipv4Addr { bits: !subnet_mask_bits(cidr) },
            first_host_addr: Ipv4Addr {
                bits: if no_hosts {
                    network
                } else {
                    (network + 1) as u32
                },
            },
            last_host_addr: Ipv4Addr {
                bits: if no_hosts {
                    broadcast
                } else {
                    (broadcast - 1) as u32
                },
            },
            usable_hosts: usable_hosts(cidr) as u64,
            network_addr: Ipv4Addr { bits: network },
            broadcast_addr: Ipv4Addr { bits: broadcast },
            total_hosts: total_hosts(cidr) as u64,
        }
    }

    /// Whether every field is what the address and the prefix length give.
    pub open spec fn wf(self) -> bool {
        self.cidr <= 32 && self == CidrInfo::spec_new(self.ip, self.cidr)
    }

    /// The description that an input of the form `X.X.X.X/X` or `X-X-X-X-X`
    /// gives, or why the input is rejected.
    pub open spec fn spec_from_str(s: Seq<char>) -> Result<CidrInfo, ErrorView> {
        match spec_parse_ip_and_cidr(s) {
            Ok((ip, cidr)) => Ok(CidrInfo::spec_new(ip, cidr)),
            Err(e) => Err(e),
        }
    }

    /// The summary of the description: a title, then one line for each
    /// field, the name of the field filled up with dots to a fixed width.
    /// The line of the last host address ends with a space.
    pub open spec fn summary_text(self) -> Seq<char> {
        "Network Summary"@ + "\nip...............: "@ + self.ip.dotted_text()
            + "\ncidr.............: "@ + decimal_text(self.cidr as nat)
            + "\nsubnet_mask......: "@ + self.subnet_mask.dotted_text()
            + "\nwildcard_mask....: "@ + self.wildcard_mask.dotted_text()
            + "\nfirst_host_addr..: "@ + self.first_host_addr.dotted_text()
            + "\nlast_host_addr...: "@ + self.last_host_addr.dotted_text() + " "@
            + "\nusable_hosts.....: "@ + decimal_text(self.usable_hosts as nat)
            + "\nnetwork_addr.....: "@ + self.network_addr.dotted_text()
            + "\nbroadcast_addr...: "@ + self.broadcast_addr.dotted_text()
            + "\ntotal_hosts......: "@ + decimal_text(self.total_hosts as nat)
    }

    /// Derives the description of the subnet of `ip` with prefix length `cidr`.
    pub fn new(ip: Ipv4Addr, cidr: u8) -> (r: Result<CidrInfo, Error>)
        requires
            cidr <= 32,
        ensures
            r == Ok::<CidrInfo, Error>(CidrInfo::spec_new(ip, cidr)),
            r.unwrap().wf(),
    {
        let (hosts_total, hosts_usable) = get_host_values(cidr);

        let mask_subnet = get_subnet_mask(cidr);
        let mask_wildcard = get_wildcard_mask(mask_subnet);
        let addr_network = get_network_addr(mask_subnet, ip);
        proof {
            lemma_host_range(ip.bits, cidr);
        }
        let addr_host_first = get_first_host_addr(addr_network, hosts_usable);
        let addr_broadcast = get_broadcast_addr(mask_wildcard, ip);
        let addr_host_last = get_last_host_addr(addr_broadcast, hosts_usable);

        Ok(
            CidrInfo {
                ip,
                cidr,
                subnet_mask: mask_subnet,
                wildcard_mask: mask_wildcard,
                first_host_addr: addr_host_first,
                last_host_addr: addr_host_last,
                network_addr: addr_network,
                broadcast_addr: addr_broadcast,
                usable_hosts: hosts_usable,
                total_hosts: hosts_total,
            },
        )
    }

    /// Reads an input of the form `X.X.X.X/X` or `X-X-X-X-X` and derives the
    /// description of the subnet it names.
    pub fn from_str(s: &str) -> (r: Result<CidrInfo, Error>)
        ensures
            view_result(r) == CidrInfo::spec_from_str(s@),
            r matches Ok(info) ==> info.wf(),
    {
        match parse_ip_and_cidr(String::from_str(s)) {
            Ok((ip, cidr)) => CidrInfo::new(ip, cidr),
            Err(e) => Err(e),
        }
    }

    /// Writes the summary of the description.
    pub fn to_string(&self) -> (r: String)
        ensures
            r@ == self.summary_text(),
    {
        let mut out = String::from_str("Network Summary");
        out.append("\nip...............: ");
        out.append(self.ip.to_string().as_str());
        out.append("\ncidr.............: ");
        push_decimal(&mut out, self.cidr as u64);
        out.append("\nsubnet_mask......: ");
        out.append(self.subnet_mask.to_string().as_str());
        out.append("\nwildcard_mask....: ");
        out.append(self.wildcard_mask.to_string().as_str());
        out.append("\nfirst_host_addr..: ");
        out.append(self.first_host_addr.to_string().as_str());
        out.append("\nlast_host_addr...: ");
        out.append(self.last_host_addr.to_string().as_str());
        out.append(" ");
        out.append("\nusable_hosts.....: ");
        push_decimal(&mut out, self.usable_hosts);
        out.append("\nnetwork_addr.....: ");
        out.append(self.network_addr.to_string().as_str());
        out.append("\nbroadcast_addr...: ");
        out.append(self.broadcast_addr.to_string().as_str());
        out.append("\ntotal_hosts......: ");
        push_decimal(&mut out, self.total_hosts);
        out
    }
}

/// The addresses of a subnet stand in order: the network address, the first
/// and the last host address, the broadcast address, with the given address
/// between the outer two, and the subnet holds as many addresses as its total
/// says. Where addresses are left for hosts, the host range begins one after
/// the network address, ends one before the broadcast address and holds the
/// usable number of addresses. Where none is left, the ends of the host
/// range are the network and the broadcast address themselves, and under the
/// prefix length 32 both are the given address.
pub proof fn lemma_host_range_ordered(info: CidrInfo)
    requires
        info.wf(),
    ensures
        info.network_addr.bits <= info.first_host_addr.bits,
        info.first_host_addr.bits <= info.last_host_addr.bits,
        info.last_host_addr.bits <= info.broadcast_addr.bits,
        info.network_addr.bits <= info.ip.bits <= info.broadcast_addr.bits,
        info.total_hosts == info.broadcast_addr.bits - info.network_addr.bits + 1,
        info.total_hosts == total_hosts(info.cidr),
        info.usable_hosts == usable_hosts(info.cidr),
        info.usable_hosts > 0 <==> info.cidr <= 30,
        info.usable_hosts > 0 ==> {
            &&& info.first_host_addr.bits == info.network_addr.bits + 1
            &&& info.last_host_addr.bits == info.broadcast_addr.bits - 1
            &&& info.usable_hosts == info.last_host_addr.bits - info.first_host_addr.bits + 1
        },
        info.usable_hosts == 0 ==> {
            &&& info.first_host_addr == info.network_addr
            &&& info.last_host_addr == info.broadcast_addr
        },
        info.cidr == 32 ==> info.network_addr == info.ip && info.broadcast_addr == info.ip,
{
    lemma_host_range(info.ip.bits, info.cidr);
    lemma_total_hosts_bounds(info.cidr);
}

} // verus!
