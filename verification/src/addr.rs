//! Structured network addresses and IP reachability classification.
//!
//! An address is an ordered sequence of protocol components (IP, port, DNS
//! name, peer-id tag, relay-circuit marker). IPs are held as plain integers
//! in network order; DNS names are interned to plain numbers at the
//! transport boundary. Equality is component-wise.

use vstd::prelude::*;

use crate::PeerId;

verus! {

/// The IPv4 loopback address 127.0.0.1.
pub const LOOPBACK_V4: u32 = 0x7F00_0001;

/// The IPv6 loopback address ::1.
pub const LOOPBACK_V6: u128 = 1;

/// An IP address, IPv4 or IPv6, in network order.
#[derive(Clone, Copy, PartialEq, Eq, Structural, Debug)]
pub enum Ip {
    V4(u32),
    V6(u128),
}

/// Whether an IP address is private (non-globally routable): RFC1918 for
/// IPv4; unique-local (fc00::/7) or link-local (fe80::/10) for IPv6.
pub open spec fn spec_is_private_ip(ip: Ip) -> bool {
    match ip {
        Ip::V4(a) => a >> 24 == 10 || a >> 20 == 0xAC1 || a >> 16 == 0xC0A8,
        Ip::V6(a) => a >> 121 == 0x7E || a >> 118 == 0x3FA,
    }
}

/// Check if an IP address is private (non-globally routable).
///
/// For IPv4: RFC1918 private addresses (10.0.0.0/8, 172.16.0.0/12,
/// 192.168.0.0/16). For IPv6: unique local addresses (fc00::/7) and
/// link-local addresses (fe80::/10).
pub fn is_private_ip(ip: &Ip) -> (r: bool)
    ensures
        r == spec_is_private_ip(*ip),
{
    match ip {
        Ip::V4(a) => (*a >> 24) == 10 || (*a >> 20) == 0xAC1 || (*a >> 16) == 0xC0A8,
        Ip::V6(a) => (*a >> 121) == 0x7E || (*a >> 118) == 0x3FA,
    }
}

/// Whether two IPs lie in the same network of the given prefix length:
/// same family and equal upper `prefix_len` bits. A prefix longer than the
/// address width fits no network and yields false.
pub open spec fn spec_same_subnet(ip1: Ip, ip2: Ip, prefix_len: u8) -> bool {
    match (ip1, ip2) {
        (Ip::V4(a), Ip::V4(b)) => prefix_len <= 32 && (prefix_len == 0 || a >> (
        32 - prefix_len) as u32 == b >> (32 - prefix_len) as u32),
        (Ip::V6(a), Ip::V6(b)) => prefix_len <= 128 && (prefix_len == 0 || a >> (
        128 - prefix_len) as u128 == b >> (128 - prefix_len) as u128),
        _ => false,
    }
}

/// Check if two IPs are in the same subnet of the given prefix length.
/// Different address families are never in the same subnet.
pub fn same_subnet(ip1: &Ip, ip2: &Ip, prefix_len: u8) -> (r: bool)
    ensures
        r == spec_same_subnet(*ip1, *ip2, prefix_len),
{
    match (ip1, ip2) {
        (Ip::V4(a), Ip::V4(b)) => {
            if prefix_len > 32 {
                false
            } else if prefix_len == 0 {
                true
            } else {
                let shift: u32 = 32 - (prefix_len as u32);
                (*a >> shift) == (*b >> shift)
            }
        },
        (Ip::V6(a), Ip::V6(b)) => {
            if prefix_len > 128 {
                false
            } else if prefix_len == 0 {
                true
            } else {
                let shift: u128 = 128 - (prefix_len as u128);
                (*a >> shift) == (*b >> shift)
            }
        },
        _ => false,
    }
}

/// Reachability of a remote IP from a local IP: two private IPs only within
/// the same /16 network, a private host reaches public IPs, a public host
/// does not reach private IPs, and public reaches public.
pub open spec fn spec_reachable_from(own_ip: Ip, peer_ip: Ip) -> bool {
    if spec_is_private_ip(own_ip) && spec_is_private_ip(peer_ip) {
        spec_same_subnet(own_ip, peer_ip, 16)
    } else if spec_is_private_ip(own_ip) && !spec_is_private_ip(peer_ip) {
        true
    } else if !spec_is_private_ip(own_ip) && spec_is_private_ip(peer_ip) {
        false
    } else {
        true
    }
}

/// Decide whether `peer_ip` is reachable from the local IP `own_ip`.
pub fn reachable_from(own_ip: &Ip, peer_ip: &Ip) -> (r: bool)
    ensures
        r == spec_reachable_from(*own_ip, *peer_ip),
{
    let own_is_private = is_private_ip(own_ip);
    let peer_is_private = is_private_ip(peer_ip);
    if own_is_private && peer_is_private {
        same_subnet(own_ip, peer_ip, 16)
    } else {
        own_is_private || !peer_is_private
    }
}

/// One component of a structured network address.
#[derive(Clone, Copy, PartialEq, Eq, Structural, Debug)]
pub enum AddrComponent {
    /// An IPv4 host, in network order.
    Ip4(u32),
    /// An IPv6 host, in network order.
    Ip6(u128),
    /// A transport port.
    Port(u16),
    /// A DNS name, interned to a plain number at the boundary.
    Dns(u64),
    /// A peer-id tag.
    P2p(PeerId),
    /// A relay-circuit marker.
    Circuit,
}

/// A structured multi-component network address.
#[derive(Debug)]
pub struct Address {
    pub parts: Vec<AddrComponent>,
}

impl View for Address {
    type V = Seq<AddrComponent>;

    open spec fn view(&self) -> Seq<AddrComponent> {
        self.parts@
    }
}

impl PartialEq for Address {
    /// Component-wise equality.
    fn eq(&self, other: &Address) -> (r: bool) {
        if self.parts.len() != other.parts.len() {
            return false;
        }
        let mut i: usize = 0;
        while i < self.parts.len()
            invariant
                i <= self@.len(),
                self@.len() == other@.len(),
                forall|j: int| 0 <= j < i ==> self@[j] == other@[j],
            decreases self@.len() - i,
        {
            if self.parts[i] != other.parts[i] {
                return false;
            }
            i = i + 1;
        }
        proof {
            assert(self@ =~= other@);
        }
        true
    }
}

impl Eq for Address {

}

impl vstd::std_specs::cmp::PartialEqSpecImpl for Address {
    open spec fn obeys_eq_spec() -> bool {
        true
    }

    open spec fn eq_spec(&self, other: &Address) -> bool {
        self@ == other@
    }
}

impl Clone for Address {
    /// Clones the component list; the copy views equal to the original.
    fn clone(&self) -> (r: Self)
        ensures
            r@ == self@,
    {
        let mut parts: Vec<AddrComponent> = Vec::new();
        let mut i: usize = 0;
        while i < self.parts.len()
            invariant
                i <= self@.len(),
                parts@ == self@.take(i as int),
            decreases self@.len() - i,
        {
            parts.push(self.parts[i]);
            proof {
                assert(parts@ =~= self@.take(i + 1));
            }
            i = i + 1;
        }
        proof {
            assert(self@.take(self@.len() as int) =~= self@);
        }
        Address { parts }
    }
}

/// Clone a list of addresses; the copies view equal to the originals.
pub fn clone_addr_vec(v: &Vec<Address>) -> (r: Vec<Address>)
    ensures
        r@.len() == v@.len(),
        forall|i: int| 0 <= i < v@.len() ==> (#[trigger] r@[i])@ == v@[i]@,
{
    let mut out: Vec<Address> = Vec::new();
    let mut i: usize = 0;
    while i < v.len()
        invariant
            i <= v@.len(),
            out@.len() == i,
            forall|j: int| 0 <= j < i ==> (#[trigger] out@[j])@ == v@[j]@,
        decreases v@.len() - i,
    {
        out.push(v[i].clone());
        i = i + 1;
    }
    out
}

/// The number of relay-circuit markers in an address.
pub open spec fn circuit_count(s: Seq<AddrComponent>) -> int
    decreases s.len(),
{
    if s.len() == 0 {
        0
    } else {
        circuit_count(s.drop_last()) + if s.last() is Circuit {
            1int
        } else {
            0int
        }
    }
}

pub proof fn lemma_circuit_count_bounds(s: Seq<AddrComponent>)
    ensures
        0 <= circuit_count(s) <= s.len(),
    decreases s.len(),
{
    if s.len() > 0 {
        lemma_circuit_count_bounds(s.drop_last());
    }
}

proof fn lemma_circuit_count_step(s: Seq<AddrComponent>, i: int)
    requires
        0 <= i < s.len(),
    ensures
        circuit_count(s.take(i + 1)) == circuit_count(s.take(i)) + if s[i] is Circuit {
            1int
        } else {
            0int
        },
{
    let t = s.take(i + 1);
    assert(t.last() == s[i]);
    assert(t.drop_last() =~= s.take(i));
}

/// Whether a component is one of the loopback hosts.
pub open spec fn component_is_loopback(c: AddrComponent) -> bool {
    c == AddrComponent::Ip4(LOOPBACK_V4) || c == AddrComponent::Ip6(LOOPBACK_V6)
}

/// Whether an address mentions a loopback host (127.0.0.1 or ::1) anywhere.
pub open spec fn has_loopback(s: Seq<AddrComponent>) -> bool {
    exists|i: int| 0 <= i < s.len() && component_is_loopback(#[trigger] s[i])
}

/// Whether a component is one of the wildcard hosts (0.0.0.0 or ::).
pub open spec fn component_is_wildcard(c: AddrComponent) -> bool {
    c == AddrComponent::Ip4(0u32) || c == AddrComponent::Ip6(0u128)
}

/// Whether an address mentions a wildcard host anywhere.
pub open spec fn has_wildcard(s: Seq<AddrComponent>) -> bool {
    exists|i: int| 0 <= i < s.len() && component_is_wildcard(#[trigger] s[i])
}

/// The first IP component of an address, if any.
pub open spec fn first_ip(s: Seq<AddrComponent>) -> Option<Ip>
    decreases s.len(),
{
    if s.len() == 0 {
        None
    } else {
        match s[0] {
            AddrComponent::Ip4(a) => Some(Ip::V4(a)),
            AddrComponent::Ip6(a) => Some(Ip::V6(a)),
            _ => first_ip(s.subrange(1, s.len() as int)),
        }
    }
}

/// Extract the first IP component from an address, if any.
pub fn extract_ip(addr: &Address) -> (r: Option<Ip>)
    ensures
        r == first_ip(addr@),
{
    let ghost s = addr@;
    proof {
        assert(s.subrange(0, s.len() as int) =~= s);
    }
    let mut i: usize = 0;
    while i < addr.parts.len()
        invariant
            i <= s.len(),
            addr@ == s,
            first_ip(s) == first_ip(s.subrange(i as int, s.len() as int)),
        decreases s.len() - i,
    {
        let c = addr.parts[i];
        proof {
            let rest = s.subrange(i as int, s.len() as int);
            assert(rest[0] == s[i as int]);
            assert(rest.subrange(1, rest.len() as int) =~= s.subrange(
                i as int + 1,
                s.len() as int,
            ));
        }
        match c {
            AddrComponent::Ip4(a) => {
                return Some(Ip::V4(a));
            },
            AddrComponent::Ip6(a) => {
                return Some(Ip::V6(a));
            },
            _ => {
            },
        }
        i = i + 1;
    }
    proof {
        assert(s.subrange(s.len() as int, s.len() as int) =~= Seq::<AddrComponent>::empty());
    }
    None
}

/// Count the relay-circuit markers of an address.
pub fn count_circuits(addr: &Address) -> (r: usize)
    ensures
        r == circuit_count(addr@),
{
    proof {
        lemma_circuit_count_bounds(addr@);
    }
    let mut count: usize = 0;
    let mut i: usize = 0;
    while i < addr.parts.len()
        invariant
            i <= addr@.len(),
            count == circuit_count(addr@.take(i as int)),
            count <= i,
        decreases addr@.len() - i,
    {
        proof {
            lemma_circuit_count_step(addr@, i as int);
            lemma_circuit_count_bounds(addr@.take(i as int));
        }
        if matches!(addr.parts[i], AddrComponent::Circuit) {
            count = count + 1;
        }
        i = i + 1;
    }
    proof {
        assert(addr@.take(addr@.len() as int) =~= addr@);
    }
    count
}

/// Whether an address mentions a loopback host.
pub fn mentions_loopback(addr: &Address) -> (r: bool)
    ensures
        r == has_loopback(addr@),
{
    let mut i: usize = 0;
    while i < addr.parts.len()
        invariant
            i <= addr@.len(),
            forall|j: int| 0 <= j < i ==> !component_is_loopback(#[trigger] addr@[j]),
        decreases addr@.len() - i,
    {
        let c = addr.parts[i];
        let hit = match c {
            AddrComponent::Ip4(a) => a == LOOPBACK_V4,
            AddrComponent::Ip6(a) => a == LOOPBACK_V6,
            _ => false,
        };
        if hit {
            proof {
                assert(component_is_loopback(addr@[i as int]));
            }
            return true;
        }
        i = i + 1;
    }
    false
}

/// Whether an address mentions a wildcard host.
pub fn mentions_wildcard(addr: &Address) -> (r: bool)
    ensures
        r == has_wildcard(addr@),
{
    let mut i: usize = 0;
    while i < addr.parts.len()
        invariant
            i <= addr@.len(),
            forall|j: int| 0 <= j < i ==> !component_is_wildcard(#[trigger] addr@[j]),
        decreases addr@.len() - i,
    {
        let c = addr.parts[i];
        let hit = match c {
            AddrComponent::Ip4(a) => a == 0,
            AddrComponent::Ip6(a) => a == 0,
            _ => false,
        };
        if hit {
            proof {
                assert(component_is_wildcard(addr@[i as int]));
            }
            return true;
        }
        i = i + 1;
    }
    false
}

} // verus!
