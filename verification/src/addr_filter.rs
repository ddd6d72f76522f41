//! Reachability filtering of peer addresses.
//!
//! A peer's advertised addresses are split into those we can dial directly
//! and those that could only work through a relay, judged against our own
//! address set. Loopback and double-relay addresses are dropped up front,
//! with a local-test fallback when a peer advertises nothing else.

use vstd::prelude::*;

use crate::addr::{
    Address, AddrComponent, Ip, circuit_count, first_ip, has_loopback, spec_reachable_from,
    clone_addr_vec, count_circuits, extract_ip, mentions_loopback, reachable_from,
};

verus! {

broadcast use vstd::seq_lib::group_filter_ensures;

/// An address that survives the up-front filter: no loopback host and at
/// most one relay-circuit marker.
pub open spec fn addr_admissible(s: Seq<AddrComponent>) -> bool {
    !has_loopback(s) && circuit_count(s) <= 1
}

/// The component sequences of a list of addresses.
pub open spec fn views_of(v: Seq<Address>) -> Seq<Seq<AddrComponent>> {
    v.map_values(|a: Address| a@)
}

/// The admissible addresses, in order.
pub open spec fn admissible_filter(a: Seq<Seq<AddrComponent>>) -> Seq<Seq<AddrComponent>> {
    a.filter(|s: Seq<AddrComponent>| addr_admissible(s))
}

/// Our own addresses that can witness reachability: the non-loopback ones.
pub open spec fn non_loopback_filter(own: Seq<Seq<AddrComponent>>) -> Seq<Seq<AddrComponent>> {
    own.filter(|s: Seq<AddrComponent>| !has_loopback(s))
}

/// Whether one of our addresses reaches the peer IP: it carries an IP of its
/// own from which `peer_ip` is reachable.
pub open spec fn spec_own_reaches(o: Seq<AddrComponent>, peer_ip: Ip) -> bool {
    match first_ip(o) {
        Some(own_ip) => spec_reachable_from(own_ip, peer_ip),
        None => false,
    }
}

/// Whether a peer address counts as directly reachable against the own set:
/// an address without an IP (a DNS name) is taken as direct; one with an IP
/// must be reachable from at least one of our addresses.
pub open spec fn spec_direct_ok(s: Seq<AddrComponent>, own1: Seq<Seq<AddrComponent>>) -> bool {
    match first_ip(s) {
        None => true,
        Some(peer_ip) => exists|j: int|
            0 <= j < own1.len() && spec_own_reaches(#[trigger] own1[j], peer_ip),
    }
}

/// A direct address: no relay circuit, and directly reachable.
pub open spec fn spec_direct_pred(s: Seq<AddrComponent>, own1: Seq<Seq<AddrComponent>>) -> bool {
    circuit_count(s) == 0 && spec_direct_ok(s, own1)
}

/// A relay candidate: no relay circuit, an IP of its own, and not directly
/// reachable.
pub open spec fn spec_relay_pred(s: Seq<AddrComponent>, own1: Seq<Seq<AddrComponent>>) -> bool {
    circuit_count(s) == 0 && first_ip(s) is Some && !spec_direct_ok(s, own1)
}

/// The direct addresses among the admissible ones.
pub open spec fn direct_filter(a1: Seq<Seq<AddrComponent>>, own1: Seq<Seq<AddrComponent>>) -> Seq<
    Seq<AddrComponent>,
> {
    a1.filter(|s: Seq<AddrComponent>| spec_direct_pred(s, own1))
}

/// The relay candidates among the admissible ones.
pub open spec fn relay_filter(a1: Seq<Seq<AddrComponent>>, own1: Seq<Seq<AddrComponent>>) -> Seq<
    Seq<AddrComponent>,
> {
    a1.filter(|s: Seq<AddrComponent>| spec_relay_pred(s, own1))
}

/// The addresses that do not route through more than one relay: an address
/// with two circuit markers is invalid and dropped unconditionally.
pub open spec fn no_double_relay_filter(a: Seq<Seq<AddrComponent>>) -> Seq<Seq<AddrComponent>> {
    a.filter(|s: Seq<AddrComponent>| circuit_count(s) <= 1)
}

/// The addresses without any relay circuit: only these may count as direct.
pub open spec fn circuit_free_filter(a: Seq<Seq<AddrComponent>>) -> Seq<Seq<AddrComponent>> {
    a.filter(|s: Seq<AddrComponent>| circuit_count(s) == 0)
}

/// What address filtering returns: the (direct, relay-candidate) partition.
/// When every peer address is loopback or double-relay, the loopback
/// addresses are kept as direct (local-test fallback) — double-relay
/// addresses are dropped even then. When we have no usable own address, the
/// admissible circuit-free addresses are kept as direct (conservative
/// fallback): an address carrying a relay circuit is never direct.
pub open spec fn spec_filter_with_relay(
    a: Seq<Seq<AddrComponent>>,
    own: Seq<Seq<AddrComponent>>,
) -> (Seq<Seq<AddrComponent>>, Seq<Seq<AddrComponent>>) {
    let a1 = admissible_filter(a);
    let own1 = non_loopback_filter(own);
    if a1.len() == 0 {
        (no_double_relay_filter(a), Seq::<Seq<AddrComponent>>::empty())
    } else if own1.len() == 0 {
        (circuit_free_filter(a1), Seq::<Seq<AddrComponent>>::empty())
    } else {
        (direct_filter(a1, own1), relay_filter(a1, own1))
    }
}

proof fn lemma_no_double_take_step(a: Seq<Seq<AddrComponent>>, i: int)
    requires
        0 <= i < a.len(),
    ensures
        no_double_relay_filter(a.take(i + 1)) == if circuit_count(a[i]) <= 1 {
            no_double_relay_filter(a.take(i)).push(a[i])
        } else {
            no_double_relay_filter(a.take(i))
        },
{
    reveal(Seq::filter);
    let t = a.take(i + 1);
    assert(t.last() == a[i]);
    assert(t.drop_last() =~= a.take(i));
}

proof fn lemma_circuit_free_take_step(a: Seq<Seq<AddrComponent>>, i: int)
    requires
        0 <= i < a.len(),
    ensures
        circuit_free_filter(a.take(i + 1)) == if circuit_count(a[i]) == 0 {
            circuit_free_filter(a.take(i)).push(a[i])
        } else {
            circuit_free_filter(a.take(i))
        },
{
    reveal(Seq::filter);
    let t = a.take(i + 1);
    assert(t.last() == a[i]);
    assert(t.drop_last() =~= a.take(i));
}

proof fn lemma_admissible_take_step(a: Seq<Seq<AddrComponent>>, i: int)
    requires
        0 <= i < a.len(),
    ensures
        admissible_filter(a.take(i + 1)) == if addr_admissible(a[i]) {
            admissible_filter(a.take(i)).push(a[i])
        } else {
            admissible_filter(a.take(i))
        },
{
    reveal(Seq::filter);
    let t = a.take(i + 1);
    assert(t.last() == a[i]);
    assert(t.drop_last() =~= a.take(i));
}

proof fn lemma_usable_take_step(own: Seq<Seq<AddrComponent>>, i: int)
    requires
        0 <= i < own.len(),
    ensures
        non_loopback_filter(own.take(i + 1)) == if !has_loopback(own[i]) {
            non_loopback_filter(own.take(i)).push(own[i])
        } else {
            non_loopback_filter(own.take(i))
        },
{
    reveal(Seq::filter);
    let t = own.take(i + 1);
    assert(t.last() == own[i]);
    assert(t.drop_last() =~= own.take(i));
}

proof fn lemma_direct_take_step(a1: Seq<Seq<AddrComponent>>, own1: Seq<Seq<AddrComponent>>, i: int)
    requires
        0 <= i < a1.len(),
    ensures
        direct_filter(a1.take(i + 1), own1) == if spec_direct_pred(a1[i], own1) {
            direct_filter(a1.take(i), own1).push(a1[i])
        } else {
            direct_filter(a1.take(i), own1)
        },
{
    reveal(Seq::filter);
    let t = a1.take(i + 1);
    assert(t.last() == a1[i]);
    assert(t.drop_last() =~= a1.take(i));
}

proof fn lemma_relay_take_step(a1: Seq<Seq<AddrComponent>>, own1: Seq<Seq<AddrComponent>>, i: int)
    requires
        0 <= i < a1.len(),
    ensures
        relay_filter(a1.take(i + 1), own1) == if spec_relay_pred(a1[i], own1) {
            relay_filter(a1.take(i), own1).push(a1[i])
        } else {
            relay_filter(a1.take(i), own1)
        },
{
    reveal(Seq::filter);
    let t = a1.take(i + 1);
    assert(t.last() == a1[i]);
    assert(t.drop_last() =~= a1.take(i));
}

proof fn lemma_admissible_elems(a: Seq<Seq<AddrComponent>>)
    ensures
        forall|i: int| 0 <= i < admissible_filter(a).len() ==> a.contains(
            #[trigger] admissible_filter(a)[i],
        ),
    decreases a.len(),
{
    reveal(Seq::filter);
    if a.len() > 0 {
        let prefix = a.drop_last();
        lemma_admissible_elems(prefix);
        let out = admissible_filter(a);
        let sub = admissible_filter(prefix);
        assert forall|i: int| 0 <= i < out.len() implies a.contains(out[i]) by {
            if addr_admissible(a.last()) && i == out.len() - 1 {
                assert(out[i] == a.last());
                assert(a[a.len() - 1] == a.last());
            } else {
                assert(out[i] == sub[i]);
                assert(prefix.contains(sub[i]));
                let j = choose|j: int| 0 <= j < prefix.len() && prefix[j] == sub[i];
                assert(a[j] == sub[i]);
            }
        }
    }
}

proof fn lemma_direct_elems(a1: Seq<Seq<AddrComponent>>, own1: Seq<Seq<AddrComponent>>)
    ensures
        forall|i: int| 0 <= i < direct_filter(a1, own1).len() ==> a1.contains(
            #[trigger] direct_filter(a1, own1)[i],
        ),
    decreases a1.len(),
{
    reveal(Seq::filter);
    if a1.len() > 0 {
        let prefix = a1.drop_last();
        lemma_direct_elems(prefix, own1);
        let out = direct_filter(a1, own1);
        let sub = direct_filter(prefix, own1);
        assert forall|i: int| 0 <= i < out.len() implies a1.contains(out[i]) by {
            if spec_direct_pred(a1.last(), own1) && i == out.len() - 1 {
                assert(out[i] == a1.last());
                assert(a1[a1.len() - 1] == a1.last());
            } else {
                assert(out[i] == sub[i]);
                assert(prefix.contains(sub[i]));
                let j = choose|j: int| 0 <= j < prefix.len() && prefix[j] == sub[i];
                assert(a1[j] == sub[i]);
            }
        }
    }
}

proof fn lemma_admissible_all(s: Seq<Seq<AddrComponent>>)
    requires
        forall|i: int| 0 <= i < s.len() ==> addr_admissible(#[trigger] s[i]),
    ensures
        admissible_filter(s) == s,
    decreases s.len(),
{
    reveal(Seq::filter);
    if s.len() == 0 {
        assert(admissible_filter(s) =~= s);
    } else {
        let prefix = s.drop_last();
        assert forall|i: int| 0 <= i < prefix.len() implies addr_admissible(#[trigger] prefix[i]) by {
            assert(prefix[i] == s[i]);
        }
        lemma_admissible_all(prefix);
        assert(s[s.len() - 1] == s.last());
        assert(admissible_filter(s) == prefix.push(s.last()));
        assert(prefix.push(s.last()) =~= s);
    }
}

proof fn lemma_direct_all(s: Seq<Seq<AddrComponent>>, own1: Seq<Seq<AddrComponent>>)
    requires
        forall|i: int| 0 <= i < s.len() ==> spec_direct_pred(#[trigger] s[i], own1),
    ensures
        direct_filter(s, own1) == s,
    decreases s.len(),
{
    reveal(Seq::filter);
    if s.len() == 0 {
        assert(direct_filter(s, own1) =~= s);
    } else {
        let prefix = s.drop_last();
        assert forall|i: int| 0 <= i < prefix.len() implies spec_direct_pred(
            #[trigger] prefix[i],
            own1,
        ) by {
            assert(prefix[i] == s[i]);
        }
        lemma_direct_all(prefix, own1);
        assert(s[s.len() - 1] == s.last());
        assert(direct_filter(s, own1) == prefix.push(s.last()));
        assert(prefix.push(s.last()) =~= s);
    }
}

proof fn lemma_relay_none(s: Seq<Seq<AddrComponent>>, own1: Seq<Seq<AddrComponent>>)
    requires
        forall|i: int| 0 <= i < s.len() ==> !spec_relay_pred(#[trigger] s[i], own1),
    ensures
        relay_filter(s, own1) == Seq::<Seq<AddrComponent>>::empty(),
    decreases s.len(),
{
    reveal(Seq::filter);
    if s.len() == 0 {
        assert(relay_filter(s, own1) =~= Seq::<Seq<AddrComponent>>::empty());
    } else {
        let prefix = s.drop_last();
        assert forall|i: int| 0 <= i < prefix.len() implies !spec_relay_pred(
            #[trigger] prefix[i],
            own1,
        ) by {
            assert(prefix[i] == s[i]);
        }
        lemma_relay_none(prefix, own1);
        assert(s[s.len() - 1] == s.last());
    }
}

proof fn lemma_no_double_elems(a: Seq<Seq<AddrComponent>>)
    ensures
        forall|i: int| 0 <= i < no_double_relay_filter(a).len() ==> a.contains(
            #[trigger] no_double_relay_filter(a)[i],
        ),
    decreases a.len(),
{
    reveal(Seq::filter);
    if a.len() > 0 {
        let prefix = a.drop_last();
        lemma_no_double_elems(prefix);
        let out = no_double_relay_filter(a);
        let sub = no_double_relay_filter(prefix);
        assert forall|i: int| 0 <= i < out.len() implies a.contains(out[i]) by {
            if circuit_count(a.last()) <= 1 && i == out.len() - 1 {
                assert(out[i] == a.last());
                assert(a[a.len() - 1] == a.last());
            } else {
                assert(out[i] == sub[i]);
                assert(prefix.contains(sub[i]));
                let j = choose|j: int| 0 <= j < prefix.len() && prefix[j] == sub[i];
                assert(a[j] == sub[i]);
            }
        }
    }
}

proof fn lemma_no_double_all(s: Seq<Seq<AddrComponent>>)
    requires
        forall|i: int| 0 <= i < s.len() ==> circuit_count(#[trigger] s[i]) <= 1,
    ensures
        no_double_relay_filter(s) == s,
    decreases s.len(),
{
    reveal(Seq::filter);
    if s.len() == 0 {
        assert(no_double_relay_filter(s) =~= s);
    } else {
        let prefix = s.drop_last();
        assert forall|i: int| 0 <= i < prefix.len() implies circuit_count(#[trigger] prefix[i])
            <= 1 by {
            assert(prefix[i] == s[i]);
        }
        lemma_no_double_all(prefix);
        assert(s[s.len() - 1] == s.last());
        assert(no_double_relay_filter(s) == prefix.push(s.last()));
        assert(prefix.push(s.last()) =~= s);
    }
}

proof fn lemma_circuit_free_elems(a: Seq<Seq<AddrComponent>>)
    ensures
        forall|i: int| 0 <= i < circuit_free_filter(a).len() ==> a.contains(
            #[trigger] circuit_free_filter(a)[i],
        ),
    decreases a.len(),
{
    reveal(Seq::filter);
    if a.len() > 0 {
        let prefix = a.drop_last();
        lemma_circuit_free_elems(prefix);
        let out = circuit_free_filter(a);
        let sub = circuit_free_filter(prefix);
        assert forall|i: int| 0 <= i < out.len() implies a.contains(out[i]) by {
            if circuit_count(a.last()) == 0 && i == out.len() - 1 {
                assert(out[i] == a.last());
                assert(a[a.len() - 1] == a.last());
            } else {
                assert(out[i] == sub[i]);
                assert(prefix.contains(sub[i]));
                let j = choose|j: int| 0 <= j < prefix.len() && prefix[j] == sub[i];
                assert(a[j] == sub[i]);
            }
        }
    }
}

proof fn lemma_circuit_free_all(s: Seq<Seq<AddrComponent>>)
    requires
        forall|i: int| 0 <= i < s.len() ==> circuit_count(#[trigger] s[i]) == 0,
    ensures
        circuit_free_filter(s) == s,
    decreases s.len(),
{
    reveal(Seq::filter);
    if s.len() == 0 {
        assert(circuit_free_filter(s) =~= s);
    } else {
        let prefix = s.drop_last();
        assert forall|i: int| 0 <= i < prefix.len() implies circuit_count(#[trigger] prefix[i])
            == 0 by {
            assert(prefix[i] == s[i]);
        }
        lemma_circuit_free_all(prefix);
        assert(s[s.len() - 1] == s.last());
        assert(circuit_free_filter(s) == prefix.push(s.last()));
        assert(prefix.push(s.last()) =~= s);
    }
}

/// When the admissible filter keeps nothing, no input was admissible.
proof fn lemma_admissible_empty(a: Seq<Seq<AddrComponent>>)
    requires
        admissible_filter(a).len() == 0,
    ensures
        forall|i: int| 0 <= i < a.len() ==> !addr_admissible(#[trigger] a[i]),
    decreases a.len(),
{
    reveal(Seq::filter);
    if a.len() > 0 {
        let prefix = a.drop_last();
        assert(admissible_filter(prefix).len() == 0);
        lemma_admissible_empty(prefix);
        assert forall|i: int| 0 <= i < a.len() implies !addr_admissible(#[trigger] a[i]) by {
            if i < a.len() - 1 {
                assert(prefix[i] == a[i]);
            } else {
                assert(a[i] == a.last());
            }
        }
    }
}

/// Address filtering is idempotent: running the direct addresses of a
/// filtered set through the same filter, against the same own set, returns
/// them unchanged and yields no new relay candidates.
pub proof fn lemma_filter_idempotent(a: Seq<Seq<AddrComponent>>, own: Seq<Seq<AddrComponent>>)
    ensures
        spec_filter_with_relay(spec_filter_with_relay(a, own).0, own).0 == spec_filter_with_relay(
            a,
            own,
        ).0,
        spec_filter_with_relay(spec_filter_with_relay(a, own).0, own).1 == Seq::<
            Seq<AddrComponent>,
        >::empty(),
{
    let a1 = admissible_filter(a);
    let own1 = non_loopback_filter(own);
    if a1.len() == 0 {
        // The fallback kept the loopback addresses and dropped double-relay
        // ones: nothing admissible remains, and nothing routes through two
        // relays, so the second call repeats the same fallback unchanged.
        let d = no_double_relay_filter(a);
        lemma_no_double_elems(a);
        lemma_admissible_empty(a);
        assert forall|i: int| 0 <= i < d.len() implies !addr_admissible(#[trigger] d[i])
            && circuit_count(d[i]) <= 1 by {
            assert(a.contains(d[i]));
            let j = choose|j: int| 0 <= j < a.len() && a[j] == d[i];
            assert(!addr_admissible(a[j]));
        }
        if admissible_filter(d).len() != 0 {
            lemma_admissible_elems(d);
            let x = admissible_filter(d)[0];
            assert(addr_admissible(x));
            assert(d.contains(x));
            let j = choose|j: int| 0 <= j < d.len() && d[j] == x;
            assert(!addr_admissible(d[j]));
            assert(false);
        }
        lemma_no_double_all(d);
    } else if own1.len() == 0 {
        // The conservative fallback kept the admissible circuit-free
        // addresses: they pass the up-front filter and the circuit-free
        // filter unchanged.
        let d = circuit_free_filter(a1);
        lemma_circuit_free_elems(a1);
        assert forall|i: int| 0 <= i < d.len() implies addr_admissible(#[trigger] d[i])
            && circuit_count(d[i]) == 0 by {
            assert(a1.contains(d[i]));
            let j = choose|j: int| 0 <= j < a1.len() && a1[j] == d[i];
            assert(addr_admissible(a1[j]));
        }
        if d.len() == 0 {
            assert(no_double_relay_filter(d) =~= d);
        } else {
            lemma_admissible_all(d);
            lemma_circuit_free_all(d);
        }
    } else {
        // The direct addresses are admissible, circuit-free and directly
        // reachable, so the second call keeps each of them and classifies
        // none for relay.
        let d = direct_filter(a1, own1);
        assert forall|i: int| 0 <= i < d.len() implies addr_admissible(#[trigger] d[i])
            && spec_direct_pred(d[i], own1) by {
            lemma_direct_elems(a1, own1);
            assert(a1.contains(d[i]));
            let j = choose|j: int| 0 <= j < a1.len() && a1[j] == d[i];
            assert(addr_admissible(a1[j]));
        }
        if d.len() == 0 {
            assert(no_double_relay_filter(d) =~= d);
        } else {
            lemma_admissible_all(d);
            lemma_direct_all(d, own1);
            assert forall|i: int| 0 <= i < d.len() implies !spec_relay_pred(
                #[trigger] d[i],
                own1,
            ) by {}
            lemma_relay_none(d, own1);
        }
    }
}

/// Result of filtering addresses by reachability. The two lists are
/// disjoint: an address is either directly reachable or a relay candidate.
#[derive(Debug)]
pub struct FilteredAddresses {
    /// Addresses that are directly reachable.
    pub direct: Vec<Address>,
    /// Addresses that are not directly reachable but could work via relay.
    pub relay_candidates: Vec<Address>,
}

/// Whether any of our usable addresses reaches the peer IP.
fn own_reaches_any(own: &Vec<Address>, peer_ip: Ip) -> (r: bool)
    ensures
        r == exists|j: int|
            0 <= j < own@.len() && spec_own_reaches((#[trigger] own@[j])@, peer_ip),
{
    let mut j: usize = 0;
    while j < own.len()
        invariant
            j <= own@.len(),
            forall|k: int| 0 <= k < j ==> !spec_own_reaches((#[trigger] own@[k])@, peer_ip),
        decreases own@.len() - j,
    {
        match extract_ip(&own[j]) {
            Some(own_ip) => {
                if reachable_from(&own_ip, &peer_ip) {
                    proof {
                        assert(spec_own_reaches(own@[j as int]@, peer_ip));
                    }
                    return true;
                }
            },
            None => {
            },
        }
        j = j + 1;
    }
    false
}

/// Keep only the addresses that mention no loopback host.
pub fn filter_non_loopback(addrs: &Vec<Address>) -> (r: Vec<Address>)
    ensures
        views_of(r@) == non_loopback_filter(views_of(addrs@)),
{
    let ghost a_views = views_of(addrs@);
    let mut out: Vec<Address> = Vec::new();
    let mut i: usize = 0;
    proof {
        assert(a_views.take(0) =~= Seq::<Seq<AddrComponent>>::empty());
        reveal(Seq::filter);
    }
    while i < addrs.len()
        invariant
            i <= addrs@.len(),
            a_views == views_of(addrs@),
            views_of(out@) == non_loopback_filter(a_views.take(i as int)),
        decreases addrs@.len() - i,
    {
        proof {
            lemma_usable_take_step(a_views, i as int);
        }
        if !mentions_loopback(&addrs[i]) {
            out.push(addrs[i].clone());
            proof {
                assert(views_of(out@) =~= non_loopback_filter(a_views.take(i as int + 1)));
            }
        }
        i = i + 1;
    }
    proof {
        assert(a_views.take(a_views.len() as int) =~= a_views);
    }
    out
}

/// Filter addresses into directly reachable ones and relay candidates.
///
/// Loopback and double-relay addresses are dropped first; if nothing
/// survives, the original list is kept as direct (local testing). Addresses
/// carrying a relay circuit are set aside entirely: the IP in them belongs
/// to the relay server, not the peer. The rest are judged by IP
/// reachability from any of our own non-loopback addresses; without any
/// usable own address the admissible addresses are kept as direct.
pub fn filter_addresses_with_relay(addrs: &Vec<Address>, own_addrs: &Vec<Address>) -> (r:
    FilteredAddresses)
    ensures
        views_of(r.direct@) == spec_filter_with_relay(
            views_of(addrs@),
            views_of(own_addrs@),
        ).0,
        views_of(r.relay_candidates@) == spec_filter_with_relay(
            views_of(addrs@),
            views_of(own_addrs@),
        ).1,
{
    let ghost a_views = views_of(addrs@);
    let ghost own_views = views_of(own_addrs@);

    // Drop loopback and double-relay addresses.
    let mut non_loopback: Vec<Address> = Vec::new();
    let mut i: usize = 0;
    proof {
        assert(a_views.take(0) =~= Seq::<Seq<AddrComponent>>::empty());
        reveal(Seq::filter);
    }
    while i < addrs.len()
        invariant
            i <= addrs@.len(),
            a_views == views_of(addrs@),
            views_of(non_loopback@) == admissible_filter(a_views.take(i as int)),
        decreases addrs@.len() - i,
    {
        let a = &addrs[i];
        proof {
            lemma_admissible_take_step(a_views, i as int);
        }
        let circuits = count_circuits(a);
        if !mentions_loopback(a) && circuits <= 1 {
            non_loopback.push(a.clone());
            proof {
                assert(views_of(non_loopback@) =~= admissible_filter(a_views.take(i as int + 1)));
            }
        }
        i = i + 1;
    }
    proof {
        assert(a_views.take(a_views.len() as int) =~= a_views);
    }
    let ghost a1 = admissible_filter(a_views);

    // Local-test fallback: a peer with only loopback addresses keeps them;
    // double-relay addresses stay dropped even here.
    if non_loopback.len() == 0 {
        let mut direct: Vec<Address> = Vec::new();
        let mut f: usize = 0;
        proof {
            assert(views_of(direct@) =~= no_double_relay_filter(a_views.take(0)));
        }
        while f < addrs.len()
            invariant
                f <= addrs@.len(),
                a_views == views_of(addrs@),
                views_of(direct@) == no_double_relay_filter(a_views.take(f as int)),
            decreases addrs@.len() - f,
        {
            proof {
                lemma_no_double_take_step(a_views, f as int);
            }
            let circuits = count_circuits(&addrs[f]);
            if circuits <= 1 {
                direct.push(addrs[f].clone());
                proof {
                    assert(views_of(direct@) =~= no_double_relay_filter(
                        a_views.take(f as int + 1),
                    ));
                }
            }
            f = f + 1;
        }
        proof {
            assert(a_views.take(a_views.len() as int) =~= a_views);
        }
        return FilteredAddresses { direct, relay_candidates: Vec::new() };
    }
    // Our own addresses that can witness reachability.
    let mut own_usable: Vec<Address> = Vec::new();
    let mut k: usize = 0;
    proof {
        assert(own_views.take(0) =~= Seq::<Seq<AddrComponent>>::empty());
    }
    while k < own_addrs.len()
        invariant
            k <= own_addrs@.len(),
            own_views == views_of(own_addrs@),
            views_of(own_usable@) == non_loopback_filter(own_views.take(k as int)),
        decreases own_addrs@.len() - k,
    {
        let o = &own_addrs[k];
        proof {
            lemma_usable_take_step(own_views, k as int);
        }
        if !mentions_loopback(o) {
            own_usable.push(o.clone());
            proof {
                assert(views_of(own_usable@) =~= non_loopback_filter(own_views.take(k as int + 1)));
            }
        }
        k = k + 1;
    }
    proof {
        assert(own_views.take(own_views.len() as int) =~= own_views);
    }
    let ghost own1 = non_loopback_filter(own_views);

    // Conservative fallback: with no usable own address keep the admissible
    // circuit-free addresses as direct; a relay-circuit address is never
    // direct, since the IP in it belongs to the relay server.
    if own_usable.len() == 0 {
        let mut direct: Vec<Address> = Vec::new();
        let mut f: usize = 0;
        proof {
            assert(views_of(direct@) =~= circuit_free_filter(a1.take(0)));
        }
        while f < non_loopback.len()
            invariant
                f <= non_loopback@.len(),
                a1 == views_of(non_loopback@),
                a1.len() == non_loopback@.len(),
                views_of(direct@) == circuit_free_filter(a1.take(f as int)),
            decreases non_loopback@.len() - f,
        {
            proof {
                lemma_circuit_free_take_step(a1, f as int);
                assert(a1[f as int] == (#[trigger] non_loopback@[f as int])@);
            }
            let circuits = count_circuits(&non_loopback[f]);
            if circuits == 0 {
                direct.push(non_loopback[f].clone());
                proof {
                    assert(views_of(direct@) =~= circuit_free_filter(a1.take(f as int + 1)));
                }
            }
            f = f + 1;
        }
        proof {
            assert(a1.take(a1.len() as int) =~= a1);
        }
        return FilteredAddresses { direct, relay_candidates: Vec::new() };
    }
    // Partition by reachability from any of our usable addresses.
    let mut direct: Vec<Address> = Vec::new();
    let mut relay_candidates: Vec<Address> = Vec::new();
    let mut i2: usize = 0;
    proof {
        assert(a1.take(0) =~= Seq::<Seq<AddrComponent>>::empty());
    }
    while i2 < non_loopback.len()
        invariant
            i2 <= non_loopback@.len(),
            a1 == views_of(non_loopback@),
            own1 == views_of(own_usable@),
            views_of(direct@) == direct_filter(a1.take(i2 as int), own1),
            views_of(relay_candidates@) == relay_filter(a1.take(i2 as int), own1),
        decreases non_loopback@.len() - i2,
    {
        let a = &non_loopback[i2];
        proof {
            lemma_direct_take_step(a1, own1, i2 as int);
            lemma_relay_take_step(a1, own1, i2 as int);
            assert(a1[i2 as int] == a@);
        }
        let circuits = count_circuits(a);
        if circuits == 0 {
            match extract_ip(a) {
                None => {
                    // No IP (a DNS name): keep as direct.
                    direct.push(a.clone());
                    proof {
                        assert(views_of(direct@) =~= direct_filter(a1.take(i2 as int + 1), own1));
                    }
                },
                Some(peer_ip) => {
                    let reachable = own_reaches_any(&own_usable, peer_ip);
                    proof {
                        assert forall|j: int| 0 <= j < own1.len() implies own1[j] == (
                        #[trigger] own_usable@[j])@ by {}
                        assert(reachable == spec_direct_ok(a@, own1));
                    }
                    if reachable {
                        direct.push(a.clone());
                        proof {
                            assert(views_of(direct@) =~= direct_filter(
                                a1.take(i2 as int + 1),
                                own1,
                            ));
                        }
                    } else {
                        relay_candidates.push(a.clone());
                        proof {
                            assert(views_of(relay_candidates@) =~= relay_filter(
                                a1.take(i2 as int + 1),
                                own1,
                            ));
                        }
                    }
                },
            }
        }
        i2 = i2 + 1;
    }
    proof {
        assert(a1.take(a1.len() as int) =~= a1);
    }
    FilteredAddresses { direct, relay_candidates }
}

} // verus!
