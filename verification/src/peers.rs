//! Peer-exchange protocol: building and answering peers-requests, and
//! absorbing peers-responses into the dial queue.

use vstd::prelude::*;

use crate::addr::{Address, AddrComponent, clone_addr_vec};
use crate::addr_filter::views_of;
use crate::discovery::{Discovery, NodeEntry, RequestData, step_effect};
use crate::PeerId;

verus! {

/// A peer as exchanged over the wire, viewed: its id if known, and the
/// component sequences of its addresses.
pub type PeerEntryView = (Option<PeerId>, Seq<Seq<AddrComponent>>);

/// The views of a list of wire peer entries.
pub open spec fn entry_views_of(v: Seq<NodeEntry>) -> Seq<PeerEntryView> {
    v.map_values(|e: NodeEntry| (e.0, views_of(e.1@)))
}

/// A bootstrap entry survives the pruning against the peer table when none
/// of its addresses is advertised by any discovered peer that has
/// addresses.
pub open spec fn bootstrap_survives(entry: NodeEntry, disc: Seq<(PeerId, Vec<Address>)>) -> bool {
    forall|i: int, a: int|
        0 <= i < disc.len() && disc[i].1@.len() > 0 && 0 <= a < entry.1@.len()
            ==> !crate::discovery::addr_list_has((#[trigger] disc[i]).1@, (#[trigger] entry.1@[a])@)
}

/// The discovered peers that go into a peers message, in table order: those
/// with at least one address, except the addressee, each as its id and
/// addresses.
pub open spec fn disc_part(disc: Seq<(PeerId, Vec<Address>)>, p: PeerId) -> Seq<PeerEntryView> {
    disc.filter(|e: (PeerId, Vec<Address>)| e.1@.len() > 0 && e.0 != p).map_values(
        |e: (PeerId, Vec<Address>)| (Some(e.0), views_of(e.1@)),
    )
}

/// The bootstrap entries that go into a peers message: those the peer table
/// does not already cover, and not one bound to the addressee itself.
pub open spec fn boot_part(boot: Seq<NodeEntry>, disc: Seq<(PeerId, Vec<Address>)>, p: PeerId) -> Seq<
    PeerEntryView,
> {
    boot.filter(|e: NodeEntry| bootstrap_survives(e, disc) && e.0 != Some(p)).map_values(
        |e: NodeEntry| (e.0, views_of(e.1@)),
    )
}

/// Append `rest` to `acc`, dropping entries already present: the wire
/// format carries a set, deduplicated by full tuple equality.
pub open spec fn dedup_append(acc: Seq<PeerEntryView>, rest: Seq<PeerEntryView>) -> Seq<
    PeerEntryView,
>
    decreases rest.len(),
{
    if rest.len() == 0 {
        acc
    } else {
        let acc2 = dedup_append(acc, rest.drop_last());
        if acc2.contains(rest.last()) {
            acc2
        } else {
            acc2.push(rest.last())
        }
    }
}

proof fn lemma_disc_part_take_step(disc: Seq<(PeerId, Vec<Address>)>, p: PeerId, i: int)
    requires
        0 <= i < disc.len(),
    ensures
        disc_part(disc.take(i + 1), p) == if disc[i].1@.len() > 0 && disc[i].0 != p {
            disc_part(disc.take(i), p).push((Some(disc[i].0), views_of(disc[i].1@)))
        } else {
            disc_part(disc.take(i), p)
        },
{
    reveal(Seq::filter);
    let t = disc.take(i + 1);
    assert(t.last() == disc[i]);
    assert(t.drop_last() =~= disc.take(i));
    let pred = |e: (PeerId, Vec<Address>)| e.1@.len() > 0 && e.0 != p;
    if pred(disc[i]) {
        assert(t.filter(pred) == disc.take(i).filter(pred).push(disc[i]));
        assert(disc_part(t, p) =~= disc_part(disc.take(i), p).push(
            (Some(disc[i].0), views_of(disc[i].1@)),
        ));
    } else {
        assert(t.filter(pred) == disc.take(i).filter(pred));
    }
}

proof fn lemma_boot_part_take_step(
    boot: Seq<NodeEntry>,
    disc: Seq<(PeerId, Vec<Address>)>,
    p: PeerId,
    i: int,
)
    requires
        0 <= i < boot.len(),
    ensures
        boot_part(boot.take(i + 1), disc, p) == if bootstrap_survives(boot[i], disc) && boot[i].0
            != Some(p) {
            boot_part(boot.take(i), disc, p).push((boot[i].0, views_of(boot[i].1@)))
        } else {
            boot_part(boot.take(i), disc, p)
        },
{
    reveal(Seq::filter);
    let t = boot.take(i + 1);
    assert(t.last() == boot[i]);
    assert(t.drop_last() =~= boot.take(i));
    let pred = |e: NodeEntry| bootstrap_survives(e, disc) && e.0 != Some(p);
    if pred(boot[i]) {
        assert(t.filter(pred) == boot.take(i).filter(pred).push(boot[i]));
        assert(boot_part(t, disc, p) =~= boot_part(boot.take(i), disc, p).push(
            (boot[i].0, views_of(boot[i].1@)),
        ));
    } else {
        assert(t.filter(pred) == boot.take(i).filter(pred));
    }
}

/// The entries of `all` that the addressee does not already know.
pub open spec fn except_known(all: Seq<PeerEntryView>, known: Seq<PeerEntryView>) -> Seq<
    PeerEntryView,
> {
    all.filter(|e: PeerEntryView| !known.contains(e))
}

proof fn lemma_except_known_take_step(all: Seq<PeerEntryView>, known: Seq<PeerEntryView>, i: int)
    requires
        0 <= i < all.len(),
    ensures
        except_known(all.take(i + 1), known) == if !known.contains(all[i]) {
            except_known(all.take(i), known).push(all[i])
        } else {
            except_known(all.take(i), known)
        },
{
    reveal(Seq::filter);
    let t = all.take(i + 1);
    assert(t.last() == all[i]);
    assert(t.drop_last() =~= all.take(i));
}

/// The requester's addresses as we know them: the peer table entry, or our
/// own addresses when the requester is unknown (conservative fallback).
pub open spec fn requester_addr_views(
    disc: Seq<(PeerId, Vec<Address>)>,
    p: PeerId,
    fallback: Seq<Seq<AddrComponent>>,
) -> Seq<Seq<AddrComponent>>
    decreases disc.len(),
{
    if disc.len() == 0 {
        fallback
    } else if disc[0].0 == p {
        views_of(disc[0].1@)
    } else {
        requester_addr_views(disc.subrange(1, disc.len() as int), p, fallback)
    }
}

/// What one exchanged peer becomes in a peers-response: its addresses
/// filtered for reachability from the requester; when only relay candidates
/// remain and the peer id is known, relay addresses via ourselves, else via
/// the configured relay servers; nothing when no address can be offered.
pub open spec fn response_entry(
    e: PeerEntryView,
    requester_views: Seq<Seq<AddrComponent>>,
    own_views: Seq<Seq<AddrComponent>>,
    own_id: PeerId,
    relays: Seq<NodeEntry>,
) -> Option<PeerEntryView> {
    let f = crate::addr_filter::spec_filter_with_relay(e.1, requester_views);
    if f.0.len() > 0 {
        Some((e.0, f.0))
    } else if f.1.len() > 0 && e.0 is Some {
        match e.0 {
            Some(t) => {
                let via_self = crate::discovery::synth_map(
                    crate::discovery::relay_base_filter(own_views),
                    own_id,
                    t,
                );
                if via_self.len() > 0 {
                    Some((Some(t), via_self))
                } else if relays.len() > 0 {
                    let via = crate::discovery::spec_relay_addrs(relays, t);
                    if via.len() > 0 {
                        Some((Some(t), via))
                    } else {
                        None
                    }
                } else {
                    None
                }
            },
            None => None,
        }
    } else {
        None
    }
}

/// The peers-response for a sequence of exchanged peers, in order.
pub open spec fn response_seq(
    entries: Seq<PeerEntryView>,
    requester_views: Seq<Seq<AddrComponent>>,
    own_views: Seq<Seq<AddrComponent>>,
    own_id: PeerId,
    relays: Seq<NodeEntry>,
) -> Seq<PeerEntryView>
    decreases entries.len(),
{
    if entries.len() == 0 {
        Seq::<PeerEntryView>::empty()
    } else {
        let rest = response_seq(entries.drop_last(), requester_views, own_views, own_id, relays);
        match response_entry(entries.last(), requester_views, own_views, own_id, relays) {
            Some(x) => rest.push(x),
            None => rest,
        }
    }
}

proof fn lemma_response_seq_take_step(
    entries: Seq<PeerEntryView>,
    requester_views: Seq<Seq<AddrComponent>>,
    own_views: Seq<Seq<AddrComponent>>,
    own_id: PeerId,
    relays: Seq<NodeEntry>,
    i: int,
)
    requires
        0 <= i < entries.len(),
    ensures
        response_seq(entries.take(i + 1), requester_views, own_views, own_id, relays)
            == match response_entry(entries[i], requester_views, own_views, own_id, relays) {
            Some(x) => response_seq(entries.take(i), requester_views, own_views, own_id, relays).push(x),
            None => response_seq(entries.take(i), requester_views, own_views, own_id, relays),
        },
{
    let t = entries.take(i + 1);
    assert(t.last() == entries[i]);
    assert(t.drop_last() =~= entries.take(i));
}

/// The addresses of an exchanged peer that already carry a relay circuit:
/// they are pre-built paths and are dialed as they stand.
pub open spec fn circuit_filter(a: Seq<Seq<AddrComponent>>) -> Seq<Seq<AddrComponent>> {
    a.filter(|s: Seq<AddrComponent>| crate::addr::circuit_count(s) >= 1)
}

/// The addresses of an exchanged peer without a relay circuit.
pub open spec fn plain_filter(a: Seq<Seq<AddrComponent>>) -> Seq<Seq<AddrComponent>> {
    a.filter(|s: Seq<AddrComponent>| crate::addr::circuit_count(s) < 1)
}

proof fn lemma_circuit_split_take_step(a: Seq<Seq<AddrComponent>>, i: int)
    requires
        0 <= i < a.len(),
    ensures
        circuit_filter(a.take(i + 1)) == if crate::addr::circuit_count(a[i]) >= 1 {
            circuit_filter(a.take(i)).push(a[i])
        } else {
            circuit_filter(a.take(i))
        },
        plain_filter(a.take(i + 1)) == if crate::addr::circuit_count(a[i]) < 1 {
            plain_filter(a.take(i)).push(a[i])
        } else {
            plain_filter(a.take(i))
        },
{
    reveal(Seq::filter);
    let t = a.take(i + 1);
    assert(t.last() == a[i]);
    assert(t.drop_last() =~= a.take(i));
}

/// What one peer received in a peers-response contributes to the dial
/// queue: its relay-circuit addresses as they stand; else its directly
/// reachable addresses; else, with relay servers configured and the peer id
/// known, synthesized relay addresses; else nothing.
pub open spec fn dial_from_entry(
    e: PeerEntryView,
    own_views: Seq<Seq<AddrComponent>>,
    relays: Seq<NodeEntry>,
) -> Option<(Option<PeerId>, Seq<Seq<AddrComponent>>)> {
    let circ = circuit_filter(e.1);
    if circ.len() > 0 {
        Some((e.0, circ))
    } else {
        let f = crate::addr_filter::spec_filter_with_relay(plain_filter(e.1), own_views);
        if f.0.len() > 0 {
            Some((e.0, f.0))
        } else if f.1.len() > 0 && relays.len() > 0 && e.0 is Some {
            match e.0 {
                Some(t) => {
                    let via = crate::discovery::spec_relay_addrs(relays, t);
                    if via.len() > 0 {
                        Some((Some(t), via))
                    } else {
                        None
                    }
                },
                None => None,
            }
        } else {
            None
        }
    }
}

/// The dial-queue additions for a whole peers-response, in order.
pub open spec fn dials_from(
    entries: Seq<PeerEntryView>,
    own_views: Seq<Seq<AddrComponent>>,
    relays: Seq<NodeEntry>,
) -> Seq<(Option<PeerId>, Seq<Seq<AddrComponent>>)>
    decreases entries.len(),
{
    if entries.len() == 0 {
        Seq::<(Option<PeerId>, Seq<Seq<AddrComponent>>)>::empty()
    } else {
        let rest = dials_from(entries.drop_last(), own_views, relays);
        match dial_from_entry(entries.last(), own_views, relays) {
            Some(x) => rest.push(x),
            None => rest,
        }
    }
}

proof fn lemma_dials_from_take_step(
    entries: Seq<PeerEntryView>,
    own_views: Seq<Seq<AddrComponent>>,
    relays: Seq<NodeEntry>,
    i: int,
)
    requires
        0 <= i < entries.len(),
    ensures
        dials_from(entries.take(i + 1), own_views, relays) == match dial_from_entry(
            entries[i],
            own_views,
            relays,
        ) {
            Some(x) => dials_from(entries.take(i), own_views, relays).push(x),
            None => dials_from(entries.take(i), own_views, relays),
        },
{
    let t = entries.take(i + 1);
    assert(t.last() == entries[i]);
    assert(t.drop_last() =~= entries.take(i));
}

/// The views of a dial queue: for each dial, the peer if known and the
/// address components.
pub open spec fn dial_views_of(q: Seq<crate::discovery::DialData>) -> Seq<
    (Option<PeerId>, Seq<Seq<AddrComponent>>),
> {
    q.map_values(|d: crate::discovery::DialData| (d.peer_id, views_of(d.listen_addrs@)))
}

/// Whether an in-flight tracking list mentions the request id.
pub open spec fn inflight_has(
    l: Seq<(crate::OutboundRequestId, RequestData)>,
    id: crate::OutboundRequestId,
) -> bool {
    exists|k: int| 0 <= k < l.len() && (#[trigger] l[k]).0 == id
}

/// `k` is the first in-flight entry under the request id.
pub open spec fn first_inflight_at(
    l: Seq<(crate::OutboundRequestId, RequestData)>,
    id: crate::OutboundRequestId,
    k: int,
) -> bool {
    &&& 0 <= k < l.len()
    &&& l[k].0 == id
    &&& forall|j: int| 0 <= j < k ==> (#[trigger] l[j]).0 != id
}

/// What retiring an in-flight request does: the first entry under the id is
/// removed; an unknown id changes nothing.
pub open spec fn inflight_removed_rel(
    pre: Seq<(crate::OutboundRequestId, RequestData)>,
    id: crate::OutboundRequestId,
    post: Seq<(crate::OutboundRequestId, RequestData)>,
) -> bool {
    if inflight_has(pre, id) {
        exists|k: int| #[trigger] first_inflight_at(pre, id, k) && post == pre.remove(k)
    } else {
        post == pre
    }
}

/// Remove the first in-flight entry under the request id, returning its
/// request data.
fn remove_inflight(
    l: &mut Vec<(crate::OutboundRequestId, RequestData)>,
    id: &crate::OutboundRequestId,
) -> (r: Option<RequestData>)
    ensures
        inflight_removed_rel(old(l)@, *id, final(l)@),
        match r {
            Some(data) => exists|k: int| #[trigger] first_inflight_at(old(l)@, *id, k) && old(
                l,
            )@[k].1 == data && final(l)@ == old(l)@.remove(k),
            None => !inflight_has(old(l)@, *id) && final(l)@ == old(l)@,
        },
{
    let ghost pre = l@;
    let mut k: usize = 0;
    while k < l.len()
        invariant
            pre == old(l)@,
            pre == l@,
            k <= pre.len(),
            forall|j: int| 0 <= j < k ==> (#[trigger] pre[j]).0 != *id,
        decreases pre.len() - k,
    {
        if l[k].0.id == id.id {
            proof {
                assert(pre[k as int].0 == *id);
                assert(first_inflight_at(pre, *id, k as int));
            }
            let entry = l.remove(k);
            return Some(entry.1);
        }
        k = k + 1;
    }
    None
}

/// The delay before a failed request is retried: exponential backoff from
/// 100 milliseconds, doubling per attempt, capped at about two minutes.
pub open spec fn retry_delay_ms(count: u32) -> u64 {
    (100u64 * (1u64 << (if count <= 10 {
        count
    } else {
        10u32
    }) as u64)) as u64
}

/// Compute the retry delay for the given attempt.
pub fn retry_delay(count: u32) -> (r: u64)
    ensures
        r == retry_delay_ms(count),
{
    let shift: u64 = if count <= 10 {
        count as u64
    } else {
        10
    };
    proof {
        assert(100u64 * (1u64 << shift) == retry_delay_ms(count)) by (bit_vector)
            requires
                shift == (if count <= 10 {
                    count
                } else {
                    10u32
                }) as u64,
                shift <= 10,
        ;
        assert(1u64 << shift <= 1024) by (bit_vector)
            requires
                shift <= 10,
        ;
    }
    100u64 * (1u64 << shift)
}

/// Whether two wire peer entries are equal: same optional id, same
/// addresses component-wise.
fn entry_eq(a: &NodeEntry, b: &NodeEntry) -> (r: bool)
    ensures
        r == ((a.0, views_of(a.1@)) == (b.0, views_of(b.1@))),
{
    let ids_match = match (&a.0, &b.0) {
        (Some(x), Some(y)) => x.id == y.id,
        (None, None) => true,
        _ => false,
    };
    if !ids_match {
        proof {
            assert(a.0 != b.0);
        }
        return false;
    }
    proof {
        assert(a.0 == b.0);
    }
    if a.1.len() != b.1.len() {
        proof {
            assert(views_of(a.1@).len() != views_of(b.1@).len());
        }
        return false;
    }
    let mut i: usize = 0;
    while i < a.1.len()
        invariant
            i <= a.1@.len(),
            a.1@.len() == b.1@.len(),
            forall|j: int| 0 <= j < i ==> (#[trigger] a.1@[j])@ == b.1@[j]@,
        decreases a.1@.len() - i,
    {
        if a.1[i] != b.1[i] {
            proof {
                assert(views_of(a.1@)[i as int] != views_of(b.1@)[i as int]);
            }
            return false;
        }
        i = i + 1;
    }
    proof {
        assert(views_of(a.1@) =~= views_of(b.1@));
    }
    true
}

/// Whether a list of wire peer entries contains one equal to `e`.
fn entry_list_contains(l: &Vec<NodeEntry>, e: &NodeEntry) -> (r: bool)
    ensures
        r == entry_views_of(l@).contains((e.0, views_of(e.1@))),
{
    let mut i: usize = 0;
    while i < l.len()
        invariant
            i <= l@.len(),
            forall|j: int| 0 <= j < i ==> #[trigger] entry_views_of(l@)[j] != (e.0, views_of(
                e.1@,
            )),
        decreases l@.len() - i,
    {
        if entry_eq(&l[i], e) {
            proof {
                assert(entry_views_of(l@)[i as int] == (e.0, views_of(e.1@)));
            }
            return true;
        }
        i = i + 1;
    }
    proof {
        if entry_views_of(l@).contains((e.0, views_of(e.1@))) {
            let j = choose|j: int|
                0 <= j < entry_views_of(l@).len() && entry_views_of(l@)[j] == (e.0, views_of(e.1@));
            assert(false);
        }
    }
    false
}

/// Copy a wire peer entry.
fn clone_entry(e: &NodeEntry) -> (r: NodeEntry)
    ensures
        r.0 == e.0,
        views_of(r.1@) == views_of(e.1@),
{
    let addrs = clone_addr_vec(&e.1);
    proof {
        assert(views_of(addrs@) =~= views_of(e.1@));
    }
    (e.0, addrs)
}

impl Discovery {
    /// All peers worth advertising, except the addressee: every discovered
    /// peer that has addresses, plus the configured bootstrap entries not
    /// already covered by the peer table, deduplicated by full tuple
    /// equality. The addressee itself never appears: neither its table
    /// entry nor a bootstrap entry bound to it.
    pub fn get_all_peers_except(&self, peer: PeerId) -> (r: Vec<NodeEntry>)
        ensures
            entry_views_of(r@) == dedup_append(
                disc_part(self.discovered_peers@, peer),
                boot_part(self.bootstrap_nodes@, self.discovered_peers@, peer),
            ),
    {
        let ghost disc = self.discovered_peers@;
        let ghost boot = self.bootstrap_nodes@;
        let mut out: Vec<NodeEntry> = Vec::new();
        let mut i: usize = 0;
        proof {
            reveal(Seq::filter);
            assert(disc.take(0) =~= Seq::<(PeerId, Vec<Address>)>::empty());
            assert(entry_views_of(out@) =~= disc_part(disc.take(0), peer));
        }
        while i < self.discovered_peers.len()
            invariant
                disc == self.discovered_peers@,
                i <= disc.len(),
                entry_views_of(out@) == disc_part(disc.take(i as int), peer),
            decreases disc.len() - i,
        {
            proof {
                lemma_disc_part_take_step(disc, peer, i as int);
            }
            let e = &self.discovered_peers[i];
            if e.1.len() > 0 && e.0.id != peer.id {
                proof {
                    assert(disc[i as int].0 != peer);
                }
                let addrs = clone_addr_vec(&e.1);
                proof {
                    assert(views_of(addrs@) =~= views_of(disc[i as int].1@));
                }
                out.push((Some(e.0), addrs));
                proof {
                    assert(entry_views_of(out@) =~= disc_part(disc.take(i as int + 1), peer));
                }
            } else {
                proof {
                    assert(!(disc[i as int].1@.len() > 0 && disc[i as int].0 != peer));
                }
            }
            i = i + 1;
        }
        proof {
            assert(disc.take(disc.len() as int) =~= disc);
        }
        let ghost dpart = disc_part(disc, peer);
        let ghost bpart = boot_part(boot, disc, peer);
        // Add the bootstrap entries the peer table does not cover yet.
        let mut b: usize = 0;
        proof {
            assert(boot.take(0) =~= Seq::<NodeEntry>::empty());
            assert(boot_part(boot.take(0), disc, peer) =~= Seq::<PeerEntryView>::empty());
            assert(entry_views_of(out@) == dedup_append(
                dpart,
                boot_part(boot.take(0), disc, peer),
            ));
        }
        while b < self.bootstrap_nodes.len()
            invariant
                disc == self.discovered_peers@,
                boot == self.bootstrap_nodes@,
                dpart == disc_part(disc, peer),
                b <= boot.len(),
                entry_views_of(out@) == dedup_append(
                    dpart,
                    boot_part(boot.take(b as int), disc, peer),
                ),
            decreases boot.len() - b,
        {
            proof {
                lemma_boot_part_take_step(boot, disc, peer, b as int);
            }
            let entry = &self.bootstrap_nodes[b];
            let not_addressee = match &entry.0 {
                Some(q) => q.id != peer.id,
                None => true,
            };
            proof {
                assert(not_addressee == (boot[b as int].0 != Some(peer)));
            }
            let survives = self.bootstrap_entry_survives(b);
            let ghost bp_old = boot_part(boot.take(b as int), disc, peer);
            let ghost x = (boot[b as int].0, views_of(boot[b as int].1@));
            if survives && not_addressee {
                proof {
                    let bp_new = boot_part(boot.take(b as int + 1), disc, peer);
                    assert(bp_new.drop_last() =~= bp_old);
                    assert(bp_new.last() == x);
                    assert(dedup_append(dpart, bp_new) == if dedup_append(dpart, bp_old).contains(
                        x,
                    ) {
                        dedup_append(dpart, bp_old)
                    } else {
                        dedup_append(dpart, bp_old).push(x)
                    });
                }
                let copy = clone_entry(entry);
                proof {
                    assert((copy.0, views_of(copy.1@)) == x);
                }
                if !entry_list_contains(&out, &copy) {
                    out.push(copy);
                    proof {
                        assert(entry_views_of(out@) =~= dedup_append(
                            dpart,
                            boot_part(boot.take(b as int + 1), disc, peer),
                        ));
                    }
                }
            }
            b = b + 1;
        }
        proof {
            assert(boot.take(boot.len() as int) =~= boot);
        }
        out
    }

    /// Answer an inbound peers-request: offer every peer the requester does
    /// not already know, with addresses filtered for reachability from the
    /// requester's perspective, synthesizing relay addresses (via ourselves,
    /// else via the configured relay servers) for peers the requester cannot
    /// reach directly; peers left without any offerable address are dropped.
    pub fn handle_peers_request(
        &self,
        peer: PeerId,
        known: &Vec<NodeEntry>,
        own_peer_id: PeerId,
        own_addrs: &Vec<Address>,
    ) -> (r: Vec<NodeEntry>)
        ensures
            entry_views_of(r@) == response_seq(
                except_known(
                    dedup_append(
                        disc_part(self.discovered_peers@, peer),
                        boot_part(self.bootstrap_nodes@, self.discovered_peers@, peer),
                    ),
                    entry_views_of(known@),
                ),
                requester_addr_views(self.discovered_peers@, peer, views_of(own_addrs@)),
                views_of(own_addrs@),
                own_peer_id,
                self.relay_servers@,
            ),
    {
        let ghost own_views = views_of(own_addrs@);
        let ghost known_views = entry_views_of(known@);
        let all = self.get_all_peers_except(peer);
        let ghost all_views = entry_views_of(all@);
        // Keep only what the requester does not already know.
        let mut diff: Vec<NodeEntry> = Vec::new();
        let mut i: usize = 0;
        proof {
            reveal(Seq::filter);
            assert(all_views.take(0) =~= Seq::<PeerEntryView>::empty());
            assert(entry_views_of(diff@) =~= except_known(all_views.take(0), known_views));
        }
        while i < all.len()
            invariant
                all_views == entry_views_of(all@),
                known_views == entry_views_of(known@),
                i <= all@.len(),
                all_views.len() == all@.len(),
                entry_views_of(diff@) == except_known(all_views.take(i as int), known_views),
            decreases all@.len() - i,
        {
            proof {
                lemma_except_known_take_step(all_views, known_views, i as int);
            }
            if !entry_list_contains(known, &all[i]) {
                let copy = clone_entry(&all[i]);
                proof {
                    assert((copy.0, views_of(copy.1@)) == all_views[i as int]);
                }
                diff.push(copy);
                proof {
                    assert(entry_views_of(diff@) =~= except_known(
                        all_views.take(i as int + 1),
                        known_views,
                    ));
                }
            }
            i = i + 1;
        }
        proof {
            assert(all_views.take(all_views.len() as int) =~= all_views);
        }
        // The requester's addresses, to judge reachability from its side.
        let requester_addrs = self.lookup_requester_addrs(peer, own_addrs);
        let ghost req_views = requester_addr_views(self.discovered_peers@, peer, own_views);
        let ghost diff_views = entry_views_of(diff@);
        // Build the response entry by entry.
        let mut out: Vec<NodeEntry> = Vec::new();
        let mut k: usize = 0;
        proof {
            assert(diff_views.take(0) =~= Seq::<PeerEntryView>::empty());
            assert(entry_views_of(out@) =~= response_seq(
                diff_views.take(0),
                req_views,
                own_views,
                own_peer_id,
                self.relay_servers@,
            ));
        }
        while k < diff.len()
            invariant
                diff_views == entry_views_of(diff@),
                k <= diff@.len(),
                diff_views.len() == diff@.len(),
                req_views == requester_addr_views(self.discovered_peers@, peer, own_views),
                own_views == views_of(own_addrs@),
                views_of(requester_addrs@) == req_views,
                entry_views_of(out@) == response_seq(
                    diff_views.take(k as int),
                    req_views,
                    own_views,
                    own_peer_id,
                    self.relay_servers@,
                ),
            decreases diff@.len() - k,
        {
            proof {
                lemma_response_seq_take_step(
                    diff_views,
                    req_views,
                    own_views,
                    own_peer_id,
                    self.relay_servers@,
                    k as int,
                );
                assert(diff_views[k as int] == (diff@[k as int].0, views_of(diff@[k as int].1@)));
            }
            let e = &diff[k];
            let filtered = crate::addr_filter::filter_addresses_with_relay(&e.1, &requester_addrs);
            if filtered.direct.len() > 0 {
                out.push((e.0, filtered.direct));
                proof {
                    assert(entry_views_of(out@) =~= response_seq(
                        diff_views.take(k as int + 1),
                        req_views,
                        own_views,
                        own_peer_id,
                        self.relay_servers@,
                    ));
                }
            } else {
                let target = match &e.0 {
                    Some(t) => Some(*t),
                    None => None,
                };
                match target {
                    Some(t) if filtered.relay_candidates.len() > 0 => {
                        let via_self = self.construct_relay_addresses_via_self(
                            own_peer_id,
                            own_addrs,
                            t,
                        );
                        if via_self.len() > 0 {
                            out.push((Some(t), via_self));
                            proof {
                                assert(entry_views_of(out@) =~= response_seq(
                                    diff_views.take(k as int + 1),
                                    req_views,
                                    own_views,
                                    own_peer_id,
                                    self.relay_servers@,
                                ));
                            }
                        } else if self.relay_servers.len() > 0 {
                            let via = self.construct_relay_addresses(t);
                            if via.len() > 0 {
                                out.push((Some(t), via));
                                proof {
                                    assert(entry_views_of(out@) =~= response_seq(
                                        diff_views.take(k as int + 1),
                                        req_views,
                                        own_views,
                                        own_peer_id,
                                        self.relay_servers@,
                                    ));
                                }
                            }
                        }
                    },
                    _ => {
                    },
                }
            }
            k = k + 1;
        }
        proof {
            assert(diff_views.take(diff_views.len() as int) =~= diff_views);
        }
        out
    }

    /// The requester's addresses as recorded in the peer table, or our own
    /// when the requester is unknown.
    fn lookup_requester_addrs(&self, peer: PeerId, own_addrs: &Vec<Address>) -> (r: Vec<Address>)
        ensures
            views_of(r@) == requester_addr_views(
                self.discovered_peers@,
                peer,
                views_of(own_addrs@),
            ),
    {
        let ghost disc = self.discovered_peers@;
        let ghost fallback = views_of(own_addrs@);
        let mut i: usize = 0;
        proof {
            assert(disc.subrange(0, disc.len() as int) =~= disc);
        }
        while i < self.discovered_peers.len()
            invariant
                disc == self.discovered_peers@,
                fallback == views_of(own_addrs@),
                i <= disc.len(),
                requester_addr_views(disc, peer, fallback) == requester_addr_views(
                    disc.subrange(i as int, disc.len() as int),
                    peer,
                    fallback,
                ),
            decreases disc.len() - i,
        {
            proof {
                let rest = disc.subrange(i as int, disc.len() as int);
                assert(rest[0] == disc[i as int]);
                assert(rest.subrange(1, rest.len() as int) =~= disc.subrange(
                    i as int + 1,
                    disc.len() as int,
                ));
            }
            if self.discovered_peers[i].0.id == peer.id {
                proof {
                    assert(disc[i as int].0 == peer);
                }
                let r = clone_addr_vec(&self.discovered_peers[i].1);
                proof {
                    assert(views_of(r@) =~= views_of(disc[i as int].1@));
                }
                return r;
            }
            i = i + 1;
        }
        proof {
            assert(disc.subrange(disc.len() as int, disc.len() as int) =~= Seq::<
                (PeerId, Vec<Address>),
            >::empty());
        }
        let r = clone_addr_vec(own_addrs);
        proof {
            assert(views_of(r@) =~= views_of(own_addrs@));
        }
        r
    }

    /// Absorb a peers-response: queue a dial for every received peer that
    /// leaves an address to try, preferring pre-built relay-circuit
    /// addresses, then directly reachable ones, then synthesized relay
    /// addresses.
    pub fn process_received_peers(&mut self, peers: &Vec<NodeEntry>, own_addrs: &Vec<Address>)
        ensures
            final(self).config == old(self).config,
            final(self).state == old(self).state,
            final(self).bootstrap_nodes == old(self).bootstrap_nodes,
            final(self).relay_servers == old(self).relay_servers,
            final(self).discovered_peers == old(self).discovered_peers,
            final(self).active_connections == old(self).active_connections,
            final(self).outbound_peers == old(self).outbound_peers,
            final(self).inbound_peers == old(self).inbound_peers,
            final(self).controller.dial_in_progress == old(self).controller.dial_in_progress,
            final(self).controller.close_queue == old(self).controller.close_queue,
            final(self).controller.connect_request_queue == old(self).controller.connect_request_queue,
            final(self).controller.peers_request_done_on == old(self).controller.peers_request_done_on,
            final(self).controller.peers_request_in_progress == old(self).controller.peers_request_in_progress,
            final(self).controller.peers_request_queue == old(self).controller.peers_request_queue,
            dial_views_of(final(self).controller.dial_queue@) == dial_views_of(
                old(self).controller.dial_queue@,
            ) + dials_from(
                entry_views_of(peers@),
                views_of(own_addrs@),
                old(self).relay_servers@,
            ),
    {
        let ghost pre = *old(self);
        let ghost own_views = views_of(own_addrs@);
        let ghost pviews = entry_views_of(peers@);
        let ghost base = dial_views_of(pre.controller.dial_queue@);
        let mut k: usize = 0;
        proof {
            assert(pviews.take(0) =~= Seq::<PeerEntryView>::empty());
            assert(base + dials_from(pviews.take(0), own_views, pre.relay_servers@) =~= base);
        }
        while k < peers.len()
            invariant
                pviews == entry_views_of(peers@),
                pviews.len() == peers@.len(),
                own_views == views_of(own_addrs@),
                k <= peers@.len(),
                self.config == pre.config,
                self.state == pre.state,
                self.bootstrap_nodes == pre.bootstrap_nodes,
                self.relay_servers == pre.relay_servers,
                self.discovered_peers == pre.discovered_peers,
                self.active_connections == pre.active_connections,
                self.outbound_peers == pre.outbound_peers,
                self.inbound_peers == pre.inbound_peers,
                self.controller.dial_in_progress == pre.controller.dial_in_progress,
                self.controller.close_queue == pre.controller.close_queue,
                self.controller.connect_request_queue == pre.controller.connect_request_queue,
                self.controller.peers_request_done_on == pre.controller.peers_request_done_on,
                self.controller.peers_request_in_progress
                    == pre.controller.peers_request_in_progress,
                self.controller.peers_request_queue == pre.controller.peers_request_queue,
                base == dial_views_of(pre.controller.dial_queue@),
                dial_views_of(self.controller.dial_queue@) == base + dials_from(
                    pviews.take(k as int),
                    own_views,
                    pre.relay_servers@,
                ),
            decreases peers@.len() - k,
        {
            proof {
                lemma_dials_from_take_step(pviews, own_views, pre.relay_servers@, k as int);
                assert(pviews[k as int] == (peers@[k as int].0, views_of(peers@[k as int].1@)));
            }
            let e = &peers[k];
            let ghost a_views = views_of(e.1@);
            // Split off the pre-built relay-circuit addresses.
            let mut circuit_addrs: Vec<Address> = Vec::new();
            let mut plain_addrs: Vec<Address> = Vec::new();
            let mut j: usize = 0;
            proof {
                reveal(Seq::filter);
                assert(a_views.take(0) =~= Seq::<Seq<AddrComponent>>::empty());
                assert(views_of(circuit_addrs@) =~= circuit_filter(a_views.take(0)));
                assert(views_of(plain_addrs@) =~= plain_filter(a_views.take(0)));
            }
            while j < e.1.len()
                invariant
                    a_views == views_of(e.1@),
                    j <= e.1@.len(),
                    views_of(circuit_addrs@) == circuit_filter(a_views.take(j as int)),
                    views_of(plain_addrs@) == plain_filter(a_views.take(j as int)),
                decreases e.1@.len() - j,
            {
                proof {
                    lemma_circuit_split_take_step(a_views, j as int);
                }
                let circuits = crate::addr::count_circuits(&e.1[j]);
                if circuits >= 1 {
                    circuit_addrs.push(e.1[j].clone());
                    proof {
                        assert(views_of(circuit_addrs@) =~= circuit_filter(
                            a_views.take(j as int + 1),
                        ));
                    }
                } else {
                    plain_addrs.push(e.1[j].clone());
                    proof {
                        assert(views_of(plain_addrs@) =~= plain_filter(a_views.take(j as int + 1)));
                    }
                }
                j = j + 1;
            }
            proof {
                assert(a_views.take(a_views.len() as int) =~= a_views);
            }
            if circuit_addrs.len() > 0 {
                let ghost cviews = views_of(circuit_addrs@);
                let ghost qpre = self.controller.dial_queue@;
                self.controller.dial_queue.push(
                    crate::discovery::DialData { peer_id: e.0, listen_addrs: circuit_addrs },
                );
                proof {
                    let ev = pviews[k as int];
                    assert(cviews == circuit_filter(ev.1));
                    let x = (ev.0, circuit_filter(ev.1));
                    assert(circuit_filter(ev.1).len() == cviews.len());
                    assert(dial_from_entry(ev, own_views, pre.relay_servers@) == Some(x));
                    assert(dials_from(pviews.take(k as int + 1), own_views, pre.relay_servers@)
                        == dials_from(pviews.take(k as int), own_views, pre.relay_servers@).push(
                        x,
                    ));
                    assert(dial_views_of(self.controller.dial_queue@) =~~= dial_views_of(
                        qpre,
                    ).push(x));
                    assert(dial_views_of(qpre).push(x) =~~= base + dials_from(
                        pviews.take(k as int + 1),
                        own_views,
                        pre.relay_servers@,
                    ));
                }
            } else {
                let filtered = crate::addr_filter::filter_addresses_with_relay(
                    &plain_addrs,
                    own_addrs,
                );
                if filtered.direct.len() > 0 {
                    let ghost dviews = views_of(filtered.direct@);
                    let ghost qpre = self.controller.dial_queue@;
                    self.controller.dial_queue.push(
                        crate::discovery::DialData { peer_id: e.0, listen_addrs: filtered.direct },
                    );
                    proof {
                        let ev = pviews[k as int];
                        let f = crate::addr_filter::spec_filter_with_relay(
                            plain_filter(ev.1),
                            own_views,
                        );
                        assert(dviews == f.0);
                        let x = (ev.0, f.0);
                        assert(dial_from_entry(ev, own_views, pre.relay_servers@) == Some(x));
                        assert(dials_from(pviews.take(k as int + 1), own_views, pre.relay_servers@)
                            == dials_from(pviews.take(k as int), own_views, pre.relay_servers@).push(
                            x,
                        ));
                        assert(dial_views_of(self.controller.dial_queue@) =~~= dial_views_of(
                            qpre,
                        ).push(x));
                        assert(dial_views_of(qpre).push(x) =~~= base + dials_from(
                            pviews.take(k as int + 1),
                            own_views,
                            pre.relay_servers@,
                        ));
                    }
                } else {
                    let target = match &e.0 {
                        Some(t) => Some(*t),
                        None => None,
                    };
                    match target {
                        Some(t) if filtered.relay_candidates.len() > 0 && self.relay_servers.len()
                            > 0 => {
                            let via = self.construct_relay_addresses(t);
                            if via.len() > 0 {
                                let ghost vviews = views_of(via@);
                                let ghost qpre = self.controller.dial_queue@;
                                self.controller.dial_queue.push(
                                    crate::discovery::DialData {
                                        peer_id: Some(t),
                                        listen_addrs: via,
                                    },
                                );
                                proof {
                                    let ev = pviews[k as int];
                                    assert(vviews == crate::discovery::spec_relay_addrs(
                                        pre.relay_servers@,
                                        t,
                                    ));
                                    let x = (
                                        Some(t),
                                        crate::discovery::spec_relay_addrs(pre.relay_servers@, t),
                                    );
                                    assert(dial_from_entry(ev, own_views, pre.relay_servers@)
                                        == Some(x));
                                    assert(dials_from(
                                        pviews.take(k as int + 1),
                                        own_views,
                                        pre.relay_servers@,
                                    ) == dials_from(
                                        pviews.take(k as int),
                                        own_views,
                                        pre.relay_servers@,
                                    ).push(x));
                                    assert(dial_views_of(self.controller.dial_queue@)
                                        =~~= dial_views_of(qpre).push(x));
                                    assert(dial_views_of(qpre).push(x) =~~= base + dials_from(
                                        pviews.take(k as int + 1),
                                        own_views,
                                        pre.relay_servers@,
                                    ));
                                }
                            }
                        },
                        _ => {
                        },
                    }
                }
            }
            k = k + 1;
        }
        proof {
            assert(pviews.take(pviews.len() as int) =~= pviews);
        }
    }

    /// Handle a successful peers-response: retire the request from the
    /// in-flight tracking, queue dials for the received peers, and take the
    /// next extension step.
    pub fn handle_peers_response(
        &mut self,
        request_id: &crate::OutboundRequestId,
        peers: &Vec<NodeEntry>,
        own_addrs: &Vec<Address>,
        selection_seed: usize,
    )
        ensures
            final(self).config == old(self).config,
            final(self).bootstrap_nodes == old(self).bootstrap_nodes,
            final(self).relay_servers == old(self).relay_servers,
            final(self).discovered_peers == old(self).discovered_peers,
            final(self).active_connections == old(self).active_connections,
            final(self).outbound_peers == old(self).outbound_peers,
            final(self).inbound_peers == old(self).inbound_peers,
            final(self).controller.dial_in_progress == old(self).controller.dial_in_progress,
            final(self).controller.close_queue == old(self).controller.close_queue,
            final(self).controller.connect_request_queue == old(self).controller.connect_request_queue,
            inflight_removed_rel(
                old(self).controller.peers_request_in_progress@,
                *request_id,
                final(self).controller.peers_request_in_progress@,
            ),
            dial_views_of(final(self).controller.dial_queue@) == dial_views_of(
                old(self).controller.dial_queue@,
            ) + dials_from(
                entry_views_of(peers@),
                views_of(own_addrs@),
                old(self).relay_servers@,
            ),
            step_effect(
                old(self).discovered_peers@,
                old(self).outbound_peers@.len() as int,
                old(self).state,
                old(self).controller.peers_request_done_on@,
                old(self).controller.peers_request_queue@,
                selection_seed,
                final(self).state,
                final(self).controller.peers_request_done_on@,
                final(self).controller.peers_request_queue@,
            ),
    {
        remove_inflight(&mut self.controller.peers_request_in_progress, request_id);
        self.process_received_peers(peers, own_addrs);
        self.make_extension_step(selection_seed);
    }

    /// Handle a failed peers-request: retry it with exponential backoff up
    /// to the configured limit; when the retries are exhausted, take the
    /// next extension step so discovery does not stall. An unknown request
    /// id changes nothing.
    pub fn handle_failed_peers_request(
        &mut self,
        request_id: &crate::OutboundRequestId,
        selection_seed: usize,
    )
        ensures
            final(self).config == old(self).config,
            final(self).bootstrap_nodes == old(self).bootstrap_nodes,
            final(self).relay_servers == old(self).relay_servers,
            final(self).discovered_peers == old(self).discovered_peers,
            final(self).active_connections == old(self).active_connections,
            final(self).outbound_peers == old(self).outbound_peers,
            final(self).inbound_peers == old(self).inbound_peers,
            final(self).controller.dial_in_progress == old(self).controller.dial_in_progress,
            final(self).controller.dial_queue == old(self).controller.dial_queue,
            final(self).controller.close_queue == old(self).controller.close_queue,
            final(self).controller.connect_request_queue == old(self).controller.connect_request_queue,
            inflight_removed_rel(
                old(self).controller.peers_request_in_progress@,
                *request_id,
                final(self).controller.peers_request_in_progress@,
            ),
            !inflight_has(old(self).controller.peers_request_in_progress@, *request_id) ==> {
                &&& final(self).state == old(self).state
                &&& final(self).controller.peers_request_done_on == old(self).controller.peers_request_done_on
                &&& final(self).controller.peers_request_queue == old(self).controller.peers_request_queue
            },
            forall|k: int|
                first_inflight_at(
                    old(self).controller.peers_request_in_progress@,
                    *request_id,
                    k,
                ) ==> {
                    let data = old(self).controller.peers_request_in_progress@[k].1;
                    if data.retry_count < old(self).config.request_max_retries {
                        &&& final(self).state == old(self).state
                        &&& final(self).controller.peers_request_done_on == old(self).controller.peers_request_done_on
                        &&& final(self).controller.peers_request_queue@ == old(self).controller.peers_request_queue@.push(
                            (
                                RequestData {
                                    peer_id: data.peer_id,
                                    retry_count: (data.retry_count + 1) as u32,
                                },
                                Some(retry_delay_ms((data.retry_count + 1) as u32)),
                            ),
                        )
                    } else {
                        step_effect(
                            old(self).discovered_peers@,
                            old(self).outbound_peers@.len() as int,
                            old(self).state,
                            old(self).controller.peers_request_done_on@,
                            old(self).controller.peers_request_queue@,
                            selection_seed,
                            final(self).state,
                            final(self).controller.peers_request_done_on@,
                            final(self).controller.peers_request_queue@,
                        )
                    }
                },
    {
        let found = remove_inflight(&mut self.controller.peers_request_in_progress, request_id);
        match found {
            Some(data) => {
                if data.retry_count < self.config.request_max_retries {
                    let next = RequestData {
                        peer_id: data.peer_id,
                        retry_count: data.retry_count + 1,
                    };
                    let delay = retry_delay(next.retry_count);
                    self.controller.peers_request_queue.push((next, Some(delay)));
                } else {
                    self.make_extension_step(selection_seed);
                }
            },
            None => {
            },
        }
    }

    /// Decide whether to send the queued peers-request: not when discovery
    /// is disabled, and not when the peer was already queried this extension
    /// unless this is a retry. On a send, the peer is marked queried and
    /// the message payload — every peer we know except the addressee — is
    /// returned for the transport to deliver.
    pub fn peers_request_peer(&mut self, request_data: RequestData) -> (r: Option<Vec<NodeEntry>>)
        ensures
            final(self).config == old(self).config,
            final(self).state == old(self).state,
            final(self).bootstrap_nodes == old(self).bootstrap_nodes,
            final(self).relay_servers == old(self).relay_servers,
            final(self).discovered_peers == old(self).discovered_peers,
            final(self).active_connections == old(self).active_connections,
            final(self).outbound_peers == old(self).outbound_peers,
            final(self).inbound_peers == old(self).inbound_peers,
            final(self).controller.dial_in_progress == old(self).controller.dial_in_progress,
            final(self).controller.dial_queue == old(self).controller.dial_queue,
            final(self).controller.close_queue == old(self).controller.close_queue,
            final(self).controller.connect_request_queue == old(self).controller.connect_request_queue,
            final(self).controller.peers_request_in_progress == old(self).controller.peers_request_in_progress,
            final(self).controller.peers_request_queue == old(self).controller.peers_request_queue,
            !(old(self).config.enabled && (!crate::discovery::peer_list_has(
                old(self).controller.peers_request_done_on@,
                request_data.peer_id,
            ) || request_data.retry_count != 0)) ==> r is None && final(self).controller.peers_request_done_on
                == old(self).controller.peers_request_done_on,
            (old(self).config.enabled && (!crate::discovery::peer_list_has(
                old(self).controller.peers_request_done_on@,
                request_data.peer_id,
            ) || request_data.retry_count != 0)) ==> {
                &&& (crate::discovery::peer_list_has(
                    old(self).controller.peers_request_done_on@,
                    request_data.peer_id,
                ) ==> final(self).controller.peers_request_done_on
                    == old(self).controller.peers_request_done_on)
                &&& (!crate::discovery::peer_list_has(
                    old(self).controller.peers_request_done_on@,
                    request_data.peer_id,
                ) ==> final(self).controller.peers_request_done_on@ == old(self).controller.peers_request_done_on@.push(
                    request_data.peer_id,
                ))
                &&& r matches Some(v) && entry_views_of(v@) == dedup_append(
                    disc_part(old(self).discovered_peers@, request_data.peer_id),
                    boot_part(
                        old(self).bootstrap_nodes@,
                        old(self).discovered_peers@,
                        request_data.peer_id,
                    ),
                )
            },
    {
        if !self.config.enabled {
            return None;
        }
        let already = crate::discovery::peer_list_contains(
            &self.controller.peers_request_done_on,
            &request_data.peer_id,
        );
        if already && request_data.retry_count == 0 {
            return None;
        }
        if !already {
            self.controller.peers_request_done_on.push(request_data.peer_id);
        }
        Some(self.get_all_peers_except(request_data.peer_id))
    }

    /// Track a peers-request handed to the transport under the request id
    /// the transport assigned to it.
    pub fn register_peers_request(
        &mut self,
        request_id: crate::OutboundRequestId,
        request_data: RequestData,
    )
        ensures
            final(self).config == old(self).config,
            final(self).state == old(self).state,
            final(self).bootstrap_nodes == old(self).bootstrap_nodes,
            final(self).relay_servers == old(self).relay_servers,
            final(self).discovered_peers == old(self).discovered_peers,
            final(self).active_connections == old(self).active_connections,
            final(self).outbound_peers == old(self).outbound_peers,
            final(self).inbound_peers == old(self).inbound_peers,
            final(self).controller.dial_in_progress == old(self).controller.dial_in_progress,
            final(self).controller.dial_queue == old(self).controller.dial_queue,
            final(self).controller.close_queue == old(self).controller.close_queue,
            final(self).controller.connect_request_queue == old(self).controller.connect_request_queue,
            final(self).controller.peers_request_done_on == old(self).controller.peers_request_done_on,
            final(self).controller.peers_request_queue == old(self).controller.peers_request_queue,
            final(self).controller.peers_request_in_progress@ == old(self).controller.peers_request_in_progress@.push(
                (request_id, request_data),
            ),
    {
        self.controller.peers_request_in_progress.push((request_id, request_data));
    }

    /// Whether a queued peers-request is waiting to be sent.
    pub fn can_peers_request(&self) -> (r: bool)
        ensures
            r == (self.controller.peers_request_queue@.len() > 0),
    {
        self.controller.peers_request_queue.len() > 0
    }

    /// Whether bootstrap entry `b` shares no address with any discovered
    /// peer that has addresses.
    fn bootstrap_entry_survives(&self, b: usize) -> (r: bool)
        requires
            b < self.bootstrap_nodes@.len(),
        ensures
            r == bootstrap_survives(self.bootstrap_nodes@[b as int], self.discovered_peers@),
    {
        let ghost entry = self.bootstrap_nodes@[b as int];
        let ghost disc = self.discovered_peers@;
        let mut i: usize = 0;
        while i < self.discovered_peers.len()
            invariant
                b < self.bootstrap_nodes@.len(),
                entry == self.bootstrap_nodes@[b as int],
                disc == self.discovered_peers@,
                i <= disc.len(),
                forall|i2: int, a: int|
                    0 <= i2 < i && disc[i2].1@.len() > 0 && 0 <= a < entry.1@.len()
                        ==> !crate::discovery::addr_list_has(
                        (#[trigger] disc[i2]).1@,
                        (#[trigger] entry.1@[a])@,
                    ),
            decreases disc.len() - i,
        {
            if self.discovered_peers[i].1.len() > 0 {
                let mut a: usize = 0;
                while a < self.bootstrap_nodes[b].1.len()
                    invariant
                        b < self.bootstrap_nodes@.len(),
                        i < disc.len(),
                        entry == self.bootstrap_nodes@[b as int],
                        disc == self.discovered_peers@,
                        a <= entry.1@.len(),
                        forall|a2: int|
                            0 <= a2 < a ==> !crate::discovery::addr_list_has(
                                disc[i as int].1@,
                                (#[trigger] entry.1@[a2])@,
                            ),
                    decreases entry.1@.len() - a,
                {
                    if crate::discovery::addr_list_contains(
                        &self.discovered_peers[i].1,
                        &self.bootstrap_nodes[b].1[a],
                    ) {
                        proof {
                            assert(crate::discovery::addr_list_has(
                                disc[i as int].1@,
                                entry.1@[a as int]@,
                            ));
                        }
                        return false;
                    }
                    a = a + 1;
                }
            }
            i = i + 1;
        }
        true
    }
}

} // verus!
