//! The laws of the index structure, each proved over the spec functions
//! that the store's contracts are stated with: together with those
//! contracts they pin down what `lookup_by_eid` and `lookup_by_gn` return
//! for every batch.

use vstd::prelude::*;
use crate::record::Rbe2View;
use crate::store::{count_node, last_pos_of_eid, node_matches, node_positions};
use crate::store::lemma_node_positions_in_range;

verus! {

/// Law (round-trip identity): in a batch whose element ids are pairwise
/// distinct, the id index resolves any record's id to that record's own
/// position — an id lookup right after construction returns that record
/// with all four fields unchanged.
pub proof fn lemma_unique_eids_roundtrip(s: Seq<Rbe2View>, i: int)
    requires
        0 <= i < s.len(),
        forall|j: int, k: int| 0 <= j < k < s.len() ==> s[j].eid != s[k].eid,
    ensures
        last_pos_of_eid(s, s[i].eid) == Some(i),
    decreases s.len(),
{
    if i < s.len() - 1 {
        assert(s.last().eid != s[i].eid);
        lemma_unique_eids_roundtrip(s.drop_last(), i);
    }
}

/// Law (last write wins): of two records sharing an element id, the later
/// shadows the earlier. When no record after position `j` carries the id,
/// the id index resolves it to `j`, so the id lookup returns that record.
pub proof fn lemma_last_write_wins(s: Seq<Rbe2View>, i: int, j: int)
    requires
        0 <= i < j < s.len(),
        s[i].eid == s[j].eid,
        forall|k: int| j < k < s.len() ==> s[k].eid != s[j].eid,
    ensures
        last_pos_of_eid(s, s[j].eid) == Some(j),
    decreases s.len(),
{
    if j < s.len() - 1 {
        lemma_last_write_wins(s.drop_last(), i, j);
    }
}

/// Law (unknown-id error): an element id that no record carries has no id
/// index entry, so the id lookup fails with the not-found error.
pub proof fn lemma_absent_eid_not_found(s: Seq<Rbe2View>, e: u32)
    requires
        forall|i: int| 0 <= i < s.len() ==> s[i].eid != e,
    ensures
        last_pos_of_eid(s, e) is None,
    decreases s.len(),
{
    if s.len() > 0 {
        lemma_absent_eid_not_found(s.drop_last(), e);
    }
}

/// A value occurs zero times in a dependent-node list exactly when the list
/// does not contain it.
pub proof fn lemma_count_node_zero(gns: Seq<u32>, g: u32)
    ensures
        count_node(gns, g) == 0 <==> !gns.contains(g),
    decreases gns.len(),
{
    if gns.len() > 0 {
        lemma_count_node_zero(gns.drop_last(), g);
        if gns.contains(g) && gns.last() != g {
            let i: int = choose|i: int| 0 <= i < gns.len() && gns[i] == g;
            assert(gns.drop_last()[i] == g);
            assert(gns.drop_last().contains(g));
        }
        if gns.drop_last().contains(g) {
            let i: int = choose|i: int|
                0 <= i < gns.drop_last().len() && gns.drop_last()[i] == g;
            assert(gns[i] == g);
        }
    }
}

/// Law (empty-node safety): a node value that no record's dependent-node
/// list contains matches nothing — the node query returns the empty
/// sequence, which is a normal outcome, not an error.
pub proof fn lemma_unreferenced_node_empty(s: Seq<Rbe2View>, g: u32)
    ensures
        (forall|i: int| 0 <= i < s.len() ==> !(#[trigger] s[i].gns).contains(g))
            ==> node_positions(s, g).len() == 0 && node_matches(s, g).len() == 0,
    decreases s.len(),
{
    if s.len() > 0 {
        lemma_unreferenced_node_empty(s.drop_last(), g);
        lemma_count_node_zero(s.last().gns, g);
    }
}

/// Law (empty batch): the empty batch yields a store with no index entry at
/// all — every id lookup fails with the not-found error and every node
/// query returns the empty sequence.
pub proof fn lemma_empty_batch(e: u32, g: u32)
    ensures
        last_pos_of_eid(Seq::<Rbe2View>::empty(), e) is None,
        node_matches(Seq::<Rbe2View>::empty(), g).len() == 0,
{
}

/// How many entries of a position list equal `p`.
pub open spec fn count_pos(qs: Seq<int>, p: int) -> nat
    decreases qs.len(),
{
    if qs.len() == 0 {
        0
    } else {
        count_pos(qs.drop_last(), p) + (if qs.last() == p {
            1nat
        } else {
            0nat
        })
    }
}

proof fn lemma_count_pos_add(a: Seq<int>, b: Seq<int>, p: int)
    ensures
        count_pos(a + b, p) == count_pos(a, p) + count_pos(b, p),
    decreases b.len(),
{
    if b.len() == 0 {
        assert(a + b =~= a);
    } else {
        lemma_count_pos_add(a, b.drop_last(), p);
        assert((a + b).drop_last() =~= a + b.drop_last());
        assert((a + b).last() == b.last());
    }
}

proof fn lemma_count_pos_constant(c: nat, v: int, p: int)
    ensures
        count_pos(Seq::new(c, |k: int| v), p) == if v == p {
            c
        } else {
            0nat
        },
    decreases c,
{
    if c > 0 {
        lemma_count_pos_constant((c - 1) as nat, v, p);
        assert(Seq::new(c, |k: int| v).drop_last() =~= Seq::new((c - 1) as nat, |k: int| v));
    }
}

proof fn lemma_count_pos_absent(qs: Seq<int>, p: int)
    requires
        forall|k: int| 0 <= k < qs.len() ==> qs[k] != p,
    ensures
        count_pos(qs, p) == 0,
    decreases qs.len(),
{
    if qs.len() > 0 {
        lemma_count_pos_absent(qs.drop_last(), p);
    }
}

/// Law (node fan-out, multiplicity): position `p` occurs in the node index
/// entry for `g` exactly as often as `g` occurs in record `p`'s
/// dependent-node list — so the node query returns each record once per
/// occurrence, duplicates within one list included, and omits every record
/// whose list does not mention `g`.
pub proof fn lemma_node_fanout_count(s: Seq<Rbe2View>, g: u32, p: int)
    requires
        0 <= p < s.len(),
    ensures
        count_pos(node_positions(s, g), p) == count_node(s[p].gns, g),
    decreases s.len(),
{
    let prefix = node_positions(s.drop_last(), g);
    let c: nat = count_node(s.last().gns, g);
    let tail = Seq::new(c, |k: int| s.len() - 1);
    lemma_count_pos_add(prefix, tail, p);
    lemma_count_pos_constant(c, s.len() - 1, p);
    if p == s.len() - 1 {
        lemma_node_positions_in_range(s.drop_last(), g);
        lemma_count_pos_absent(prefix, p);
    } else {
        lemma_node_fanout_count(s.drop_last(), g, p);
    }
}

/// Law (node fan-out, order): the node index lists positions in
/// non-decreasing batch order, so the node query returns its records in the
/// order the batch supplied them.
pub proof fn lemma_node_positions_ordered(s: Seq<Rbe2View>, g: u32)
    ensures
        forall|k1: int, k2: int|
            0 <= k1 <= k2 < node_positions(s, g).len() ==> #[trigger] node_positions(s, g)[k1]
                <= #[trigger] node_positions(s, g)[k2],
    decreases s.len(),
{
    if s.len() > 0 {
        lemma_node_positions_ordered(s.drop_last(), g);
        lemma_node_positions_in_range(s.drop_last(), g);
        let prefix = node_positions(s.drop_last(), g);
        let c: nat = count_node(s.last().gns, g);
        let tail = Seq::new(c, |k: int| s.len() - 1);
        assert forall|k1: int, k2: int|
            0 <= k1 <= k2 < node_positions(s, g).len() implies #[trigger] node_positions(s, g)[k1]
            <= #[trigger] node_positions(s, g)[k2] by {
            if k1 < prefix.len() {
                assert(node_positions(s, g)[k1] == prefix[k1]);
            } else {
                assert(node_positions(s, g)[k1] == tail[k1 - prefix.len()]);
            }
            if k2 < prefix.len() {
                assert(node_positions(s, g)[k2] == prefix[k2]);
            } else {
                assert(node_positions(s, g)[k2] == tail[k2 - prefix.len()]);
            }
        }
    }
}

} // verus!
