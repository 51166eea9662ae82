use vstd::prelude::*;
use std::collections::HashMap;
use crate::record::{RBE2, Rbe2View};

verus! {

broadcast use vstd::std_specs::hash::group_hash_axioms;

/// The single error kind: an id lookup found no index entry for the element
/// id it was given. Carries that id so the caller can tell which key failed.
#[derive(Debug, PartialEq, Eq)]
pub enum LookupError {
    KeyNotFound(u32),
}

/// The position the id index associates with `eid`: the last position in
/// `records` whose record carries that element id, if any. A later record
/// with the same id overwrites an earlier one's entry (last write wins).
pub open spec fn last_pos_of_eid(records: Seq<Rbe2View>, eid: u32) -> Option<int>
    decreases records.len(),
{
    if records.len() == 0 {
        None
    } else if records.last().eid == eid {
        Some(records.len() - 1)
    } else {
        last_pos_of_eid(records.drop_last(), eid)
    }
}

/// How many times `gn` occurs in one record's dependent-node list.
pub open spec fn count_node(gns: Seq<u32>, gn: u32) -> nat
    decreases gns.len(),
{
    if gns.len() == 0 {
        0
    } else {
        count_node(gns.drop_last(), gn) + (if gns.last() == gn {
            1nat
        } else {
            0nat
        })
    }
}

/// The positions the node index associates with `gn`: for each record in
/// input order, its position once per occurrence of `gn` in its
/// dependent-node list.
pub open spec fn node_positions(records: Seq<Rbe2View>, gn: u32) -> Seq<int>
    decreases records.len(),
{
    if records.len() == 0 {
        Seq::empty()
    } else {
        node_positions(records.drop_last(), gn) + Seq::new(
            count_node(records.last().gns, gn),
            |k: int| records.len() - 1,
        )
    }
}

/// The views of a backing collection of records, in the same order.
pub open spec fn views_of(records: Seq<RBE2>) -> Seq<Rbe2View> {
    records.map_values(|r: RBE2| r@)
}

/// What a node query returns: the record at each position of
/// `node_positions`, in that order, duplicates included.
pub open spec fn node_matches(records: Seq<Rbe2View>, gn: u32) -> Seq<Rbe2View> {
    node_positions(records, gn).map_values(|p: int| records[p])
}

/// An exec position list agrees pointwise with a spec position list.
pub open spec fn positions_match(ps: Seq<usize>, qs: Seq<int>) -> bool {
    &&& ps.len() == qs.len()
    &&& forall|k: int| 0 <= k < ps.len() ==> #[trigger] ps[k] as int == qs[k]
}

/// Whatever position the id index holds for `eid` is a valid position in
/// `records`, and the record there carries `eid`.
pub proof fn lemma_last_pos_in_range(records: Seq<Rbe2View>, eid: u32)
    ensures
        last_pos_of_eid(records, eid) matches Some(p) ==> 0 <= p < records.len()
            && records[p].eid == eid,
    decreases records.len(),
{
    if records.len() > 0 && records.last().eid != eid {
        lemma_last_pos_in_range(records.drop_last(), eid);
    }
}

/// Every position the node index holds for `gn` is a valid position in
/// `records`.
pub proof fn lemma_node_positions_in_range(records: Seq<Rbe2View>, gn: u32)
    ensures
        forall|k: int| 0 <= k < node_positions(records, gn).len() ==> 0 <= #[trigger] node_positions(
            records,
            gn,
        )[k] < records.len(),
    decreases records.len(),
{
    if records.len() > 0 {
        lemma_node_positions_in_range(records.drop_last(), gn);
        let prefix = node_positions(records.drop_last(), gn);
        let tail = Seq::new(count_node(records.last().gns, gn), |k: int| records.len() - 1);
        assert forall|k: int| 0 <= k < node_positions(records, gn).len() implies 0
            <= #[trigger] node_positions(records, gn)[k] < records.len() by {
            if k < prefix.len() {
                assert(node_positions(records, gn)[k] == prefix[k]);
            } else {
                assert(node_positions(records, gn)[k] == tail[k - prefix.len()]);
            }
        }
    }
}

/// Extending the considered prefix of the batch by one record shifts the id
/// index entry for that record's element id to the new position and leaves
/// every other entry as it was.
proof fn lemma_last_pos_step(s: Seq<Rbe2View>, i: int, e: u32)
    requires
        0 <= i < s.len(),
    ensures
        last_pos_of_eid(s.subrange(0, i + 1), e) == (if s[i].eid == e {
            Some(i)
        } else {
            last_pos_of_eid(s.subrange(0, i), e)
        }),
{
    let post = s.subrange(0, i + 1);
    assert(post.drop_last() =~= s.subrange(0, i));
    assert(post.last() == s[i]);
}

/// One more dependent node of the considered prefix of a list raises the
/// occurrence count of that node's value by one and no other count.
proof fn lemma_count_node_step(gns: Seq<u32>, j: int, g: u32)
    requires
        0 <= j < gns.len(),
    ensures
        count_node(gns.subrange(0, j + 1), g) == count_node(gns.subrange(0, j), g) + (if gns[j]
            == g {
            1nat
        } else {
            0nat
        }),
{
    let post = gns.subrange(0, j + 1);
    assert(post.drop_last() =~= gns.subrange(0, j));
    assert(post.last() == gns[j]);
}

/// Extending the considered prefix of the batch by one record appends that
/// record's position to the node index entry of `g`, once per occurrence of
/// `g` in its dependent-node list.
proof fn lemma_node_positions_step(s: Seq<Rbe2View>, i: int, g: u32)
    requires
        0 <= i < s.len(),
    ensures
        node_positions(s.subrange(0, i + 1), g) == node_positions(s.subrange(0, i), g) + Seq::new(
            count_node(s[i].gns, g),
            |k: int| i,
        ),
{
    let post = s.subrange(0, i + 1);
    assert(post.drop_last() =~= s.subrange(0, i));
    assert(post.last() == s[i]);
    assert(Seq::new(count_node(post.last().gns, g), |k: int| post.len() - 1) =~= Seq::new(
        count_node(s[i].gns, g),
        |k: int| i,
    ));
}

/// The indexed store: the batch of records in insertion order, an id index
/// from element id to the position of the last record carrying it, and a
/// node index from dependent-node value to the positions of every record
/// listing it. Both indices are built once and never change.
pub struct RBE2Storage {
    rbe2s: Vec<RBE2>,
    eid_index: HashMap<u32, usize>,
    gn_index: HashMap<u32, Vec<usize>>,
}

impl View for RBE2Storage {
    type V = Seq<Rbe2View>;

    /// A store is its backing sequence of record values; the indices are
    /// derived from it.
    closed spec fn view(&self) -> Seq<Rbe2View> {
        views_of(self.rbe2s@)
    }
}

impl RBE2Storage {
    /// Both indices agree exactly with what the backing records determine:
    /// the id index holds the last position of each element id present and
    /// nothing else, and the node index holds the occurrence positions of
    /// each dependent-node value present and nothing else. Established at
    /// construction and, the store being immutable, held for its lifetime.
    #[verifier::type_invariant]
    spec fn wf(self) -> bool {
        &&& forall|e: u32| #[trigger] self.eid_index@.contains_key(e) ==> last_pos_of_eid(
            self@,
            e,
        ) == Some(self.eid_index@[e] as int)
        &&& forall|e: u32| last_pos_of_eid(self@, e) is Some
            ==> #[trigger] self.eid_index@.contains_key(e)
        &&& forall|g: u32| #[trigger] self.gn_index@.contains_key(g) ==> positions_match(
            self.gn_index@[g]@,
            node_positions(self@, g),
        )
        &&& forall|g: u32| !(#[trigger] self.gn_index@.contains_key(g)) ==> node_positions(
            self@,
            g,
        ).len() == 0
    }

    /// Builds a store from a batch of records, taking ownership of it. One
    /// pass assigns each record the position it has in the batch, fills the
    /// id index (a later record with a duplicate element id overwrites the
    /// earlier entry) and the node index (one position entry per occurrence
    /// of each dependent-node value, in batch order). Accepts any batch,
    /// duplicates and empty lists included; never fails.
    #[verifier::loop_isolation(false)]
    pub fn new(rbe2s: Vec<RBE2>) -> (store: RBE2Storage)
        ensures
            store@ == views_of(rbe2s@),
    {
        let ghost s = views_of(rbe2s@);
        let mut eid_index: HashMap<u32, usize> = HashMap::new();
        let mut i: usize = 0;
        while i < rbe2s.len()
            invariant
                i <= rbe2s.len(),
                forall|e: u32| #[trigger] eid_index@.contains_key(e) ==> last_pos_of_eid(
                    s.subrange(0, i as int),
                    e,
                ) == Some(eid_index@[e] as int),
                forall|e: u32| last_pos_of_eid(s.subrange(0, i as int), e) is Some
                    ==> #[trigger] eid_index@.contains_key(e),
            decreases rbe2s.len() - i,
        {
            eid_index.insert(rbe2s[i].eid, i);
            proof {
                assert forall|e: u32| true implies last_pos_of_eid(s.subrange(0, i + 1), e) == (
                if s[i as int].eid == e {
                    Some(i as int)
                } else {
                    last_pos_of_eid(s.subrange(0, i as int), e)
                }) by {
                    lemma_last_pos_step(s, i as int, e);
                }
            }
            i += 1;
        }
        assert(s.subrange(0, rbe2s.len() as int) =~= s);

        let mut gn_index: HashMap<u32, Vec<usize>> = HashMap::new();
        let mut i: usize = 0;
        while i < rbe2s.len()
            invariant
                i <= rbe2s.len(),
                forall|g: u32| #[trigger] gn_index@.contains_key(g) ==> positions_match(
                    gn_index@[g]@,
                    node_positions(s.subrange(0, i as int), g),
                ),
                forall|g: u32| !(#[trigger] gn_index@.contains_key(g)) ==> node_positions(
                    s.subrange(0, i as int),
                    g,
                ).len() == 0,
            decreases rbe2s.len() - i,
        {
            let ghost gns = s[i as int].gns;
            let mut j: usize = 0;
            while j < rbe2s[i].gns.len()
                invariant
                    i < rbe2s.len(),
                    j <= gns.len(),
                    gns == s[i as int].gns,
                    forall|g: u32| #[trigger] gn_index@.contains_key(g) ==> positions_match(
                        gn_index@[g]@,
                        node_positions(s.subrange(0, i as int), g) + Seq::new(
                            count_node(gns.subrange(0, j as int), g),
                            |k: int| i as int,
                        ),
                    ),
                    forall|g: u32| !(#[trigger] gn_index@.contains_key(g)) ==> node_positions(
                        s.subrange(0, i as int),
                        g,
                    ).len() + count_node(gns.subrange(0, j as int), g) == 0,
                decreases gns.len() - j,
            {
                let gn0: u32 = rbe2s[i].gns[j];
                let mut ps: Vec<usize> = match gn_index.remove(&gn0) {
                    Some(v) => v,
                    None => Vec::new(),
                };
                ps.push(i);
                gn_index.insert(gn0, ps);
                proof {
                    assert forall|g: u32| true implies count_node(gns.subrange(0, j + 1), g) == (
                    count_node(gns.subrange(0, j as int), g) + (if gns[j as int] == g {
                        1nat
                    } else {
                        0nat
                    })) by {
                        lemma_count_node_step(gns, j as int, g);
                    }
                    assert forall|g: u32| #[trigger] gn_index@.contains_key(g) implies
                    positions_match(
                        gn_index@[g]@,
                        node_positions(s.subrange(0, i as int), g) + Seq::new(
                            count_node(gns.subrange(0, j + 1), g),
                            |k: int| i as int,
                        ),
                    ) by {
                        if g == gn0 {
                            assert(gn_index@[g]@ == ps@);
                        }
                    }
                }
                j += 1;
            }
            proof {
                assert(gns.subrange(0, gns.len() as int) =~= gns);
                assert forall|g: u32| true implies node_positions(s.subrange(0, i + 1), g) == (
                node_positions(s.subrange(0, i as int), g) + Seq::new(
                    count_node(gns, g),
                    |k: int| i as int,
                )) by {
                    lemma_node_positions_step(s, i as int, g);
                }
            }
            i += 1;
        }
        assert(s.subrange(0, rbe2s.len() as int) =~= s);

        RBE2Storage { rbe2s, eid_index, gn_index }
    }

    /// Looks up the record carrying element id `eid`: a copy of the record
    /// the id index points at — the last one in the batch with that id — or
    /// the not-found error exactly when no record carries it.
    pub fn lookup_by_eid(&self, eid: u32) -> (r: Result<RBE2, LookupError>)
        ensures
            last_pos_of_eid(self@, eid) matches Some(p) ==> (r matches Ok(rec) && rec@ == self@[p]),
            last_pos_of_eid(self@, eid) is None ==> r == Err::<RBE2, LookupError>(
                LookupError::KeyNotFound(eid),
            ),
    {
        proof {
            use_type_invariant(&*self);
        }
        match self.eid_index.get(&eid) {
            Some(p) => {
                proof {
                    lemma_last_pos_in_range(self@, eid);
                }
                Ok(self.rbe2s[*p].clone())
            },
            None => Err(LookupError::KeyNotFound(eid)),
        }
    }

    /// Looks up every record whose dependent-node list mentions `gn`: a copy
    /// of each, in batch order, one per occurrence, duplicates included. A
    /// value no record mentions yields the empty vector — never an error.
    #[verifier::loop_isolation(false)]
    pub fn lookup_by_gn(&self, gn: u32) -> (r: Vec<RBE2>)
        ensures
            views_of(r@) == node_matches(self@, gn),
    {
        proof {
            use_type_invariant(&*self);
            lemma_node_positions_in_range(self@, gn);
        }
        match self.gn_index.get(&gn) {
            Some(ps) => {
                let mut out: Vec<RBE2> = Vec::new();
                let mut k: usize = 0;
                while k < ps.len()
                    invariant
                        k <= ps.len(),
                        views_of(out@) == node_matches(self@, gn).subrange(0, k as int),
                    decreases ps.len() - k,
                {
                    let p: usize = ps[k];
                    let rec = self.rbe2s[p].clone();
                    out.push(rec);
                    proof {
                        assert(views_of(out@) =~= node_matches(self@, gn).subrange(
                            0,
                            k as int + 1,
                        ));
                    }
                    k += 1;
                }
                proof {
                    assert(node_matches(self@, gn).subrange(0, ps@.len() as int) =~= node_matches(
                        self@,
                        gn,
                    ));
                }
                out
            },
            None => {
                proof {
                    assert(views_of(Seq::<RBE2>::empty()) =~= node_matches(self@, gn));
                }
                Vec::new()
            },
        }
    }
}

} // verus!
