//! Road connector references, one row per connector placed on a road,
//! grouped into road segments.
use std::collections::HashMap;
use vstd::prelude::*;

use crate::builder::{order_by_at, ref_views, sort_by_at};
use crate::id_map::{id_map_get, id_map_insert, id_map_new, id_map_view};
use crate::model::{RoadConnectorRef, RoadSegment};

verus! {

/// One row of the road reference table: a connector placed on a road at
/// position `at`, with the length of the whole road in millimetres.
pub struct RoadRefRow {
    pub road_id: String,
    pub connector_id: String,
    pub at: u64,
    pub road_length_mm: u32,
}

/// The road ids of `rows`, each once, in the order of their first row.
pub open spec fn first_seen_ids(rows: Seq<RoadRefRow>) -> Seq<Seq<char>>
    decreases rows.len(),
{
    if rows.len() == 0 {
        Seq::empty()
    } else {
        let ids = first_seen_ids(rows.drop_last());
        if ids.contains(rows.last().road_id@) {
            ids
        } else {
            ids.push(rows.last().road_id@)
        }
    }
}

/// The rows of road `id`, in order.
pub open spec fn rows_of(rows: Seq<RoadRefRow>, id: Seq<char>) -> Seq<RoadRefRow>
    decreases rows.len(),
{
    if rows.len() == 0 {
        Seq::empty()
    } else {
        let r = rows_of(rows.drop_last(), id);
        if rows.last().road_id@ == id {
            r.push(rows.last())
        } else {
            r
        }
    }
}

/// The connector references of `rows`, as plain values.
pub open spec fn row_refs(rows: Seq<RoadRefRow>) -> Seq<(Seq<char>, u64)> {
    Seq::new(rows.len(), |k: int| (rows[k].connector_id@, rows[k].at))
}

/// `roads` holds one segment per road id of `rows`, in the order of their
/// first rows: the road length of its last row, and its connectors sorted
/// stably by position.
pub open spec fn grouped_as(rows: Seq<RoadRefRow>, roads: Seq<RoadSegment>) -> bool {
    &&& roads.len() == first_seen_ids(rows).len()
    &&& forall|k: int| 0 <= k < roads.len() ==> segment_of(rows, k, #[trigger] roads[k])
}

/// `seg` is the segment of the `k`-th road id of `rows`: that id, the road
/// length on its last row, and its connectors sorted stably by position.
pub open spec fn segment_of(rows: Seq<RoadRefRow>, k: int, seg: RoadSegment) -> bool {
    let id = first_seen_ids(rows)[k];
    &&& seg.id@ == id
    &&& seg.length_mm == rows_of(rows, id).last().road_length_mm
    &&& ref_views(seg.connectors@) == sort_by_at(row_refs(rows_of(rows, id)))
}

/// Group `g` of the rows so far: its id, the length on its last row and its
/// references in row order.
spec fn group_ok(rows: Seq<RoadRefRow>, g: int, id: String, length: u32, refs: Seq<RoadConnectorRef>) -> bool {
    let key = first_seen_ids(rows)[g];
    &&& id@ == key
    &&& length == rows_of(rows, key).last().road_length_mm
    &&& ref_views(refs) == row_refs(rows_of(rows, key))
}

proof fn lemma_first_seen_distinct(rows: Seq<RoadRefRow>)
    ensures
        first_seen_ids(rows).no_duplicates(),
        forall|k: int| 0 <= k < first_seen_ids(rows).len() ==> rows_of(rows, #[trigger] first_seen_ids(rows)[k]).len() > 0,
        forall|id: Seq<char>| rows_of(rows, id).len() > 0 ==> #[trigger] first_seen_ids(rows).contains(id),
    decreases rows.len(),
{
    if rows.len() > 0 {
        lemma_first_seen_distinct(rows.drop_last());
        let ids = first_seen_ids(rows.drop_last());
        assert forall|k: int| 0 <= k < first_seen_ids(rows).len() implies rows_of(rows, #[trigger] first_seen_ids(rows)[k]).len() > 0 by {
            if k < ids.len() {
                assert(first_seen_ids(rows)[k] == ids[k]);
            }
        }
        assert forall|id: Seq<char>| rows_of(rows, id).len() > 0 implies #[trigger] first_seen_ids(rows).contains(id) by {
            if rows.last().road_id@ != id {
                assert(ids.contains(id));
                let k = choose|k: int| 0 <= k < ids.len() && ids[k] == id;
                assert(first_seen_ids(rows)[k] == id);
            } else if !ids.contains(id) {
                assert(first_seen_ids(rows)[ids.len() as int] == id);
            }
        }
    }
}

/// Groups road connector references by road: one segment per road id, in
/// the order in which the ids first occur.  A road's length is the length on
/// its last row (rows of one road normally agree), and its connectors are
/// sorted by position, rows at equal positions keeping their order.
#[verifier::spinoff_prover]
pub fn group_road_refs(rows: &[RoadRefRow]) -> (roads: Vec<RoadSegment>)
    ensures
        grouped_as(rows@, roads@),
{
    let ghost all = rows@;
    let mut ids: Vec<String> = Vec::new();
    let mut lengths: Vec<u32> = Vec::new();
    let mut refs: Vec<Vec<RoadConnectorRef>> = Vec::new();
    let mut index: HashMap<String, usize> = id_map_new();
    let mut i: usize = 0;
    while i < rows.len()
        invariant
            i <= rows@.len(),
            all == rows@,
            ids@.len() == first_seen_ids(all.take(i as int)).len(),
            lengths@.len() == ids@.len(),
            refs@.len() == ids@.len(),
            forall|g: int| 0 <= g < ids@.len() ==> group_ok(all.take(i as int), g, #[trigger] ids@[g], lengths@[g], refs@[g]@),
            forall|id: Seq<char>|
                #[trigger] id_map_view(index).contains_key(id) <==> first_seen_ids(all.take(i as int)).contains(id),
            forall|g: int|
                0 <= g < ids@.len() ==> #[trigger] id_map_view(index)[first_seen_ids(all.take(i as int))[g]] == g,
        decreases rows@.len() - i,
    {
        let row = &rows[i];
        let ghost pre = all.take(i as int);
        let ghost post = all.take(i + 1);
        proof {
            assert(post.drop_last() =~= pre);
            assert(post.last() == *row);
            lemma_first_seen_distinct(pre);
        }
        let r = RoadConnectorRef { connector_id: row.connector_id.clone(), at: row.at };
        match id_map_get(&index, &row.road_id) {
            Some(g) => {
                proof {
                    let ids_pre = first_seen_ids(pre);
                    let k = choose|k: int| 0 <= k < ids_pre.len() && ids_pre[k] == row.road_id@;
                    assert(id_map_view(index)[ids_pre[k]] == k);
                    assert(g == k);
                    assert(first_seen_ids(pre)[g as int] == row.road_id@);
                }
                let ghost lengths0 = lengths@;
                lengths.set(g, row.road_length_mm);
                let ghost refs0 = refs@;
                let mut inner: Vec<RoadConnectorRef> = Vec::new();
                refs.set_and_swap(g, &mut inner);
                let ghost inner0 = inner@;
                assert(inner0 == refs0[g as int]@);
                inner.push(r);
                let ghost inner1 = inner;
                refs.set_and_swap(g, &mut inner);
                proof {
                    assert(refs@[g as int] == inner1);
                    assert(inner1@ == inner0.push(r));
                    assert(forall|g2: int| 0 <= g2 < refs@.len() && g2 != g ==> refs@[g2] == refs0[g2]);
                    assert(rows_of(post, row.road_id@) == rows_of(pre, row.road_id@).push(*row));
                    assert(first_seen_ids(post) == first_seen_ids(pre));
                    assert(ref_views(inner0.push(r)) =~= ref_views(inner0).push((row.connector_id@, row.at)));
                    assert forall|g2: int| 0 <= g2 < ids@.len() implies group_ok(post, g2, #[trigger] ids@[g2], lengths@[g2], refs@[g2]@) by {
                        let id = first_seen_ids(post)[g2];
                        assert(group_ok(pre, g2, ids@[g2], lengths0[g2], refs0[g2]@));
                        assert(ids@[g2]@ == id);
                        if g2 == g {
                            assert(id == row.road_id@);
                            assert(rows_of(post, id).last() == *row);
                            assert(lengths@[g2] == rows_of(post, id).last().road_length_mm);
                            assert(row_refs(rows_of(post, id)) =~= row_refs(rows_of(pre, id)).push((row.connector_id@, row.at)));
                            assert(ref_views(refs@[g2]@) == row_refs(rows_of(post, id)));
                        } else {
                            assert(first_seen_ids(pre).no_duplicates());
                            assert(id != row.road_id@);
                            assert(rows_of(post, id) == rows_of(pre, id));
                            assert(lengths@[g2] == lengths0[g2]);
                            assert(refs@[g2] == refs0[g2]);
                        }
                    }
                }
            },
            None => {
                let ghost ids0 = ids@;
                let ghost lengths0 = lengths@;
                let ghost refs0 = refs@;
                let gi = ids.len();
                let id_copy = row.road_id.clone();
                id_map_insert(&mut index, id_copy, gi);
                ids.push(row.road_id.clone());
                lengths.push(row.road_length_mm);
                let mut inner: Vec<RoadConnectorRef> = Vec::new();
                inner.push(r);
                refs.push(inner);
                proof {
                    assert(!first_seen_ids(pre).contains(row.road_id@));
                    assert(first_seen_ids(post) == first_seen_ids(pre).push(row.road_id@));
                    assert(rows_of(pre, row.road_id@).len() == 0) by {
                        if rows_of(pre, row.road_id@).len() > 0 {
                            assert(first_seen_ids(pre).contains(row.road_id@));
                        }
                    }
                    assert(rows_of(pre, row.road_id@) =~= Seq::<RoadRefRow>::empty());
                    assert forall|g2: int| 0 <= g2 < ids@.len() implies group_ok(post, g2, #[trigger] ids@[g2], lengths@[g2], refs@[g2]@) by {
                        let id = first_seen_ids(post)[g2];
                        if g2 == gi {
                            assert(row_refs(rows_of(post, id)) =~= seq![(row.connector_id@, row.at)]);
                            assert(ref_views(refs@[g2]@) =~= seq![(row.connector_id@, row.at)]);
                        } else {
                            assert(group_ok(pre, g2, ids0[g2], lengths0[g2], refs0[g2]@));
                            assert(ids@[g2] == ids0[g2] && lengths@[g2] == lengths0[g2] && refs@[g2] == refs0[g2]);
                            assert(id == first_seen_ids(pre)[g2]);
                            assert(id != row.road_id@) by {
                                assert(first_seen_ids(pre).contains(id));
                            }
                            assert(rows_of(post, id) == rows_of(pre, id));
                        }
                    }
                    assert forall|id: Seq<char>|
                        #[trigger] id_map_view(index).contains_key(id) <==> first_seen_ids(post).contains(id) by {
                        if id != row.road_id@ {
                            if first_seen_ids(post).contains(id) {
                                let k = choose|k: int| 0 <= k < first_seen_ids(post).len() && first_seen_ids(post)[k] == id;
                                assert(first_seen_ids(pre)[k] == id);
                            }
                            if first_seen_ids(pre).contains(id) {
                                let k = choose|k: int| 0 <= k < first_seen_ids(pre).len() && first_seen_ids(pre)[k] == id;
                                assert(first_seen_ids(post)[k] == id);
                            }
                        } else {
                            assert(first_seen_ids(post)[gi as int] == id);
                        }
                    }
                    assert forall|g2: int| 0 <= g2 < ids@.len() implies #[trigger] id_map_view(index)[first_seen_ids(post)[g2]] == g2 by {
                        if g2 < gi {
                            assert(first_seen_ids(post)[g2] == first_seen_ids(pre)[g2]);
                            assert(first_seen_ids(pre).contains(first_seen_ids(pre)[g2]));
                        }
                    }
                }
            },
        }
        i = i + 1;
    }
    proof {
        assert(all.take(rows@.len() as int) =~= all);
    }
    let mut roads: Vec<RoadSegment> = Vec::new();
    let mut g: usize = 0;
    while g < ids.len()
        invariant
            g <= ids@.len(),
            ids@.len() == first_seen_ids(all).len(),
            lengths@.len() == ids@.len(),
            refs@.len() == ids@.len(),
            forall|h: int| 0 <= h < ids@.len() ==> group_ok(all, h, #[trigger] ids@[h], lengths@[h], refs@[h]@),
            roads@.len() == g,
            forall|k: int| 0 <= k < g ==> segment_of(all, k, #[trigger] roads@[k]),
        decreases ids@.len() - g,
    {
        let group = &refs[g];
        let order = order_by_at(group);
        let mut sorted: Vec<RoadConnectorRef> = Vec::new();
        let mut k: usize = 0;
        while k < order.len()
            invariant
                k <= order@.len(),
                order@.len() == group@.len(),
                forall|j: int| 0 <= j < order@.len() ==> #[trigger] order@[j] < group@.len(),
                sorted@.len() == k,
                forall|j: int| 0 <= j < k ==> #[trigger] ref_views(sorted@)[j] == ref_views(group@)[order@[j] as int],
            decreases order@.len() - k,
        {
            let src = &group[order[k]];
            let ghost s0 = sorted@;
            sorted.push(RoadConnectorRef { connector_id: src.connector_id.clone(), at: src.at });
            proof {
                assert forall|j: int| 0 <= j < k + 1 implies #[trigger] ref_views(sorted@)[j] == ref_views(group@)[order@[j] as int] by {
                    assert(ref_views(sorted@)[j] == (sorted@[j].connector_id@, sorted@[j].at));
                    assert(ref_views(group@)[order@[j] as int] == (group@[order@[j] as int].connector_id@, group@[order@[j] as int].at));
                    if j < k {
                        assert(sorted@[j] == s0[j]);
                        assert(ref_views(s0)[j] == (s0[j].connector_id@, s0[j].at));
                    }
                }
            }
            k = k + 1;
        }
        proof {
            assert(ref_views(sorted@) =~= Seq::new(order@.len(), |j: int| ref_views(group@)[order@[j] as int]));
        }
        let ghost before = roads@;
        proof {
            assert(group_ok(all, g as int, ids@[g as int], lengths@[g as int], refs@[g as int]@));
        }
        roads.push(RoadSegment { id: ids[g].clone(), length_mm: lengths[g], connectors: sorted });
        proof {
            assert(segment_of(all, g as int, roads@[g as int]));
            assert forall|k2: int| 0 <= k2 < g + 1 implies segment_of(all, k2, #[trigger] roads@[k2]) by {
                if k2 < g {
                    assert(roads@[k2] == before[k2]);
                }
            }
        }
        g = g + 1;
    }
    roads
}

} // verus!
