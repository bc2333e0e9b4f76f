//! What becomes of the matches of a combination of a single phrase.

use vstd::prelude::*;

use crate::coalesce::{
    coalesce_entries, coalesce_entry, single_context, CoalesceEntry, ContextView, MAX_ENTRY_RELEV,
};
use crate::decode::MatchEntry;
use crate::order::{in_order, in_order_exists, num_u32, set_members};
use crate::stackable::PhrasematchSubquery;
use crate::tree::{leaf_contexts, leaf_states};

verus! {

/// The entries of the feature stand together.
spec fn stand_together(entries: Seq<CoalesceEntry>, feature: u32) -> bool {
    forall|a: int, b: int, c: int|
        #![trigger entries[a], entries[b], entries[c]]
        0 <= a < b < c < entries.len() && entries[a].grid_entry.id == feature
            && entries[c].grid_entry.id == feature ==> entries[b].grid_entry.id == feature
}

/// Which entry counted last, none if none did, and which one the feature has kept.
proof fn leaf_keeps(entries: Seq<CoalesceEntry>, feature: u32) -> (r: (int, Option<int>))
    requires
        entries.len() <= 80,
    ensures
        ({
            let s = leaf_states(entries);
            let q = r.0;
            &&& !s.done
            &&& s.features <= entries.len()
            &&& s.best.dom().finite()
            &&& -1 <= q < entries.len()
            &&& q == -1 ==> s.last_id == Some(0u32) && s.last_scoredist == 0 && r.1 is None
            &&& q >= 0 ==> s.last_id == Some(entries[q].grid_entry.id) && s.last_scoredist
                == entries[q].scoredist
            &&& forall|j: int|
                q < j < entries.len() ==> s.last_id == Some((#[trigger] entries[j]).grid_entry.id)
                    && entries[j].scoredist <= s.last_scoredist
            &&& s.best.contains_key(feature) <==> r.1 is Some
            &&& r.1 is None ==> forall|j: int|
                0 <= j < entries.len() && (#[trigger] entries[j]).grid_entry.id == feature
                    ==> feature == 0 && entries[j].scoredist == 0
            &&& q >= 0 && entries[q].grid_entry.id == feature ==> r.1 == Some(q)
            &&& r.1 matches Some(m) ==> {
                &&& 0 <= m <= q
                &&& entries[m].grid_entry.id == feature
                &&& s.best[feature] == entries[m]
                &&& forall|j: int|
                    m < j < entries.len() && (#[trigger] entries[j]).grid_entry.id == feature
                        ==> entries[j].scoredist <= entries[m].scoredist
                &&& stand_together(entries, feature) ==> forall|j: int|
                    0 <= j < m && (#[trigger] entries[j]).grid_entry.id == feature
                        ==> entries[j].scoredist < entries[m].scoredist
            }
        }),
    decreases entries.len(),
{
    if entries.len() == 0 {
        (-1, None)
    } else {
        let rest = entries.drop_last();
        let n = rest.len() as int;
        let e = entries[n];
        assert(entries.last() == e);
        assert forall|i: int| 0 <= i < n implies #[trigger] rest[i] == entries[i] by {}
        let (q, kept) = leaf_keeps(rest, feature);
        let before = leaf_states(rest);
        let after = leaf_states(entries);
        if stand_together(entries, feature) {
            assert forall|a: int, b: int, c: int|
                #![trigger rest[a], rest[b], rest[c]]
                0 <= a < b < c < rest.len() && rest[a].grid_entry.id == feature
                    && rest[c].grid_entry.id
                    == feature implies rest[b].grid_entry.id == feature by {
                assert(rest[a] == entries[a] && rest[b] == entries[b] && rest[c] == entries[c]);
            }
        }
        if before.last_id == Some(e.grid_entry.id) && e.scoredist <= before.last_scoredist {
            assert(after == before);
            assert forall|j: int| q < j < entries.len() implies before.last_id == Some(
                (#[trigger] entries[j]).grid_entry.id,
            ) && entries[j].scoredist <= before.last_scoredist by {
                if j < n {
                    assert(rest[j] == entries[j]);
                }
            }
            if kept is None && e.grid_entry.id == feature {
                assert(q == -1);
            }
            assert forall|j: int|
                kept is None && 0 <= j < entries.len() && (#[trigger] entries[j]).grid_entry.id
                    == feature implies feature == 0 && entries[j].scoredist == 0 by {
                if j < n {
                    assert(rest[j] == entries[j]);
                }
            }
            if kept is Some {
                let m = kept->Some_0;
                assert(rest[m] == entries[m]);
                assert forall|j: int|
                    m < j < entries.len() && (#[trigger] entries[j]).grid_entry.id
                        == feature implies entries[j].scoredist <= entries[m].scoredist by {
                    if j < n {
                        assert(rest[j] == entries[j]);
                    }
                }
                if stand_together(entries, feature) {
                    assert forall|j: int|
                        0 <= j < m && (#[trigger] entries[j]).grid_entry.id
                            == feature implies entries[j].scoredist < entries[m].scoredist by {
                        assert(rest[j] == entries[j]);
                    }
                }
            }
            (q, kept)
        } else {
            assert(after.best == before.best.insert(e.grid_entry.id, e));
            if e.grid_entry.id == feature {
                if stand_together(entries, feature) {
                    assert forall|j: int|
                        0 <= j < n && (#[trigger] entries[j]).grid_entry.id
                            == feature implies entries[j].scoredist < e.scoredist by {
                        assert(rest[j] == entries[j]);
                        if q >= 0 {
                            if entries[q].grid_entry.id != feature {
                                assert(rest[q] == entries[q]);
                                assert(j < q);
                                assert(entries[n].grid_entry.id == feature);
                            }
                        }
                    }
                }
                (n, Some(n))
            } else {
                assert forall|j: int|
                    kept is None && 0 <= j < entries.len() && (#[trigger] entries[j]).grid_entry.id
                        == feature implies feature == 0 && entries[j].scoredist == 0 by {
                    assert(rest[j] == entries[j]);
                }
                if kept is Some {
                    let m = kept->Some_0;
                    assert(rest[m] == entries[m]);
                    assert forall|j: int|
                        m < j < entries.len() && (#[trigger] entries[j]).grid_entry.id
                            == feature implies entries[j].scoredist <= entries[m].scoredist by {
                        if j < n {
                            assert(rest[j] == entries[j]);
                        }
                    }
                    if stand_together(entries, feature) {
                        assert forall|j: int|
                            0 <= j < m && (#[trigger] entries[j]).grid_entry.id
                                == feature implies entries[j].scoredist < entries[m].scoredist by {
                            assert(rest[j] == entries[j]);
                        }
                    }
                }
                (n, kept)
            }
        }
    }
}

/// Each feature that the phrase matches has a context of its own, with one match of the feature. No
/// match of the feature that was found later ranks higher; and where the matches of the feature come
/// one after the other, it is the first of those that rank highest. There are not more matches than
/// are looked up. A match of feature 0 that ranks lowest of all may count for nothing.
pub proof fn features_of_a_leaf_have_their_contexts(
    grids: Seq<MatchEntry>,
    part: PhrasematchSubquery,
    phrasematch_id: u32,
    i: int,
) -> (r: (int, int))
    requires
        grids.len() <= 80,
        0 <= i < grids.len(),
        grids[i].grid_entry.id != 0 || grids[i].scoredist > 0,
    ensures
        ({
            let cs = leaf_contexts(grids, part, phrasematch_id);
            let feature = grids[i].grid_entry.id;
            let (k, m) = r;
            &&& 0 <= k < cs.len()
            &&& 0 <= m < grids.len()
            &&& grids[m].grid_entry.id == feature
            &&& cs[k].entries == seq![coalesce_entry(grids[m], part, phrasematch_id)]
            &&& cs[k].mask == part.mask
            &&& cs[k].relev == grids[m].grid_entry.relev * part.weight
            &&& forall|j: int|
                m < j < grids.len() && (#[trigger] grids[j]).grid_entry.id == feature
                    ==> grids[j].scoredist <= grids[m].scoredist
            &&& (forall|a: int, b: int, c: int|
                #![trigger grids[a], grids[b], grids[c]]
                0 <= a < b < c < grids.len() && grids[a].grid_entry.id == feature
                    && grids[c].grid_entry.id == feature ==> grids[b].grid_entry.id == feature)
                ==> forall|j: int|
                0 <= j < m && (#[trigger] grids[j]).grid_entry.id == feature ==> grids[j].scoredist
                    < grids[m].scoredist
        }),
{
    let entries = coalesce_entries(grids, part, phrasematch_id);
    let feature = grids[i].grid_entry.id;
    assert forall|j: int| 0 <= j < grids.len() implies (#[trigger] entries[j]).grid_entry
        == grids[j].grid_entry && entries[j].scoredist == grids[j].scoredist by {
        assert(entries[j] == coalesce_entry(grids[j], part, phrasematch_id));
    }
    let (_, kept) = leaf_keeps(entries, feature);
    assert(entries[i].grid_entry.id == feature);
    let m = kept->Some_0;
    let best = leaf_states(entries).best;
    let num = num_u32();
    assert forall|a: u32, b: u32| #[trigger] num(a) == #[trigger] num(b) implies a == b by {}
    in_order_exists(best.dom(), num_u32());
    let ids = in_order(best.dom(), num_u32());
    set_members(ids, feature);
    let k = choose|k: int| 0 <= k < ids.len() && ids[k] == feature;
    let cs = leaf_contexts(grids, part, phrasematch_id);
    assert(cs[k] == single_context(best[feature], part.mask));
    assert(entries[m] == coalesce_entry(grids[m], part, phrasematch_id));
    leaf_relev_fits(grids[m], part);
    assert forall|j: int|
        m < j < grids.len() && (#[trigger] grids[j]).grid_entry.id
            == feature implies grids[j].scoredist <= grids[m].scoredist by {
        assert(entries[j].scoredist <= entries[m].scoredist);
    }
    if forall|a: int, b: int, c: int|
        #![trigger grids[a], grids[b], grids[c]]
        0 <= a < b < c < grids.len() && grids[a].grid_entry.id == feature && grids[c].grid_entry.id
            == feature ==> grids[b].grid_entry.id == feature {
        assert forall|a: int, b: int, c: int|
            #![trigger entries[a], entries[b], entries[c]]
            0 <= a < b < c < entries.len() && entries[a].grid_entry.id == feature
                && entries[c].grid_entry.id
                == feature implies entries[b].grid_entry.id == feature by {
            assert(entries[a].grid_entry == grids[a].grid_entry && entries[b].grid_entry
                == grids[b].grid_entry && entries[c].grid_entry == grids[c].grid_entry);
        }
        assert forall|j: int|
            0 <= j < m && (#[trigger] grids[j]).grid_entry.id == feature implies grids[j].scoredist
            < grids[m].scoredist by {
            assert(entries[j].scoredist < entries[m].scoredist);
        }
    }
    (k, m)
}

/// The contexts of a single phrase are of different features, each of one match.
pub proof fn contexts_of_a_leaf_hold_one_match(
    grids: Seq<MatchEntry>,
    part: PhrasematchSubquery,
    phrasematch_id: u32,
)
    requires
        grids.len() <= 80,
    ensures
        forall|k: int|
            0 <= k < leaf_contexts(grids, part, phrasematch_id).len() ==> is_of_one(
                grids,
                part,
                phrasematch_id,
                #[trigger] leaf_contexts(grids, part, phrasematch_id)[k],
            ),
        forall|k: int, l: int|
            0 <= k < l < leaf_contexts(grids, part, phrasematch_id).len() ==> (
            #[trigger] leaf_contexts(
                grids,
                part,
                phrasematch_id,
            )[k]).entries[0].grid_entry.id < (#[trigger] leaf_contexts(
                grids,
                part,
                phrasematch_id,
            )[l]).entries[0].grid_entry.id,
{
    let entries = coalesce_entries(grids, part, phrasematch_id);
    let cs = leaf_contexts(grids, part, phrasematch_id);
    let best = leaf_states(entries).best;
    let num = num_u32();
    assert forall|a: u32, b: u32| #[trigger] num(a) == #[trigger] num(b) implies a == b by {}
    let _ = leaf_keeps(entries, 0);
    in_order_exists(best.dom(), num_u32());
    let ids = in_order(best.dom(), num_u32());
    assert forall|k: int| 0 <= k < cs.len() implies is_of_one(
        grids,
        part,
        phrasematch_id,
        #[trigger] cs[k],
    ) && cs[k].entries[0].grid_entry.id == ids[k] by {
        set_members(ids, ids[k]);
        assert(ids.contains(ids[k]));
        let (_, kept) = leaf_keeps(entries, ids[k]);
        let m = kept->Some_0;
        assert(entries[m] == coalesce_entry(grids[m], part, phrasematch_id));
        assert(cs[k] == single_context(entries[m], part.mask));
    }
    assert forall|k: int, l: int| 0 <= k < l < cs.len() implies (
    #[trigger] cs[k]).entries[0].grid_entry.id < (#[trigger] cs[l]).entries[0].grid_entry.id by {
        assert(num(ids[k]) < num(ids[l]));
        assert(cs[k].entries[0].grid_entry.id == ids[k] && cs[l].entries[0].grid_entry.id
            == ids[l]);
    }
}

/// The context is of one of the matches.
pub open spec fn is_of_one(
    grids: Seq<MatchEntry>,
    part: PhrasematchSubquery,
    phrasematch_id: u32,
    c: ContextView,
) -> bool {
    exists|m: int|
        0 <= m < grids.len() && c == single_context(
            coalesce_entry(#[trigger] grids[m], part, phrasematch_id),
            part.mask,
        )
}

proof fn leaf_relev_fits(grid: MatchEntry, part: PhrasematchSubquery)
    ensures
        0 <= grid.grid_entry.relev * part.weight < MAX_ENTRY_RELEV,
{
    let relev = grid.grid_entry.relev;
    let weight = part.weight;
    assert(0 <= relev * weight <= 0xffff * 0xffff_ffff) by (nonlinear_arith)
        requires
            0 <= relev <= 0xffff,
            0 <= weight <= 0xffff_ffff,
    ;
}

} // verus!
