//! Stored values: reading them back, and ranking what they hold for a query.

use std::collections::HashMap;
use vstd::prelude::*;

use crate::builder::CoordsView;
use crate::common::{
    decode_relev_score, level_relev, unpack_feature_id, GridEntry, MatchOpts, MortonCode,
    PackedFeatureId,
};
use crate::error::{Result, StorageError};
use crate::order::{in_order, num_u32, word_keys};
use crate::outside::{
    coords_view, decoded_groups, deinterleave, deserialize_groups, even_bits, groups_view,
    merge_coords, merged_coords,
};
use crate::spatial::{
    dist_squared, in_box, is_scale, measure, measured, point_in_box, tile_dist_squared,
    Measure, OptsView,
};

verus! {

broadcast use vstd::std_specs::hash::group_hash_axioms;

// ---------------------------------------------------------------------------------------------
// Stored values
// ---------------------------------------------------------------------------------------------

/// A stored value: for each relevance and score the coordinates with their features.
pub type GroupsView = Seq<(u8, Seq<(u32, Seq<u32>)>)>;

/// The features at one coordinate.
pub struct FlatView {
    pub relev: u16,
    pub score: u8,
    pub morton: u32,
    pub ids: Seq<u32>,
}

struct FlatCoord {
    relev: u16,
    score: u8,
    morton: MortonCode,
    ids: Vec<PackedFeatureId>,
}

impl View for FlatCoord {
    type V = FlatView;

    closed spec fn view(&self) -> FlatView {
        FlatView { relev: self.relev, score: self.score, morton: self.morton, ids: self.ids@ }
    }
}

spec fn flats_view(flats: Seq<FlatCoord>) -> Seq<FlatView> {
    flats.map_values(|f: FlatCoord| f@)
}

/// The features by coordinate. Where a coordinate occurs again, the later list counts.
pub open spec fn coord_map(coords: Seq<(u32, Seq<u32>)>) -> CoordsView
    decreases coords.len(),
{
    if coords.len() == 0 {
        Map::empty()
    } else {
        coord_map(coords.drop_last()).insert(coords.last().0, coords.last().1)
    }
}

/// The coordinates of one relevance and score, by ascending Morton code.
pub open spec fn flat_group(group: (u8, Seq<(u32, Seq<u32>)>)) -> Seq<FlatView> {
    let coords = coord_map(group.1);
    in_order(coords.dom(), num_u32()).map_values(
        |m: u32|
            FlatView {
                relev: level_relev(group.0 / 16),
                score: group.0 % 16,
                morton: m,
                ids: coords[m],
            },
    )
}

/// All coordinates of a stored value.
pub open spec fn flattened(groups: GroupsView) -> Seq<FlatView>
    decreases groups.len(),
{
    if groups.len() == 0 {
        Seq::empty()
    } else {
        flattened(groups.drop_last()) + flat_group(groups.last())
    }
}

/// The x coordinate of a Morton code.
pub open spec fn morton_x(code: u32) -> u16 {
    even_bits(code as nat) as u16
}

/// The y coordinate of a Morton code.
pub open spec fn morton_y(code: u32) -> u16 {
    even_bits(code as nat / 2) as u16
}

/// The grid entry of a feature at a coordinate.
pub open spec fn unpacked(flat: FlatView, id: u32) -> GridEntry {
    GridEntry {
        relev: flat.relev,
        score: flat.score,
        x: morton_x(flat.morton),
        y: morton_y(flat.morton),
        id: id / 0x100,
        source_phrase_hash: (id % 0x100) as u8,
    }
}

/// The grid entries at a coordinate.
pub open spec fn flat_entries(flat: FlatView) -> Seq<GridEntry> {
    flat.ids.map_values(|id: u32| unpacked(flat, id))
}

/// The grid entries at all coordinates.
pub open spec fn all_entries(flats: Seq<FlatView>) -> Seq<GridEntry>
    decreases flats.len(),
{
    if flats.len() == 0 {
        Seq::empty()
    } else {
        all_entries(flats.drop_last()) + flat_entries(flats.last())
    }
}

fn copy_ids(ids: &Vec<u32>) -> (copy: Vec<u32>)
    ensures
        copy@ == ids@,
{
    let copy: Vec<u32> = ids.clone();
    assert(copy@ =~= ids@);
    copy
}

/// Appends the coordinates of one relevance and score.
fn push_group(flats: &mut Vec<FlatCoord>, rs: u8, coords: &Vec<(u32, Vec<u32>)>)
    ensures
        flats_view(final(flats)@) == flats_view(old(flats)@) + flat_group(
            (rs, coords_view(coords@)),
        ),
{
    let ghost list = coords_view(coords@);
    let mut map: HashMap<u32, Vec<u32>> = HashMap::new();
    let mut i: usize = 0;
    assert(list.take(0) =~= Seq::empty());
    assert(map@.map_values(|v: Vec<u32>| v@) =~= Map::empty());
    while i < coords.len()
        invariant
            i <= coords@.len(),
            list == coords_view(coords@),
            map@.map_values(|v: Vec<u32>| v@) == coord_map(list.take(i as int)),
        decreases coords@.len() - i,
    {
        let ghost before = map@;
        let ids: Vec<u32> = copy_ids(&coords[i].1);
        map.insert(coords[i].0, ids);
        i += 1;
        proof {
            assert(list.take(i as int).drop_last() =~= list.take(i - 1));
            assert(map@.map_values(|v: Vec<u32>| v@) =~= before.map_values(
                |v: Vec<u32>| v@,
            ).insert(list[i - 1].0, list[i - 1].1));
        }
    }
    assert(list.take(i as int) =~= list);
    let mortons: Vec<u32> = word_keys(&map);
    let (relev, score) = decode_relev_score(rs);
    let ghost want = flat_group((rs, list));
    let ghost before = flats_view(flats@);
    let ghost cm = coord_map(list);
    let mut j: usize = 0;
    assert(cm.dom() =~= map@.dom());
    assert(before =~= before + want.take(0));
    while j < mortons.len()
        invariant
            j <= mortons@.len(),
            cm == map@.map_values(|v: Vec<u32>| v@),
            cm == coord_map(list),
            mortons@ == in_order(cm.dom(), num_u32()),
            mortons@.to_set() == map@.dom(),
            relev == level_relev(rs / 16),
            score == rs % 16,
            want == flat_group((rs, list)),
            flats_view(flats@) == before + want.take(j as int),
        decreases mortons@.len() - j,
    {
        let morton: u32 = mortons[j];
        proof {
            assert(mortons@.contains(morton));
            assert(mortons@.to_set().contains(morton));
        }
        match map.get(&morton) {
            Some(ids) => {
                let ghost had = flats@;
                let flat = FlatCoord { relev, score, morton, ids: copy_ids(ids) };
                assert(flat@ == want[j as int]);
                flats.push(flat);
                assert(flats_view(flats@) =~= flats_view(had).push(want[j as int]));
            },
            None => {},
        }
        j += 1;
        assert(flats_view(flats@) =~= before + want.take(j as int));
    }
    assert(want.take(j as int) =~= want);
}

/// All coordinates of a stored value.
fn flatten(groups: &Vec<(u8, Vec<(u32, Vec<u32>)>)>) -> (flats: Vec<FlatCoord>)
    ensures
        flats_view(flats@) == flattened(groups_view(groups@)),
{
    let ghost all = groups_view(groups@);
    let mut flats: Vec<FlatCoord> = Vec::new();
    let mut i: usize = 0;
    assert(all.take(0) =~= Seq::empty());
    assert(flats_view(flats@) =~= Seq::empty());
    while i < groups.len()
        invariant
            i <= groups@.len(),
            all == groups_view(groups@),
            flats_view(flats@) == flattened(all.take(i as int)),
        decreases groups@.len() - i,
    {
        push_group(&mut flats, groups[i].0, &groups[i].1);
        i += 1;
        assert(all.take(i as int).drop_last() =~= all.take(i - 1));
    }
    assert(all.take(i as int) =~= all);
    flats
}

/// Deserializes a stored value to grid entries: the highest relevance first, at each relevance and
/// score by ascending Morton code.
pub fn decode_value(value: &Vec<u8>) -> (r: Result<Vec<GridEntry>>)
    ensures
        match decoded_groups(value@) {
            Ok(groups) => r is Ok && r->Ok_0@ == all_entries(flattened(groups)),
            Err(text) => r is Err && r->Err_0 is Serialization && r->Err_0->Serialization_0@ == text,
        },
{
    let groups = match deserialize_groups(value) {
        Ok(groups) => groups,
        Err(text) => {
            return Err(StorageError::Serialization(text));
        },
    };
    let flats: Vec<FlatCoord> = flatten(&groups);
    let ghost all = flats_view(flats@);
    let mut entries: Vec<GridEntry> = Vec::new();
    let mut i: usize = 0;
    assert(all.take(0) =~= Seq::empty());
    while i < flats.len()
        invariant
            i <= flats@.len(),
            all == flats_view(flats@),
            entries@ == all_entries(all.take(i as int)),
        decreases flats@.len() - i,
    {
        let flat: &FlatCoord = &flats[i];
        let (x, y) = deinterleave(flat.morton);
        let ghost before = entries@;
        let ghost want = flat_entries(flat@);
        let mut j: usize = 0;
        assert(entries@ =~= before + want.take(0));
        while j < flat.ids.len()
            invariant
                j <= flat.ids@.len(),
                want == flat_entries(flat@),
                x == morton_x(flat.morton),
                y == morton_y(flat.morton),
                entries@ == before + want.take(j as int),
            decreases flat.ids@.len() - j,
        {
            let (id, source_phrase_hash) = unpack_feature_id(flat.ids[j]);
            entries.push(
                GridEntry { relev: flat.relev, score: flat.score, x, y, id, source_phrase_hash },
            );
            j += 1;
            assert(want.take(j as int) =~= want.take(j - 1).push(want[j - 1]));
            assert(entries@ =~= before + want.take(j as int));
        }
        assert(want.take(j as int) =~= want);
        i += 1;
        proof {
            assert(all[i - 1] == flat@);
            assert(all.take(i as int).drop_last() =~= all.take(i - 1));
        }
    }
    assert(all.take(i as int) =~= all);
    Ok(entries)
}

// ---------------------------------------------------------------------------------------------
// Matching values
// ---------------------------------------------------------------------------------------------

/// An entry that matches a query.
#[derive(Copy, Clone, Debug, PartialEq, Eq, Structural)]
pub struct MatchEntry {
    pub grid_entry: GridEntry,
    /// The entry is stored for a language that the query asks for
    pub matches_language: bool,
    /// The square of the distance from the proximity point, zero without one
    pub distance: u64,
    /// The rank by score and distance: the higher, the better
    pub scoredist: u64,
}

/// A coordinate with its rank.
pub struct ScoredCoord {
    pub distance: u64,
    pub within_radius: bool,
    pub score: u8,
    pub scoredist: u64,
    pub x: u16,
    pub y: u16,
    pub ids: Vec<PackedFeatureId>,
}

/// A coordinate with its rank, as plain values.
pub struct ScoredView {
    pub distance: u64,
    pub within_radius: bool,
    pub score: u8,
    pub scoredist: u64,
    pub x: u16,
    pub y: u16,
    pub ids: Seq<u32>,
}

impl View for ScoredCoord {
    type V = ScoredView;

    open spec fn view(&self) -> ScoredView {
        ScoredView {
            distance: self.distance,
            within_radius: self.within_radius,
            score: self.score,
            scoredist: self.scoredist,
            x: self.x,
            y: self.y,
            ids: self.ids@,
        }
    }
}

/// Coordinates with their ranks, as plain values.
pub open spec fn scored_view(coords: Seq<ScoredCoord>) -> Seq<ScoredView> {
    coords.map_values(|c: ScoredCoord| c@)
}

/// `a` comes before `b`: it has the higher rank; at the same rank it is nearer; at the same
/// distance it has the lower y coordinate, and then the lower x coordinate.
pub open spec fn comes_before(a: ScoredView, b: ScoredView) -> bool {
    if a.scoredist != b.scoredist {
        a.scoredist > b.scoredist
    } else if a.distance != b.distance {
        a.distance < b.distance
    } else if a.y != b.y {
        a.y < b.y
    } else {
        a.x < b.x
    }
}

/// Whether `a` comes before `b`.
pub(crate) fn coord_first(a: &ScoredCoord, b: &ScoredCoord) -> (r: bool)
    ensures
        r == comes_before(a@, b@),
{
    if a.scoredist != b.scoredist {
        a.scoredist > b.scoredist
    } else if a.distance != b.distance {
        a.distance < b.distance
    } else if a.y != b.y {
        a.y < b.y
    } else {
        a.x < b.x
    }
}

/// No coordinate stands behind one that it comes before.
pub open spec fn in_rank_order(coords: Seq<ScoredView>) -> bool {
    forall|i: int, j: int|
        0 <= i < j < coords.len() ==> !comes_before(#[trigger] coords[j], #[trigger] coords[i])
}

/// How distance and score are measured: from the squared distance and the score.
pub type Meter = spec_fn(u64, u8) -> Measure;

/// The rank of a coordinate, or nothing if it lies outside of the bounding box. Without a
/// proximity point the score is the rank.
pub open spec fn scored(flat: FlatView, opts: OptsView, meter: Meter) -> Option<ScoredView> {
    let x = morton_x(flat.morton);
    let y = morton_y(flat.morton);
    if opts.bbox is Some && !in_box(opts.bbox->Some_0, x, y) {
        None
    } else {
        match opts.proximity {
            None => Some(
                ScoredView {
                    distance: 0,
                    within_radius: false,
                    score: flat.score,
                    scoredist: flat.score as u64,
                    x,
                    y,
                    ids: flat.ids,
                },
            ),
            Some(p) => {
                let distance = dist_squared(p.0, p.1, x, y) as u64;
                let m = meter(distance, flat.score);
                Some(
                    ScoredView {
                        distance,
                        within_radius: m.within_radius,
                        score: flat.score,
                        scoredist: m.scoredist,
                        x,
                        y,
                        ids: flat.ids,
                    },
                )
            },
        }
    }
}

/// The ranks of the coordinates that lie in the bounding box.
pub open spec fn all_scored(flats: Seq<FlatView>, opts: OptsView, meter: Meter) -> Seq<ScoredView>
    decreases flats.len(),
{
    if flats.len() == 0 {
        Seq::empty()
    } else {
        let before = all_scored(flats.drop_last(), opts, meter);
        match scored(flats.last(), opts, meter) {
            Some(c) => before.push(c),
            None => before,
        }
    }
}

/// The relevance of a match: a twenty-fifth is taken off where neither the language matches nor
/// the entry lies within the radius.
pub open spec fn match_relev(relev: u16, matches_language: bool, within_radius: bool) -> u16 {
    if matches_language || within_radius {
        relev
    } else {
        (relev * 24 / 25) as u16
    }
}

/// The match of a feature at a coordinate.
pub open spec fn match_of(c: ScoredView, relev: u16, lang: bool, id: u32) -> MatchEntry {
    MatchEntry {
        grid_entry: GridEntry {
            relev: match_relev(relev, lang, c.within_radius),
            score: c.score,
            x: c.x,
            y: c.y,
            id: id / 0x100,
            source_phrase_hash: (id % 0x100) as u8,
        },
        matches_language: lang,
        distance: c.distance,
        scoredist: c.scoredist,
    }
}

/// The matches at a coordinate.
pub open spec fn coord_matches(c: ScoredView, relev: u16, lang: bool) -> Seq<MatchEntry> {
    c.ids.map_values(|id: u32| match_of(c, relev, lang, id))
}

/// The matches at all coordinates, in their order.
pub open spec fn run_matches(run: Seq<ScoredView>, relev: u16, lang: bool) -> Seq<MatchEntry>
    decreases run.len(),
{
    if run.len() == 0 {
        Seq::empty()
    } else {
        run_matches(run.drop_last(), relev, lang) + coord_matches(run.last(), relev, lang)
    }
}

/// The number of leading coordinates of the same relevance.
pub open spec fn relev_run(flats: Seq<FlatView>) -> nat
    decreases flats.len(),
{
    if flats.len() == 0 {
        0
    } else if flats.len() > 1 && flats[1].relev == flats[0].relev {
        1 + relev_run(flats.skip(1))
    } else {
        1
    }
}

/// `run` holds the coordinates of `flats` that lie in the bounding box, merged in the order of
/// their ranks.
pub open spec fn is_ranked(
    run: Seq<ScoredView>,
    flats: Seq<FlatView>,
    opts: OptsView,
    meter: Meter,
) -> bool {
    let coords = all_scored(flats, opts, meter);
    run == merged_coords(coords) && in_rank_order(run) && run.to_multiset() == coords.to_multiset()
}

/// `out` holds the matches of a stored value: relevance by relevance, and at each relevance in the
/// order of the ranks.
pub open spec fn is_matches(
    flats: Seq<FlatView>,
    opts: OptsView,
    meter: Meter,
    lang: bool,
    out: Seq<MatchEntry>,
) -> bool
    decreases flats.len(),
{
    if flats.len() == 0 {
        out.len() == 0
    } else {
        let n = relev_run(flats) as int;
        0 < n <= flats.len() && exists|run: Seq<ScoredView>|
            {
                let here = run_matches(run, flats[0].relev, lang);
                &&& #[trigger] is_ranked(run, flats.take(n), opts, meter)
                &&& here.is_prefix_of(out)
                &&& is_matches(flats.skip(n), opts, meter, lang, out.skip(here.len() as int))
            }
    }
}

/// How a store's queries measure distance and score.
pub open spec fn meter_of<F: Fn(u64, u16, u64, u8) -> Measure>(
    scale: F,
    radius: u64,
    zoom: u16,
) -> Meter {
    |distance: u64, score: u8| measured(scale, radius, zoom, distance, score)
}

pub(crate) proof fn relev_run_bounds(flats: Seq<FlatView>)
    ensures
        relev_run(flats) <= flats.len(),
        flats.len() > 0 ==> relev_run(flats) > 0,
    decreases flats.len(),
{
    if flats.len() > 0 {
        relev_run_bounds(flats.skip(1));
    }
}

proof fn matches_step(
    flats: Seq<FlatView>,
    opts: OptsView,
    meter: Meter,
    lang: bool,
    run: Seq<ScoredView>,
    rest: Seq<MatchEntry>,
)
    requires
        flats.len() > 0,
        is_ranked(run, flats.take(relev_run(flats) as int), opts, meter),
        is_matches(flats.skip(relev_run(flats) as int), opts, meter, lang, rest),
    ensures
        is_matches(flats, opts, meter, lang, run_matches(run, flats[0].relev, lang) + rest),
{
    relev_run_bounds(flats);
    let here = run_matches(run, flats[0].relev, lang);
    assert((here + rest).skip(here.len() as int) =~= rest);
    assert(here.is_prefix_of(here + rest));
}

fn score_coord<F: Fn(u64, u16, u64, u8) -> Measure>(
    flat: &FlatCoord,
    opts: &MatchOpts,
    radius: u64,
    scale: &F,
) -> (c: Option<ScoredCoord>)
    requires
        is_scale(*scale),
    ensures
        match c {
            Some(c) => scored(flat@, opts@, meter_of(*scale, radius, opts.zoom)) == Some(c@),
            None => scored(flat@, opts@, meter_of(*scale, radius, opts.zoom)) is None,
        },
{
    let (x, y) = deinterleave(flat.morton);
    if let Some(bbox) = &opts.bbox {
        if !point_in_box(bbox, x, y) {
            return None;
        }
    }
    let ids: Vec<u32> = copy_ids(&flat.ids);
    match opts.proximity {
        None => Some(
            ScoredCoord {
                distance: 0,
                within_radius: false,
                score: flat.score,
                scoredist: flat.score as u64,
                x,
                y,
                ids,
            },
        ),
        Some(point) => {
            let distance: u64 = tile_dist_squared(point[0], point[1], x, y);
            let m: Measure = measure(scale, radius, opts.zoom, distance, flat.score);
            Some(
                ScoredCoord {
                    distance,
                    within_radius: m.within_radius,
                    score: flat.score,
                    scoredist: m.scoredist,
                    x,
                    y,
                    ids,
                },
            )
        },
    }
}

/// Appends the matches at one coordinate.
fn push_matches(out: &mut Vec<MatchEntry>, c: &ScoredCoord, relev: u16, lang: bool)
    ensures
        final(out)@ == old(out)@ + coord_matches(c@, relev, lang),
{
    let ghost before = out@;
    let ghost want = coord_matches(c@, relev, lang);
    let penalized: u16 = if lang || c.within_radius {
        relev
    } else {
        (relev as u32 * 24 / 25) as u16
    };
    let mut j: usize = 0;
    assert(out@ =~= before + want.take(0));
    while j < c.ids.len()
        invariant
            j <= c.ids@.len(),
            penalized == match_relev(relev, lang, c.within_radius),
            want == coord_matches(c@, relev, lang),
            out@ == before + want.take(j as int),
        decreases c.ids@.len() - j,
    {
        let (id, source_phrase_hash) = unpack_feature_id(c.ids[j]);
        out.push(
            MatchEntry {
                grid_entry: GridEntry {
                    relev: penalized,
                    score: c.score,
                    x: c.x,
                    y: c.y,
                    id,
                    source_phrase_hash,
                },
                matches_language: lang,
                distance: c.distance,
                scoredist: c.scoredist,
            },
        );
        j += 1;
        assert(want.take(j as int) =~= want.take(j - 1).push(want[j - 1]));
        assert(out@ =~= before + want.take(j as int));
    }
    assert(want.take(j as int) =~= want);
}

/// Deserializes a stored value and filters it by place.
///
/// Unlike `decode_value()`, this leaves out what lies outside of the bounding box and ranks the
/// rest by score and distance. The entries are grouped by relevance; within each relevance the
/// coordinates of all scores are merged by rank (highest first).
pub fn decode_matching_value<F: Fn(u64, u16, u64, u8) -> Measure>(
    value: &Vec<u8>,
    match_opts: &MatchOpts,
    matches_language: bool,
    coalesce_radius: u64,
    scale: &F,
) -> (r: Result<Vec<MatchEntry>>)
    requires
        is_scale(*scale),
    ensures
        match decoded_groups(value@) {
            Ok(groups) => r is Ok && is_matches(
                flattened(groups),
                match_opts@,
                meter_of(*scale, coalesce_radius, match_opts.zoom),
                matches_language,
                r->Ok_0@,
            ),
            Err(text) => r is Err && r->Err_0 is Serialization && r->Err_0->Serialization_0@ == text,
        },
{
    let groups = match deserialize_groups(value) {
        Ok(groups) => groups,
        Err(text) => {
            return Err(StorageError::Serialization(text));
        },
    };
    let flats: Vec<FlatCoord> = flatten(&groups);
    let ghost all = flats_view(flats@);
    let ghost opts = match_opts@;
    let ghost meter = meter_of(*scale, coalesce_radius, match_opts.zoom);
    let mut out: Vec<MatchEntry> = Vec::new();
    let mut i: usize = 0;
    proof {
        assert(all.skip(0) =~= all);
        assert forall|rest: Seq<MatchEntry>| #[trigger]
            is_matches(all.skip(0), opts, meter, matches_language, rest) implies is_matches(
            all,
            opts,
            meter,
            matches_language,
            out@ + rest,
        ) by {
            assert(out@ + rest =~= rest);
        }
    }
    while i < flats.len()
        invariant
            i <= flats@.len(),
            is_scale(*scale),
            all == flats_view(flats@),
            opts == match_opts@,
            meter == meter_of(*scale, coalesce_radius, match_opts.zoom),
            forall|rest: Seq<MatchEntry>| #[trigger]
                is_matches(all.skip(i as int), opts, meter, matches_language, rest) ==> is_matches(
                    all,
                    opts,
                    meter,
                    matches_language,
                    out@ + rest,
                ),
        decreases flats@.len() - i,
    {
        let ghost start = i as int;
        let ghost here = all.skip(start);
        let ghost n = relev_run(here) as int;
        let relev: u16 = flats[i].relev;
        let mut coords: Vec<ScoredCoord> = Vec::new();
        let mut more: bool = true;
        proof {
            relev_run_bounds(here);
            assert(here.take(0) =~= Seq::empty());
            assert(scored_view(coords@) =~= Seq::empty());
        }
        while more
            invariant
                0 <= start <= i <= flats@.len(),
                start < flats@.len() <= usize::MAX,
                more ==> i < flats@.len(),
                i > start || more,
                is_scale(*scale),
                all == flats_view(flats@),
                opts == match_opts@,
                meter == meter_of(*scale, coalesce_radius, match_opts.zoom),
                here == all.skip(start),
                relev == all[start].relev,
                more ==> all[i as int].relev == relev,
                more ==> n == i - start + relev_run(all.skip(i as int)),
                !more ==> n == i - start,
                scored_view(coords@) == all_scored(here.take(i - start), opts, meter),
            decreases flats@.len() - i,
        {
            let ghost k = i - start;
            let ghost had = coords@;
            match score_coord(&flats[i], match_opts, coalesce_radius, scale) {
                Some(c) => {
                    let ghost cv = c@;
                    coords.push(c);
                    assert(scored_view(coords@) =~= scored_view(had).push(cv));
                },
                None => {},
            }
            proof {
                assert(here[k] == flats@[i as int]@);
                assert(here.take(k + 1).drop_last() =~= here.take(k));
            }
            let ghost tail = all.skip(i as int);
            i += 1;
            proof {
                assert(tail.skip(1) =~= all.skip(i as int));
            }
            if i < flats.len() {
                assert(tail[1] == flats@[i as int]@ && tail[0] == flats@[i - 1]@);
                if flats[i].relev != relev {
                    more = false;
                }
            } else {
                more = false;
            }
        }
        let run: Vec<ScoredCoord> = merge_coords(coords);
        let ghost ranked = scored_view(run@);
        let ghost before = out@;
        let mut j: usize = 0;
        proof {
            assert(ranked.take(0) =~= Seq::empty());
            assert(before + Seq::<MatchEntry>::empty() =~= before);
        }
        while j < run.len()
            invariant
                j <= run@.len(),
                ranked == scored_view(run@),
                out@ == before + run_matches(ranked.take(j as int), relev, matches_language),
            decreases run@.len() - j,
        {
            push_matches(&mut out, &run[j], relev, matches_language);
            j += 1;
            proof {
                assert(ranked[j - 1] == run@[j - 1]@);
                assert(ranked.take(j as int).drop_last() =~= ranked.take(j - 1));
                assert(out@ =~= before + run_matches(
                    ranked.take(j as int),
                    relev,
                    matches_language,
                ));
            }
        }
        proof {
            assert(ranked.take(j as int) =~= ranked);
            assert(here.skip(n) =~= all.skip(i as int));
            assert(here[0] == all[start]);
            assert(is_ranked(ranked, here.take(n), opts, meter));
            assert forall|rest: Seq<MatchEntry>| #[trigger]
                is_matches(all.skip(i as int), opts, meter, matches_language, rest) implies is_matches(
                all,
                opts,
                meter,
                matches_language,
                out@ + rest,
            ) by {
                let tail = run_matches(ranked, relev, matches_language) + rest;
                assert(is_matches(here.skip(n), opts, meter, matches_language, rest));
                matches_step(here, opts, meter, matches_language, ranked, rest);
                assert(before + tail =~= out@ + rest);
            }
        }
    }
    proof {
        let none = Seq::<MatchEntry>::empty();
        assert(is_matches(all.skip(i as int), opts, meter, matches_language, none));
        assert(out@ + none =~= out@);
    }
    Ok(out)
}

} // verus!
