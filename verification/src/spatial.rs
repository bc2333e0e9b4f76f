//! Spatial helpers: distances, bounding boxes and changes of zoom level.

use vstd::arithmetic::power2::{lemma_pow2_strictly_increases, lemma_pow2_unfold, pow2};
use vstd::prelude::*;

use crate::common::MatchOpts;

verus! {

/// How far from the proximity point, in tiles, a match still counts as nearby.
pub const NEARBY_TILES: u16 = 32;

/// A bounding box as its edges: least x, least y, greatest x, greatest y.
pub type Edges = (u16, u16, u16, u16);

/// The edges of a bounding box.
pub open spec fn edges(bbox: [u16; 4]) -> Edges {
    (bbox[0], bbox[1], bbox[2], bbox[3])
}

/// The edges of each bounding box.
pub open spec fn all_edges(bboxes: Seq<[u16; 4]>) -> Seq<Edges> {
    bboxes.map_values(|b: [u16; 4]| edges(b))
}

/// The point lies in the box, the edges of which belong to it.
pub open spec fn in_box(e: Edges, x: u16, y: u16) -> bool {
    e.0 <= x <= e.2 && e.1 <= y <= e.3
}

/// Whether the point lies in the box, the edges of which belong to it.
pub(crate) fn point_in_box(bbox: &[u16; 4], x: u16, y: u16) -> (r: bool)
    ensures
        r == in_box(edges(*bbox), x, y),
{
    x >= bbox[0] && x <= bbox[2] && y >= bbox[1] && y <= bbox[3]
}

/// The square of the Euclidean distance between two tiles.
pub open spec fn dist_squared(px: u16, py: u16, x: u16, y: u16) -> nat {
    ((px - x) * (px - x) + (py - y) * (py - y)) as nat
}

/// The square of the Euclidean distance between two tiles. Distances compare as their squares do.
pub fn tile_dist_squared(proximity_x: u16, proximity_y: u16, grid_x: u16, grid_y: u16) -> (d: u64)
    ensures
        d == dist_squared(proximity_x, proximity_y, grid_x, grid_y),
{
    let dx: i64 = proximity_x as i64 - grid_x as i64;
    let dy: i64 = proximity_y as i64 - grid_y as i64;
    assert(0 <= dx * dx <= 65535 * 65535) by (nonlinear_arith)
        requires
            -65535 <= dx <= 65535,
    ;
    assert(0 <= dy * dy <= 65535 * 65535) by (nonlinear_arith)
        requires
            -65535 <= dy <= 65535,
    ;
    (dx * dx + dy * dy) as u64
}

// ---------------------------------------------------------------------------------------------
// Proximity
// ---------------------------------------------------------------------------------------------

/// What the distance from the proximity point makes of an entry.
#[derive(Copy, Clone, Debug, PartialEq, Eq, Structural)]
pub struct Measure {
    /// The entry lies within the radius of the search
    pub within_radius: bool,
    /// The rank of the entry by score and distance combined: the higher, the better
    pub scoredist: u64,
}

/// `scale` takes a radius, a zoom level, a squared distance and a score. It can be asked for any
/// of them, and answers the same whenever it is asked the same.
pub open spec fn is_scale<F: Fn(u64, u16, u64, u8) -> Measure>(scale: F) -> bool {
    &&& forall|r: u64, z: u16, d: u64, s: u8| #[trigger] call_requires(scale, (r, z, d, s))
    &&& forall|r: u64, z: u16, d: u64, s: u8, m1: Measure, m2: Measure|
        #[trigger] call_ensures(scale, (r, z, d, s), m1) && #[trigger] call_ensures(
            scale,
            (r, z, d, s),
            m2,
        ) ==> m1 == m2
}

/// What `scale` answers.
pub open spec fn measured<F: Fn(u64, u16, u64, u8) -> Measure>(
    scale: F,
    radius: u64,
    zoom: u16,
    distance: u64,
    score: u8,
) -> Measure {
    choose|m: Measure| call_ensures(scale, (radius, zoom, distance, score), m)
}

/// Asks `scale`.
pub(crate) fn measure<F: Fn(u64, u16, u64, u8) -> Measure>(
    scale: &F,
    radius: u64,
    zoom: u16,
    distance: u64,
    score: u8,
) -> (m: Measure)
    requires
        is_scale(*scale),
    ensures
        m == measured(*scale, radius, zoom, distance, score),
{
    scale(radius, zoom, distance, score)
}

// ---------------------------------------------------------------------------------------------
// Zoom levels
// ---------------------------------------------------------------------------------------------

/// A coordinate `levels` zoom levels further out: divided by two for each level.
pub open spec fn zoomed_out(v: u16, levels: nat) -> u16 {
    (v as nat / pow2(levels)) as u16
}

/// The first of the coordinates `levels` zoom levels further in, or the greatest coordinate there
/// is.
pub open spec fn zoomed_in(v: u16, levels: nat) -> u16 {
    if v * pow2(levels) <= u16::MAX {
        (v * pow2(levels)) as u16
    } else {
        u16::MAX
    }
}

/// The last of the coordinates `levels` zoom levels further in, or the greatest coordinate there
/// is.
pub open spec fn zoomed_in_last(v: u16, levels: nat) -> u16 {
    if v * pow2(levels) + pow2(levels) - 1 <= u16::MAX {
        (v * pow2(levels) + pow2(levels) - 1) as u16
    } else {
        u16::MAX
    }
}

/// The coordinate in the middle of those `levels` zoom levels further in, the lower one of the two
/// middle ones, or the greatest coordinate there is.
pub open spec fn zoomed_in_middle(v: u16, levels: nat) -> u16 {
    if v * pow2(levels) + pow2(levels) / 2 - 1 <= u16::MAX {
        (v * pow2(levels) + pow2(levels) / 2 - 1) as u16
    } else {
        u16::MAX
    }
}

/// Two to the power of `levels`, if that fits in 17 bits.
fn small_pow2(levels: u16) -> (p: Option<u32>)
    ensures
        p is Some <==> levels <= 16,
        p is Some ==> p->Some_0 == pow2(levels as nat) && 1 <= p->Some_0 <= 0x1_0000,
        p is None ==> pow2(levels as nat) >= 0x2_0000,
{
    proof {
        vstd::arithmetic::power2::lemma2_to64();
    }
    if levels > 16 {
        proof {
            if levels > 17 {
                lemma_pow2_strictly_increases(17, levels as nat);
            }
        }
        return None;
    }
    let mut p: u32 = 1;
    let mut i: u16 = 0;
    while i < levels
        invariant
            i <= levels <= 16,
            p == pow2(i as nat),
            pow2(16) == 0x1_0000,
            1 <= p,
        decreases levels - i,
    {
        proof {
            lemma_pow2_unfold((i + 1) as nat);
            lemma_pow2_strictly_increases(i as nat, 16);
        }
        p = p * 2;
        i += 1;
    }
    proof {
        if levels < 16 {
            lemma_pow2_strictly_increases(levels as nat, 16);
        }
    }
    Some(p)
}

/// A coordinate `levels` zoom levels further out.
pub fn zoom_out(v: u16, levels: u16) -> (r: u16)
    ensures
        r == zoomed_out(v, levels as nat),
{
    match small_pow2(levels) {
        Some(p) => {
            assert(v as nat / p as nat <= v) by (nonlinear_arith)
                requires
                    p >= 1,
            ;
            (v as u32 / p) as u16
        },
        None => {
            assert(v as nat / pow2(levels as nat) == 0) by (nonlinear_arith)
                requires
                    v < pow2(levels as nat),
            ;
            0
        },
    }
}

/// The first of the coordinates `levels` zoom levels further in.
fn zoom_in(v: u16, levels: u16) -> (r: u16)
    ensures
        r == zoomed_in(v, levels as nat),
{
    let ghost q = pow2(levels as nat);
    match small_pow2(levels) {
        Some(p) => {
            assert(v * p <= 0xffff_0000) by (nonlinear_arith)
                requires
                    v <= 0xffff,
                    p <= 0x1_0000,
            ;
            let w: u32 = v as u32 * p;
            if w <= 0xffff {
                w as u16
            } else {
                0xffff
            }
        },
        None => {
            if v == 0 {
                assert(v * q == 0) by (nonlinear_arith)
                    requires
                        v == 0,
                ;
                0
            } else {
                assert(v * q >= q) by (nonlinear_arith)
                    requires
                        v >= 1,
                        q >= 0,
                ;
                0xffff
            }
        },
    }
}

/// The last of the coordinates `levels` zoom levels further in.
fn zoom_in_last(v: u16, levels: u16) -> (r: u16)
    ensures
        r == zoomed_in_last(v, levels as nat),
{
    let ghost q = pow2(levels as nat);
    match small_pow2(levels) {
        Some(p) => {
            assert(0 <= v * p <= 0xffff_0000) by (nonlinear_arith)
                requires
                    v <= 0xffff,
                    p <= 0x1_0000,
            ;
            let w: u64 = v as u64 * p as u64 + p as u64 - 1;
            if w <= 0xffff {
                w as u16
            } else {
                0xffff
            }
        },
        None => {
            assert(v * q >= 0) by (nonlinear_arith)
                requires
                    v >= 0,
                    q >= 0,
            ;
            0xffff
        },
    }
}

/// The coordinate in the middle of those `levels` zoom levels further in.
fn zoom_in_middle(v: u16, levels: u16) -> (r: u16)
    requires
        levels >= 1,
    ensures
        r == zoomed_in_middle(v, levels as nat),
{
    let ghost q = pow2(levels as nat);
    proof {
        lemma_pow2_unfold(levels as nat);
        lemma_pow2_strictly_increases(0, levels as nat);
        vstd::arithmetic::power2::lemma2_to64();
    }
    match small_pow2(levels) {
        Some(p) => {
            assert(0 <= v * p <= 0xffff_0000) by (nonlinear_arith)
                requires
                    v <= 0xffff,
                    p <= 0x1_0000,
            ;
            let w: u64 = v as u64 * p as u64 + p as u64 / 2 - 1;
            if w <= 0xffff {
                w as u16
            } else {
                0xffff
            }
        },
        None => {
            assert(v * q >= 0) by (nonlinear_arith)
                requires
                    v >= 0,
                    q >= 0,
            ;
            0xffff
        },
    }
}

/// A bounding box at another zoom level: the tiles further out that its edges lie in, or all the
/// tiles further in that lie in it.
pub open spec fn box_at_zoom(e: Edges, from_zoom: u16, to_zoom: u16) -> Edges {
    if to_zoom <= from_zoom {
        let n = (from_zoom - to_zoom) as nat;
        (zoomed_out(e.0, n), zoomed_out(e.1, n), zoomed_out(e.2, n), zoomed_out(e.3, n))
    } else {
        let n = (to_zoom - from_zoom) as nat;
        (zoomed_in(e.0, n), zoomed_in(e.1, n), zoomed_in_last(e.2, n), zoomed_in_last(e.3, n))
    }
}

/// A bounding box at another zoom level.
pub fn adjust_bbox_zoom(bbox: [u16; 4], from_zoom: u16, to_zoom: u16) -> (r: [u16; 4])
    ensures
        edges(r) == box_at_zoom(edges(bbox), from_zoom, to_zoom),
{
    if to_zoom <= from_zoom {
        let n: u16 = from_zoom - to_zoom;
        [zoom_out(bbox[0], n), zoom_out(bbox[1], n), zoom_out(bbox[2], n), zoom_out(bbox[3], n)]
    } else {
        let n: u16 = to_zoom - from_zoom;
        [
            zoom_in(bbox[0], n),
            zoom_in(bbox[1], n),
            zoom_in_last(bbox[2], n),
            zoom_in_last(bbox[3], n),
        ]
    }
}

/// A tile lies in a box only if, further out, the tile around it lies in the box around that.
pub proof fn zooming_out_keeps_containment(e: Edges, x: u16, y: u16, from_zoom: u16, to_zoom: u16)
    requires
        to_zoom <= from_zoom,
        in_box(e, x, y),
    ensures
        in_box(
            box_at_zoom(e, from_zoom, to_zoom),
            zoomed_out(x, (from_zoom - to_zoom) as nat),
            zoomed_out(y, (from_zoom - to_zoom) as nat),
        ),
{
    let n = (from_zoom - to_zoom) as nat;
    vstd::arithmetic::power2::lemma_pow2_pos(n);
    let p = pow2(n);
    zoom_out_order(e.0, x, n);
    zoom_out_order(x, e.2, n);
    zoom_out_order(e.1, y, n);
    zoom_out_order(y, e.3, n);
}

proof fn zoom_out_order(a: u16, b: u16, n: nat)
    requires
        a <= b,
    ensures
        zoomed_out(a, n) <= zoomed_out(b, n),
{
    vstd::arithmetic::power2::lemma_pow2_pos(n);
    vstd::arithmetic::div_mod::lemma_div_is_ordered(a as int, b as int, pow2(n) as int);
    vstd::arithmetic::div_mod::lemma_div_nonincreasing(b as int, pow2(n) as int);
    vstd::arithmetic::div_mod::lemma_div_pos_is_pos(a as int, pow2(n) as int);
}

/// The bounding boxes of an index that covers everything: one box with all tiles.
pub open spec fn global_edges(zoom: u16) -> Edges {
    let last = zoomed_in_last(0, zoom as nat);
    (0, 0, last, last)
}

/// The bounding boxes of an index that covers everything: one box with all tiles.
pub fn global_bbox_for_zoom(zoom: u16) -> (bboxes: Vec<[u16; 4]>)
    ensures
        all_edges(bboxes@) == seq![global_edges(zoom)],
{
    let last: u16 = zoom_in_last(0, zoom);
    let bboxes: Vec<[u16; 4]> = vec![[0, 0, last, last]];
    assert(all_edges(bboxes@) =~= seq![global_edges(zoom)]);
    bboxes
}

// ---------------------------------------------------------------------------------------------
// Match options
// ---------------------------------------------------------------------------------------------

/// Match options as plain values.
pub struct OptsView {
    pub bbox: Option<Edges>,
    pub proximity: Option<(u16, u16)>,
    pub zoom: u16,
}

impl View for MatchOpts {
    type V = OptsView;

    open spec fn view(&self) -> OptsView {
        OptsView {
            bbox: match self.bbox {
                Some(b) => Some(edges(b)),
                None => None,
            },
            proximity: match self.proximity {
                Some(p) => Some((p[0], p[1])),
                None => None,
            },
            zoom: self.zoom,
        }
    }
}

/// The proximity point at another zoom level: the tile further out that it lies in, or the middle
/// one of the tiles further in.
pub open spec fn point_at_zoom(p: (u16, u16), from_zoom: u16, to_zoom: u16) -> (u16, u16) {
    if to_zoom <= from_zoom {
        let n = (from_zoom - to_zoom) as nat;
        (zoomed_out(p.0, n), zoomed_out(p.1, n))
    } else {
        let n = (to_zoom - from_zoom) as nat;
        (zoomed_in_middle(p.0, n), zoomed_in_middle(p.1, n))
    }
}

/// The options at another zoom level. At their own they are what they are.
pub open spec fn opts_at_zoom(opts: OptsView, zoom: u16) -> OptsView {
    if opts.zoom == zoom {
        opts
    } else {
        OptsView {
            bbox: match opts.bbox {
                Some(b) => Some(box_at_zoom(b, opts.zoom, zoom)),
                None => None,
            },
            proximity: match opts.proximity {
                Some(p) => Some(point_at_zoom(p, opts.zoom, zoom)),
                None => None,
            },
            zoom,
        }
    }
}

/// The lower one of two coordinates.
pub open spec fn lower(a: u16, b: u16) -> u16 {
    if a <= b {
        a
    } else {
        b
    }
}

/// The higher one of two coordinates.
pub open spec fn higher(a: u16, b: u16) -> u16 {
    if a <= b {
        b
    } else {
        a
    }
}

/// What two boxes have in common.
pub open spec fn common_box(a: Edges, b: Edges) -> Edges {
    (higher(a.0, b.0), higher(a.1, b.1), lower(a.2, b.2), lower(a.3, b.3))
}

/// The box that reaches `NEARBY_TILES` from the point to every side, as far as there are tiles.
pub open spec fn nearby_box(p: (u16, u16)) -> Edges {
    let n = NEARBY_TILES;
    (
        if p.0 >= n {
            (p.0 - n) as u16
        } else {
            0
        },
        if p.1 >= n {
            (p.1 - n) as u16
        } else {
            0
        },
        if p.0 + n <= u16::MAX {
            (p.0 + n) as u16
        } else {
            u16::MAX
        },
        if p.1 + n <= u16::MAX {
            (p.1 + n) as u16
        } else {
            u16::MAX
        },
    )
}

/// A box further narrowed down to another, if there is another.
pub open spec fn narrowed(bbox: Option<Edges>, by: Option<Edges>) -> Option<Edges> {
    match (bbox, by) {
        (Some(a), Some(b)) => Some(common_box(a, b)),
        (Some(a), None) => Some(a),
        (None, b) => b,
    }
}

/// The options narrowed down to `bounds` and, where only nearby matches are wanted, to what is
/// near the proximity point.
pub open spec fn augmented(
    opts: OptsView,
    nearby_only: bool,
    bounds: Option<Edges>,
) -> OptsView {
    let near = if nearby_only {
        match opts.proximity {
            Some(p) => Some(nearby_box(p)),
            None => None,
        }
    } else {
        None
    };
    OptsView { bbox: narrowed(narrowed(opts.bbox, bounds), near), ..opts }
}

/// The edges of a box, if there is one.
pub open spec fn maybe_edges(bbox: Option<[u16; 4]>) -> Option<Edges> {
    match bbox {
        Some(b) => Some(edges(b)),
        None => None,
    }
}

fn narrow(bbox: Option<[u16; 4]>, by: Option<[u16; 4]>) -> (r: Option<[u16; 4]>)
    ensures
        maybe_edges(r) == narrowed(maybe_edges(bbox), maybe_edges(by)),
{
    match (bbox, by) {
        (Some(a), Some(b)) => Some(
            [
                if a[0] <= b[0] { b[0] } else { a[0] },
                if a[1] <= b[1] { b[1] } else { a[1] },
                if a[2] <= b[2] { a[2] } else { b[2] },
                if a[3] <= b[3] { a[3] } else { b[3] },
            ],
        ),
        (Some(a), None) => Some(a),
        (None, b) => b,
    }
}

impl MatchOpts {
    /// The options at another zoom level.
    pub fn adjust_to_zoom(&self, zoom: u16) -> (r: MatchOpts)
        ensures
            r@ == opts_at_zoom(self@, zoom),
    {
        if self.zoom == zoom {
            return *self;
        }
        let bbox: Option<[u16; 4]> = match self.bbox {
            Some(b) => Some(adjust_bbox_zoom(b, self.zoom, zoom)),
            None => None,
        };
        let proximity: Option<[u16; 2]> = match self.proximity {
            Some(p) => {
                if zoom <= self.zoom {
                    let n: u16 = self.zoom - zoom;
                    Some([zoom_out(p[0], n), zoom_out(p[1], n)])
                } else {
                    let n: u16 = zoom - self.zoom;
                    Some([zoom_in_middle(p[0], n), zoom_in_middle(p[1], n)])
                }
            },
            None => None,
        };
        MatchOpts { bbox, proximity, zoom }
    }

    /// The options narrowed down to `bounds` and, where only nearby matches are wanted, to what is
    /// near the proximity point.
    pub fn augment_bbox(&self, nearby_only: bool, bounds: Option<[u16; 4]>) -> (r: MatchOpts)
        ensures
            r@ == augmented(self@, nearby_only, maybe_edges(bounds)),
    {
        let near: Option<[u16; 4]> = if nearby_only {
            match self.proximity {
                Some(p) => Some(
                    [
                        p[0].saturating_sub(NEARBY_TILES),
                        p[1].saturating_sub(NEARBY_TILES),
                        p[0].saturating_add(NEARBY_TILES),
                        p[1].saturating_add(NEARBY_TILES),
                    ],
                ),
                None => None,
            }
        } else {
            None
        };
        MatchOpts { bbox: narrow(narrow(self.bbox, bounds), near), ..*self }
    }
}

/// A point lies in the narrowed box exactly if it lies in each of the boxes.
pub proof fn narrowing_is_intersection(a: Edges, b: Edges, x: u16, y: u16)
    ensures
        in_box(common_box(a, b), x, y) <==> in_box(a, x, y) && in_box(b, x, y),
{
}

/// A tile further in lies in the box that was taken there exactly if the tile around it lies in the
/// box, as far as the corner of the box can be told there.
pub proof fn boxes_further_in_hold_the_same_tiles(
    e: Edges,
    x: u16,
    y: u16,
    from_zoom: u16,
    to_zoom: u16,
)
    requires
        from_zoom < to_zoom,
        e.0 * pow2((to_zoom - from_zoom) as nat) <= 0xffff,
        e.1 * pow2((to_zoom - from_zoom) as nat) <= 0xffff,
    ensures
        in_box(box_at_zoom(e, from_zoom, to_zoom), x, y) <==> in_box(
            e,
            zoomed_out(x, (to_zoom - from_zoom) as nat),
            zoomed_out(y, (to_zoom - from_zoom) as nat),
        ),
{
    let n = (to_zoom - from_zoom) as nat;
    span_holds(e.0, e.2, x, n);
    span_holds(e.1, e.3, y, n);
}

/// A coordinate lies between the first and the last one further in exactly if, further out, it lies
/// between the two.
proof fn span_holds(low: u16, high: u16, v: u16, n: nat)
    requires
        low * pow2(n) <= 0xffff,
    ensures
        zoomed_in(low, n) <= v <= zoomed_in_last(high, n) <==> low <= zoomed_out(v, n) <= high,
{
    vstd::arithmetic::power2::lemma_pow2_pos(n);
    let p = pow2(n) as int;
    let q = v as int / p;
    vstd::arithmetic::div_mod::lemma_fundamental_div_mod(v as int, p);
    vstd::arithmetic::div_mod::lemma_mod_bound(v as int, p);
    assert(0 <= q <= v) by (nonlinear_arith)
        requires
            q == v as int / p,
            p >= 1,
            v >= 0,
    ;
    let r = v as int % p;
    assert(low * p <= v <==> low <= q) by (nonlinear_arith)
        requires
            v == p * q + r,
            0 <= r < p,
    ;
    assert(v <= high * p + p - 1 <==> q <= high) by (nonlinear_arith)
        requires
            v == p * q + r,
            0 <= r < p,
    ;
}

/// A point that is taken further in lies in the tile that it was, in the middle: there are as many
/// coordinates up to it as there are behind it.
pub proof fn points_further_in_are_in_the_middle(v: u16, levels: nat)
    requires
        levels > 0,
        v * pow2(levels) + pow2(levels) - 1 <= 0xffff,
    ensures
        zoomed_out(zoomed_in_middle(v, levels), levels) == v,
        zoomed_in_middle(v, levels) - zoomed_in(v, levels) + 1 == zoomed_in_last(v, levels)
            - zoomed_in_middle(v, levels),
{
    lemma_pow2_unfold(levels);
    vstd::arithmetic::power2::lemma_pow2_pos((levels - 1) as nat);
    let h = pow2((levels - 1) as nat) as int;
    let p = pow2(levels) as int;
    assert(p == 2 * h && p / 2 == h);
    assert(0 <= v * p) by (nonlinear_arith)
        requires
            v >= 0,
            p >= 0,
    ;
    let m = v * p + h - 1;
    assert(zoomed_in_middle(v, levels) == m);
    vstd::arithmetic::div_mod::lemma_fundamental_div_mod_converse(m, p, v as int, h - 1);
}

/// The point may be matched: there is no box, or it lies in it.
pub open spec fn is_allowed(bbox: Option<Edges>, x: u16, y: u16) -> bool {
    match bbox {
        Some(e) => e.0 <= x <= e.2 && e.1 <= y <= e.3,
        None => true,
    }
}

/// Options that are narrowed down allow just what they allowed before, within the bounds, and, where
/// only nearby matches are wanted, no further from the proximity point than 32 tiles.
pub proof fn narrowed_options_allow_what_all_allow(
    opts: OptsView,
    nearby_only: bool,
    bounds: Option<Edges>,
    x: u16,
    y: u16,
)
    ensures
        is_allowed(augmented(opts, nearby_only, bounds).bbox, x, y) <==> {
            &&& is_allowed(opts.bbox, x, y)
            &&& is_allowed(bounds, x, y)
            &&& nearby_only && opts.proximity is Some ==> {
                let p = opts.proximity->Some_0;
                &&& -32 <= x - p.0 <= 32
                &&& -32 <= y - p.1 <= 32
            }
        },
        augmented(opts, nearby_only, bounds).proximity == opts.proximity,
        augmented(opts, nearby_only, bounds).zoom == opts.zoom,
{
}

/// The box of an index that covers everything has all tiles of the zoom level, and no others.
pub proof fn global_boxes_have_all_tiles(zoom: u16, x: u16, y: u16)
    ensures
        in_box(global_edges(zoom), x, y) <==> x < pow2(zoom as nat) && y < pow2(zoom as nat),
{
    vstd::arithmetic::power2::lemma_pow2_pos(zoom as nat);
    let p = pow2(zoom as nat);
    assert(0 * p == 0) by (nonlinear_arith);
}

/// Options that are taken to another zoom level keep what they say: further out, the proximity point
/// is the tile that it lies in; further in, it still lies in the tile that it was.
pub proof fn options_follow_the_zoom_level(opts: OptsView, zoom: u16)
    ensures
        opts_at_zoom(opts, zoom).zoom == zoom,
        opts_at_zoom(opts, zoom).bbox is Some <==> opts.bbox is Some,
        opts_at_zoom(opts, zoom).proximity is Some <==> opts.proximity is Some,
        opts.proximity is Some ==> {
            let p = opts.proximity->Some_0;
            let q = opts_at_zoom(opts, zoom).proximity->Some_0;
            &&& zoom <= opts.zoom ==> {
                let n = (opts.zoom - zoom) as nat;
                q.0 == p.0 as nat / pow2(n) && q.1 == p.1 as nat / pow2(n)
            }
            &&& zoom > opts.zoom ==> {
                let n = (zoom - opts.zoom) as nat;
                &&& p.0 * pow2(n) + pow2(n) - 1 <= 0xffff ==> q.0 as nat / pow2(n) == p.0
                &&& p.1 * pow2(n) + pow2(n) - 1 <= 0xffff ==> q.1 as nat / pow2(n) == p.1
            }
        },
{
    if opts.proximity is Some {
        let p = opts.proximity->Some_0;
        let q = opts_at_zoom(opts, zoom).proximity->Some_0;
        if zoom <= opts.zoom {
            let n = (opts.zoom - zoom) as nat;
            vstd::arithmetic::power2::lemma2_to64();
            quotient_fits(p.0, n);
            quotient_fits(p.1, n);
        } else {
            let n = (zoom - opts.zoom) as nat;
            if p.0 * pow2(n) + pow2(n) - 1 <= 0xffff {
                points_further_in_are_in_the_middle(p.0, n);
                quotient_fits(q.0, n);
            }
            if p.1 * pow2(n) + pow2(n) - 1 <= 0xffff {
                points_further_in_are_in_the_middle(p.1, n);
                quotient_fits(q.1, n);
            }
        }
    }
}

proof fn quotient_fits(v: u16, n: nat)
    ensures
        zoomed_out(v, n) == v as nat / pow2(n),
        n == 0 ==> zoomed_out(v, n) == v,
{
    vstd::arithmetic::power2::lemma_pow2_pos(n);
    vstd::arithmetic::power2::lemma2_to64();
    vstd::arithmetic::div_mod::lemma_div_nonincreasing(v as int, pow2(n) as int);
    vstd::arithmetic::div_mod::lemma_div_pos_is_pos(v as int, pow2(n) as int);
    assert(v as nat / 1 == v);
}

} // verus!
