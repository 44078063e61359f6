//! Planar geometry over fixed-point coordinates.
//!
//! A coordinate stores longitude and latitude in degrees scaled by 1e7,
//! so the valid longitude range [-180, 180] becomes [-1_800_000_000,
//! 1_800_000_000] and the valid latitude range [-90, 90] becomes
//! [-900_000_000, 900_000_000]. Containment tests use exact integer
//! arithmetic; intermediate products are taken in i128, which cannot
//! overflow for valid coordinates.

use vstd::prelude::*;

verus! {

/// Longitude bound in fixed-point units (180 degrees scaled by 1e7).
pub const MAX_LNG: i64 = 1_800_000_000;

/// Latitude bound in fixed-point units (90 degrees scaled by 1e7).
pub const MAX_LAT: i64 = 900_000_000;

/// A point in the longitude/latitude plane, fixed-point scaled by 1e7.
#[derive(Clone, Copy, PartialEq, Eq, Structural, Debug)]
pub struct Coord {
    pub x: i64,
    pub y: i64,
}

impl Coord {
    /// The point lies within the valid longitude/latitude ranges.
    pub open spec fn valid(self) -> bool {
        -MAX_LNG <= self.x <= MAX_LNG && -MAX_LAT <= self.y <= MAX_LAT
    }

    /// Runtime check matching `valid`.
    pub fn is_valid(&self) -> (r: bool)
        ensures
            r == self.valid(),
    {
        -MAX_LNG <= self.x && self.x <= MAX_LNG && -MAX_LAT <= self.y && self.y <= MAX_LAT
    }
}

/// Every coordinate of the sequence lies in the valid ranges.
pub open spec fn valid_coords(cs: Seq<Coord>) -> bool {
    forall|i: int| 0 <= i < cs.len() ==> #[trigger] cs[i].valid()
}

/// An axis-aligned bounding rectangle, in fixed-point coordinates.
#[derive(Clone, Copy, PartialEq, Eq, Structural, Debug)]
pub struct BBox {
    pub min_x: i64,
    pub min_y: i64,
    pub max_x: i64,
    pub max_y: i64,
}

impl BBox {
    /// The point lies inside the rectangle (borders included).
    pub open spec fn spec_contains(self, p: Coord) -> bool {
        self.min_x <= p.x <= self.max_x && self.min_y <= p.y <= self.max_y
    }

    #[verifier::loop_isolation(false)]
    pub fn contains(&self, p: Coord) -> (r: bool)
        ensures
            r == self.spec_contains(p),
    {
        self.min_x <= p.x && p.x <= self.max_x && self.min_y <= p.y && p.y <= self.max_y
    }

    /// Every point of `other` lies inside `self`.
    pub open spec fn subsumes(self, other: BBox) -> bool {
        self.min_x <= other.min_x && other.max_x <= self.max_x && self.min_y <= other.min_y
            && other.max_y <= self.max_y
    }

    /// All four corners lie in the valid coordinate ranges.
    pub open spec fn valid(self) -> bool {
        -MAX_LNG <= self.min_x <= MAX_LNG && -MAX_LNG <= self.max_x <= MAX_LNG && -MAX_LAT
            <= self.min_y <= MAX_LAT && -MAX_LAT <= self.max_y <= MAX_LAT
    }

    /// The smallest rectangle covering both arguments.
    pub fn union(a: BBox, b: BBox) -> (r: BBox)
        ensures
            r.subsumes(a),
            r.subsumes(b),
            r.min_x == if a.min_x <= b.min_x { a.min_x } else { b.min_x },
            r.min_y == if a.min_y <= b.min_y { a.min_y } else { b.min_y },
            r.max_x == if a.max_x >= b.max_x { a.max_x } else { b.max_x },
            r.max_y == if a.max_y >= b.max_y { a.max_y } else { b.max_y },
    {
        BBox {
            min_x: if a.min_x <= b.min_x { a.min_x } else { b.min_x },
            min_y: if a.min_y <= b.min_y { a.min_y } else { b.min_y },
            max_x: if a.max_x >= b.max_x { a.max_x } else { b.max_x },
            max_y: if a.max_y >= b.max_y { a.max_y } else { b.max_y },
        }
    }
}

/// `b` is exactly the min/max extents of the (non-empty) coordinate set.
pub open spec fn is_bbox_of(b: BBox, cs: Seq<Coord>) -> bool {
    &&& cs.len() > 0
    &&& forall|i: int|
        0 <= i < cs.len() ==> b.min_x <= (#[trigger] cs[i]).x <= b.max_x && b.min_y <= cs[i].y
            <= b.max_y
    &&& exists|i: int| 0 <= i < cs.len() && (#[trigger] cs[i]).x == b.min_x
    &&& exists|i: int| 0 <= i < cs.len() && (#[trigger] cs[i]).x == b.max_x
    &&& exists|i: int| 0 <= i < cs.len() && (#[trigger] cs[i]).y == b.min_y
    &&& exists|i: int| 0 <= i < cs.len() && (#[trigger] cs[i]).y == b.max_y
}

/// The extents of a non-empty coordinate set determine the rectangle.
pub proof fn lemma_bbox_unique(b1: BBox, b2: BBox, cs: Seq<Coord>)
    requires
        is_bbox_of(b1, cs),
        is_bbox_of(b2, cs),
    ensures
        b1 == b2,
{
}

/// The exact extents of a valid coordinate set form a valid rectangle.
pub proof fn lemma_bbox_of_valid_coords(b: BBox, cs: Seq<Coord>)
    requires
        is_bbox_of(b, cs),
        valid_coords(cs),
    ensures
        b.valid(),
{
    let wminx = choose|i: int| 0 <= i < cs.len() && (#[trigger] cs[i]).x == b.min_x;
    let wmaxx = choose|i: int| 0 <= i < cs.len() && (#[trigger] cs[i]).x == b.max_x;
    let wminy = choose|i: int| 0 <= i < cs.len() && (#[trigger] cs[i]).y == b.min_y;
    let wmaxy = choose|i: int| 0 <= i < cs.len() && (#[trigger] cs[i]).y == b.max_y;
    assert(cs[wminx].valid() && cs[wmaxx].valid() && cs[wminy].valid() && cs[wmaxy].valid());
}

/// Computes the exact bounding rectangle of a non-empty coordinate list.
#[verifier::loop_isolation(false)]
pub fn compute_bbox(cs: &Vec<Coord>) -> (b: BBox)
    requires
        cs@.len() > 0,
    ensures
        is_bbox_of(b, cs@),
{
    let first = cs[0];
    let mut b = BBox { min_x: first.x, min_y: first.y, max_x: first.x, max_y: first.y };
    let mut i: usize = 1;
    proof {
        let t1 = cs@.take(1);
        assert(t1[0] == cs@[0]);
        assert(is_bbox_of(b, t1));
    }
    while i < cs.len()
        invariant
            1 <= i <= cs@.len(),
            is_bbox_of(b, cs@.take(i as int)),
        decreases cs@.len() - i,
    {
        let c = cs[i];
        let updated = BBox {
            min_x: if c.x < b.min_x { c.x } else { b.min_x },
            min_y: if c.y < b.min_y { c.y } else { b.min_y },
            max_x: if c.x > b.max_x { c.x } else { b.max_x },
            max_y: if c.y > b.max_y { c.y } else { b.max_y },
        };
        proof {
            let pre = cs@.take(i as int);
            let post = cs@.take(i + 1 as int);
            assert(forall|j: int| 0 <= j < pre.len() ==> post[j] == #[trigger] pre[j]);
            assert(post[i as int] == c);
            assert(forall|j: int|
                0 <= j < post.len() ==> updated.min_x <= (#[trigger] post[j]).x <= updated.max_x
                    && updated.min_y <= post[j].y <= updated.max_y);
            if c.x < b.min_x {
                assert(post[i as int].x == updated.min_x);
            } else {
                let w = choose|k: int| 0 <= k < pre.len() && (#[trigger] pre[k]).x == b.min_x;
                assert(post[w].x == updated.min_x);
            }
            if c.y < b.min_y {
                assert(post[i as int].y == updated.min_y);
            } else {
                let w = choose|k: int| 0 <= k < pre.len() && (#[trigger] pre[k]).y == b.min_y;
                assert(post[w].y == updated.min_y);
            }
            if c.x > b.max_x {
                assert(post[i as int].x == updated.max_x);
            } else {
                let w = choose|k: int| 0 <= k < pre.len() && (#[trigger] pre[k]).x == b.max_x;
                assert(post[w].x == updated.max_x);
            }
            if c.y > b.max_y {
                assert(post[i as int].y == updated.max_y);
            } else {
                let w = choose|k: int| 0 <= k < pre.len() && (#[trigger] pre[k]).y == b.max_y;
                assert(post[w].y == updated.max_y);
            }
        }
        b = updated;
        i = i + 1;
    }
    proof {
        assert(cs@.take(cs@.len() as int) =~= cs@);
    }
    b
}

/// One polygon: an outer ring and zero or more hole rings. Rings are
/// closed implicitly: the last vertex connects back to the first.
#[derive(Clone, Debug, PartialEq)]
pub struct Polygon {
    pub outer: Vec<Coord>,
    pub holes: Vec<Vec<Coord>>,
}

/// Mathematical model of one polygon.
#[verifier::ext_equal]
pub struct PolyModel {
    pub outer: Seq<Coord>,
    pub holes: Seq<Seq<Coord>>,
}

impl View for Polygon {
    type V = PolyModel;

    open spec fn view(&self) -> PolyModel {
        PolyModel {
            outer: self.outer@,
            holes: self.holes@.map_values(|h: Vec<Coord>| h@),
        }
    }
}

/// A multipolygon: zero or more polygons.
#[derive(Clone, Debug, PartialEq)]
pub struct MultiPolygon {
    pub polys: Vec<Polygon>,
}

impl View for MultiPolygon {
    type V = Seq<PolyModel>;

    open spec fn view(&self) -> Seq<PolyModel> {
        self.polys@.map_values(|p: Polygon| p@)
    }
}

/// All coordinates of a list of rings, concatenated.
pub open spec fn rings_coords(rs: Seq<Seq<Coord>>) -> Seq<Coord>
    decreases rs.len(),
{
    if rs.len() == 0 {
        Seq::empty()
    } else {
        rings_coords(rs.drop_last()) + rs.last()
    }
}

/// All coordinates of one polygon: outer ring first, then the holes.
pub open spec fn poly_coords(pm: PolyModel) -> Seq<Coord> {
    pm.outer + rings_coords(pm.holes)
}

/// All coordinates of a multipolygon, in order.
pub open spec fn polys_coords(mm: Seq<PolyModel>) -> Seq<Coord>
    decreases mm.len(),
{
    if mm.len() == 0 {
        Seq::empty()
    } else {
        polys_coords(mm.drop_last()) + poly_coords(mm.last())
    }
}

/// Every ring of the polygon holds only valid coordinates.
pub open spec fn poly_valid(pm: PolyModel) -> bool {
    &&& valid_coords(pm.outer)
    &&& forall|j: int| 0 <= j < pm.holes.len() ==> valid_coords(#[trigger] pm.holes[j])
}

/// Every ring of the multipolygon holds only valid coordinates.
pub open spec fn mp_valid(mm: Seq<PolyModel>) -> bool {
    forall|i: int| 0 <= i < mm.len() ==> poly_valid(#[trigger] mm[i])
}

proof fn lemma_rings_coords_valid(rs: Seq<Seq<Coord>>)
    requires
        forall|j: int| 0 <= j < rs.len() ==> valid_coords(#[trigger] rs[j]),
    ensures
        valid_coords(rings_coords(rs)),
    decreases rs.len(),
{
    if rs.len() > 0 {
        lemma_rings_coords_valid(rs.drop_last());
    }
}

/// Flattening a valid multipolygon yields valid coordinates.
pub proof fn lemma_polys_coords_valid(mm: Seq<PolyModel>)
    requires
        mp_valid(mm),
    ensures
        valid_coords(polys_coords(mm)),
    decreases mm.len(),
{
    if mm.len() > 0 {
        lemma_polys_coords_valid(mm.drop_last());
        lemma_rings_coords_valid(mm.last().holes);
    }
}

/// Copies the coordinates of every ring of `mp` into one list, in the
/// order of `polys_coords`.
#[verifier::loop_isolation(false)]
pub fn all_coords(mp: &MultiPolygon) -> (v: Vec<Coord>)
    ensures
        v@ == polys_coords(mp@),
{
    let mut v: Vec<Coord> = Vec::new();
    let mut i: usize = 0;
    while i < mp.polys.len()
        invariant
            0 <= i <= mp.polys@.len(),
            v@ == polys_coords(mp@.take(i as int)),
        decreases mp.polys@.len() - i,
    {
        let ghost pre = v@;
        let poly = &mp.polys[i];
        v.extend_from_slice(poly.outer.as_slice());
        let mut j: usize = 0;
        while j < poly.holes.len()
            invariant
                0 <= j <= poly.holes@.len(),
                v@ == pre + poly@.outer + rings_coords(poly@.holes.take(j as int)),
            decreases poly.holes@.len() - j,
        {
            proof {
                let hs = poly@.holes;
                assert(hs.take(j + 1 as int).drop_last() =~= hs.take(j as int));
                assert(hs.take(j + 1 as int).last() == hs[j as int]);
            }
            v.extend_from_slice(poly.holes[j].as_slice());
            j = j + 1;
        }
        proof {
            let mm = mp@;
            assert(poly@.holes.take(poly@.holes.len() as int) =~= poly@.holes);
            assert(mm.take(i + 1 as int).drop_last() =~= mm.take(i as int));
            assert(mm.take(i + 1 as int).last() == mm[i as int]);
            assert(v@ =~= polys_coords(mm.take(i as int)) + poly_coords(mm[i as int]));
        }
        i = i + 1;
    }
    proof {
        assert(mp@.take(mp@.len() as int) =~= mp@);
    }
    v
}

/// The edge from `a` to `b` crosses the horizontal ray going right from
/// `p`. The comparison multiplies both sides of the ray/edge
/// intersection inequality by the edge's y-extent, keeping the
/// arithmetic exact.
pub open spec fn edge_crosses(a: Coord, b: Coord, p: Coord) -> bool {
    let ax = a.x as int;
    let ay = a.y as int;
    let bx = b.x as int;
    let by = b.y as int;
    let px = p.x as int;
    let py = p.y as int;
    ((ay > py) != (by > py)) && (if by > ay {
        (px - ax) * (by - ay) < (bx - ax) * (py - ay)
    } else {
        (px - ax) * (by - ay) > (bx - ax) * (py - ay)
    })
}

fn edge_crosses_exec(a: Coord, b: Coord, p: Coord) -> (r: bool)
    requires
        a.valid(),
        b.valid(),
        p.valid(),
    ensures
        r == edge_crosses(a, b, p),
{
    if (a.y > p.y) != (b.y > p.y) {
        let dx1: i128 = p.x as i128 - a.x as i128;
        let dy1: i128 = b.y as i128 - a.y as i128;
        let dx2: i128 = b.x as i128 - a.x as i128;
        let dy2: i128 = p.y as i128 - a.y as i128;
        proof {
            assert(dx1 * dy1 <= 3_600_000_000 * 3_600_000_000 && dx1 * dy1 >= -(3_600_000_000
                * 3_600_000_000)) by (nonlinear_arith)
                requires
                    -3_600_000_000 <= dx1 <= 3_600_000_000,
                    -3_600_000_000 <= dy1 <= 3_600_000_000,
            ;
            assert(dx2 * dy2 <= 3_600_000_000 * 3_600_000_000 && dx2 * dy2 >= -(3_600_000_000
                * 3_600_000_000)) by (nonlinear_arith)
                requires
                    -3_600_000_000 <= dx2 <= 3_600_000_000,
                    -3_600_000_000 <= dy2 <= 3_600_000_000,
            ;
        }
        let lhs: i128 = dx1 * dy1;
        let rhs: i128 = dx2 * dy2;
        if b.y > a.y {
            lhs < rhs
        } else {
            lhs > rhs
        }
    } else {
        false
    }
}

/// The second endpoint of edge `i` of a ring: the next vertex, or the
/// first vertex for the closing edge.
pub open spec fn ring_edge_end(r: Seq<Coord>, i: int) -> Coord {
    if i + 1 == r.len() {
        r[0]
    } else {
        r[i + 1]
    }
}

/// Parity of ray crossings over the first `k` edges of the ring.
pub open spec fn crossings_parity(r: Seq<Coord>, p: Coord, k: int) -> bool
    decreases k,
{
    if k <= 0 {
        false
    } else {
        crossings_parity(r, p, k - 1) != edge_crosses(r[k - 1], ring_edge_end(r, k - 1), p)
    }
}

/// Even-odd containment: the point is inside the ring when the ray going
/// right from it crosses an odd number of edges.
pub open spec fn point_in_ring(r: Seq<Coord>, p: Coord) -> bool {
    crossings_parity(r, p, r.len() as int)
}

/// Even-odd ray-casting test against one ring.
#[verifier::loop_isolation(false)]
pub fn ring_contains(ring: &Vec<Coord>, p: Coord) -> (r: bool)
    requires
        valid_coords(ring@),
        p.valid(),
    ensures
        r == point_in_ring(ring@, p),
{
    let n = ring.len();
    let mut inside = false;
    let mut i: usize = 0;
    while i < n
        invariant
            0 <= i <= n,
            n == ring@.len(),
            valid_coords(ring@),
            p.valid(),
            inside == crossings_parity(ring@, p, i as int),
        decreases n - i,
    {
        let a = ring[i];
        let b = if i + 1 == n {
            ring[0]
        } else {
            ring[i + 1]
        };
        if edge_crosses_exec(a, b, p) {
            inside = !inside;
        }
        i = i + 1;
    }
    inside
}

/// The point is inside the polygon: inside the outer ring and outside
/// every hole.
pub open spec fn point_in_polygon(pm: PolyModel, p: Coord) -> bool {
    point_in_ring(pm.outer, p) && forall|j: int|
        0 <= j < pm.holes.len() ==> !point_in_ring(#[trigger] pm.holes[j], p)
}

/// The point is inside some polygon of the multipolygon.
pub open spec fn point_in_multipolygon(mm: Seq<PolyModel>, p: Coord) -> bool {
    exists|i: int| 0 <= i < mm.len() && point_in_polygon(#[trigger] mm[i], p)
}

#[verifier::loop_isolation(false)]
fn polygon_contains(poly: &Polygon, p: Coord) -> (r: bool)
    requires
        poly_valid(poly@),
        p.valid(),
    ensures
        r == point_in_polygon(poly@, p),
{
    proof {
        assert(poly@.outer == poly.outer@);
    }
    if !ring_contains(&poly.outer, p) {
        return false;
    }
    let mut j: usize = 0;
    while j < poly.holes.len()
        invariant
            0 <= j <= poly.holes@.len(),
            poly_valid(poly@),
            p.valid(),
            point_in_ring(poly@.outer, p),
            forall|k: int| 0 <= k < j ==> !point_in_ring(#[trigger] poly@.holes[k], p),
        decreases poly.holes@.len() - j,
    {
        proof {
            assert(poly@.holes[j as int] == poly.holes@[j as int]@);
        }
        if ring_contains(&poly.holes[j], p) {
            return false;
        }
        j = j + 1;
    }
    true
}

impl MultiPolygon {
    /// Runtime check matching `mp_valid`.
    #[verifier::loop_isolation(false)]
    pub fn is_valid(&self) -> (r: bool)
        ensures
            r == mp_valid(self@),
    {
        let mut i: usize = 0;
        while i < self.polys.len()
            invariant
                0 <= i <= self.polys@.len(),
                forall|k: int| 0 <= k < i ==> poly_valid(#[trigger] self@[k]),
            decreases self.polys@.len() - i,
        {
            let poly = &self.polys[i];
            let mut j: usize = 0;
            while j < poly.outer.len()
                invariant
                    0 <= j <= poly.outer@.len(),
                    forall|k: int| 0 <= k < j ==> (#[trigger] poly.outer@[k]).valid(),
                decreases poly.outer@.len() - j,
            {
                if !poly.outer[j].is_valid() {
                    proof {
                        assert(self@[i as int] == self.polys@[i as int]@);
                        assert(!(self@[i as int].outer[j as int]).valid());
                        assert(!poly_valid(self@[i as int]));
                    }
                    return false;
                }
                j = j + 1;
            }
            let mut h: usize = 0;
            while h < poly.holes.len()
                invariant
                    0 <= h <= poly.holes@.len(),
                    valid_coords(poly@.outer),
                    forall|k: int| 0 <= k < h ==> valid_coords(#[trigger] poly@.holes[k]),
                decreases poly.holes@.len() - h,
            {
                let hole = &poly.holes[h];
                let mut j2: usize = 0;
                while j2 < hole.len()
                    invariant
                        0 <= j2 <= hole@.len(),
                        forall|k: int| 0 <= k < j2 ==> (#[trigger] hole@[k]).valid(),
                    decreases hole@.len() - j2,
                {
                    if !hole[j2].is_valid() {
                        proof {
                            assert(self@[i as int] == self.polys@[i as int]@);
                            assert(self@[i as int].holes[h as int] == hole@);
                            assert(!(self@[i as int].holes[h as int][j2 as int]).valid());
                            assert(!valid_coords(self@[i as int].holes[h as int]));
                            assert(!poly_valid(self@[i as int]));
                        }
                        return false;
                    }
                    j2 = j2 + 1;
                }
                proof {
                    assert(poly@.holes[h as int] == hole@);
                }
                h = h + 1;
            }
            proof {
                assert(poly@.holes.take(poly@.holes.len() as int) =~= poly@.holes);
                assert(self@[i as int] == self.polys@[i as int]@);
                assert(poly_valid(self@[i as int]));
            }
            i = i + 1;
        }
        true
    }

    /// Exact even-odd containment test against every polygon.
    pub fn contains(&self, p: Coord) -> (r: bool)
        requires
            mp_valid(self@),
            p.valid(),
        ensures
            r == point_in_multipolygon(self@, p),
    {
        let mut i: usize = 0;
        while i < self.polys.len()
            invariant
                0 <= i <= self.polys@.len(),
                mp_valid(self@),
                p.valid(),
                forall|k: int| 0 <= k < i ==> !point_in_polygon(#[trigger] self@[k], p),
            decreases self.polys@.len() - i,
        {
            proof {
                assert(self@[i as int] == self.polys@[i as int]@);
            }
            if polygon_contains(&self.polys[i], p) {
                return true;
            }
            i = i + 1;
        }
        false
    }

    /// Total number of coordinates, capped at usize::MAX is not needed:
    /// the flattened list is materialized, so its length fits.
    pub fn coord_count(&self) -> (n: usize)
        ensures
            n == polys_coords(self@).len(),
    {
        let flat = all_coords(self);
        flat.len()
    }
}

} // verus!
