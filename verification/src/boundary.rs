//! Administrative boundaries and the admin-level selection rule.
//!
//! A boundary couples a name and an OSM admin level with a multipolygon
//! geometry, its exact bounding rectangle and the rectangle's area. The
//! name is kept as UTF-8 bytes; conversion from and to `String` happens
//! at the crate's edge.

use crate::geom::{
    is_bbox_of, mp_valid, point_in_multipolygon, polys_coords, BBox, Coord,
    MultiPolygon, PolyModel,
};
use vstd::prelude::*;

verus! {

/// One administrative region.
#[derive(Clone, Debug, PartialEq)]
pub struct Boundary {
    pub name: Vec<u8>,
    pub admin_level: u8,
    pub mp: MultiPolygon,
    pub bbox: BBox,
    pub area: i64,
}

/// Mathematical model of a boundary.
#[verifier::ext_equal]
pub struct BoundaryModel {
    pub name: Seq<u8>,
    pub admin_level: u8,
    pub polys: Seq<PolyModel>,
    pub bbox: BBox,
    pub area: i64,
}

impl View for Boundary {
    type V = BoundaryModel;

    open spec fn view(&self) -> BoundaryModel {
        BoundaryModel {
            name: self.name@,
            admin_level: self.admin_level,
            polys: self.mp@,
            bbox: self.bbox,
            area: self.area,
        }
    }
}

/// Well-formedness of a boundary model: a non-empty name without a
/// newline byte (so bulk records stay one line each), valid
/// coordinates, a non-empty geometry, the rectangle equal to the
/// geometry's exact extents and the area equal to the rectangle's area.
pub open spec fn model_wf(m: BoundaryModel) -> bool {
    &&& m.name.len() > 0
    &&& !m.name.contains(10u8)
    &&& mp_valid(m.polys)
    &&& is_bbox_of(m.bbox, polys_coords(m.polys))
    &&& m.area == (m.bbox.max_x - m.bbox.min_x) * (m.bbox.max_y - m.bbox.min_y)
}

impl Boundary {
    /// Well-formedness of the boundary's model.
    pub closed spec fn wf(self) -> bool {
        model_wf(self@)
    }

    /// The point passes the exact polygon test of this boundary.
    pub open spec fn spec_contains(self, p: Coord) -> bool {
        point_in_multipolygon(self.mp@, p)
    }

    /// Builds a boundary from a non-empty geometry, computing the exact
    /// bounding rectangle and its area.
    pub fn new(mp: MultiPolygon, name: Vec<u8>, admin_level: u8) -> (b: Boundary)
        requires
            mp_valid(mp@),
            polys_coords(mp@).len() > 0,
            name@.len() > 0,
            !name@.contains(10u8),
        ensures
            b.wf(),
            b.mp == mp,
            b.name == name,
            b.admin_level == admin_level,
            is_bbox_of(b.bbox, polys_coords(mp@)),
    {
        let coords = crate::geom::all_coords(&mp);
        let bbox = crate::geom::compute_bbox(&coords);
        proof {
            crate::geom::lemma_polys_coords_valid(mp@);
            crate::geom::lemma_bbox_of_valid_coords(bbox, coords@);
            assert((bbox.max_x - bbox.min_x) * (bbox.max_y - bbox.min_y) <= 3_600_000_000
                * 1_800_000_000 && (bbox.max_x - bbox.min_x) * (bbox.max_y - bbox.min_y)
                >= 0) by (nonlinear_arith)
                requires
                    0 <= bbox.max_x - bbox.min_x <= 3_600_000_000,
                    0 <= bbox.max_y - bbox.min_y <= 1_800_000_000,
            ;
        }
        let area = (bbox.max_x - bbox.min_x) * (bbox.max_y - bbox.min_y);
        Boundary { name, admin_level, mp, bbox, area }
    }

    /// Exact even-odd polygon test of the query point against this
    /// boundary's geometry.
    pub fn contains(&self, p: Coord) -> (r: bool)
        requires
            self.wf(),
            p.valid(),
        ensures
            r == self.spec_contains(p),
    {
        self.mp.contains(p)
    }
}

/// A boundary is well formed exactly when its model is.
pub proof fn lemma_wf_is_model_wf(b: Boundary)
    ensures
        b.wf() <==> model_wf(b@),
{
}

/// A boundary's rectangle is valid when the boundary is well formed.
pub proof fn lemma_wf_bbox_valid(b: Boundary)
    requires
        b.wf(),
    ensures
        b.bbox.valid(),
{
    crate::geom::lemma_polys_coords_valid(b.mp@);
    crate::geom::lemma_bbox_of_valid_coords(b.bbox, crate::geom::polys_coords(b.mp@));
}

/// The models of a boundary list, elementwise.
pub open spec fn models(bs: Seq<Boundary>) -> Seq<BoundaryModel> {
    bs.map_values(|b: Boundary| b@)
}

/// The byte is an ASCII decimal digit.
pub open spec fn is_digit(b: u8) -> bool {
    48 <= b <= 57
}

/// Numeric value of a digit sequence, most significant digit first.
pub open spec fn digits_val(s: Seq<u8>) -> int
    decreases s.len(),
{
    if s.len() == 0 {
        0
    } else {
        digits_val(s.drop_last()) * 10 + (s.last() - 48)
    }
}

/// The sequence is one or more ASCII digits.
pub open spec fn all_digits(s: Seq<u8>) -> bool {
    forall|i: int| 0 <= i < s.len() ==> is_digit(#[trigger] s[i])
}

/// The digits of an unsigned decimal literal: an optional leading plus
/// sign followed by at least one digit.
pub open spec fn unsigned_digits(s: Seq<u8>) -> Seq<u8> {
    if s.len() > 0 && s[0] == 43 {
        s.skip(1)
    } else {
        s
    }
}

/// The byte string parses as a u8: an unsigned decimal literal whose
/// value fits in eight bits.
pub open spec fn parses_as_u8(s: Seq<u8>) -> bool {
    let d = unsigned_digits(s);
    d.len() > 0 && all_digits(d) && digits_val(d) <= 255
}

/// Value of a byte string that parses as a u8.
pub open spec fn u8_value(s: Seq<u8>) -> int {
    digits_val(unsigned_digits(s))
}

pub proof fn lemma_digits_val_nonneg(s: Seq<u8>)
    requires
        all_digits(s),
    ensures
        digits_val(s) >= 0,
    decreases s.len(),
{
    if s.len() > 0 {
        assert(all_digits(s.drop_last()));
        lemma_digits_val_nonneg(s.drop_last());
    }
}

/// With every byte a digit, the value of a prefix never exceeds the
/// value of the whole sequence.
pub proof fn lemma_digits_val_prefix(s: Seq<u8>, k: int)
    requires
        all_digits(s),
        0 <= k <= s.len(),
    ensures
        digits_val(s.take(k)) <= digits_val(s),
    decreases s.len() - k,
{
    if k < s.len() {
        lemma_digits_val_prefix(s, k + 1);
        let pre = s.take(k);
        let post = s.take(k + 1);
        assert(pre =~= post.drop_last());
        assert(all_digits(pre));
        lemma_digits_val_nonneg(pre);
        assert(digits_val(post) == digits_val(pre) * 10 + (post.last() - 48));
    } else {
        assert(s.take(k) =~= s);
    }
}

/// Parses an unsigned decimal byte string into a `u8`, as `str::parse`
/// would: an optional plus sign, then one or more digits, value at most
/// 255. Returns `None` on any other input.
#[verifier::loop_isolation(false)]
pub fn parse_u8(s: &Vec<u8>) -> (r: Option<u8>)
    ensures
        match r {
            Some(v) => parses_as_u8(s@) && v == u8_value(s@),
            None => !parses_as_u8(s@),
        },
{
    let start: usize = if s.len() > 0 && s[0] == 43 {
        1
    } else {
        0
    };
    let ghost d = unsigned_digits(s@);
    proof {
        assert(d =~= s@.skip(start as int));
    }
    if s.len() == start {
        return None;
    }
    let mut acc: u32 = 0;
    let mut i: usize = start;
    while i < s.len()
        invariant
            start <= i <= s@.len(),
            acc == digits_val(d.take(i - start)),
            acc <= 255,
            all_digits(d.take(i - start)),
        decreases s@.len() - i,
    {
        let b = s[i];
        if b < 48 || b > 57 {
            proof {
                assert(d[i - start] == s@[i as int]);
                assert(!is_digit(d[i - start]));
            }
            return None;
        }
        proof {
            assert(d.take(i - start + 1).drop_last() =~= d.take(i - start));
            assert(d.take(i - start + 1).last() == s@[i as int]);
        }
        acc = acc * 10 + (b - 48) as u32;
        if acc > 255 {
            proof {
                assert(all_digits(d.take(i - start + 1)));
                if parses_as_u8(s@) {
                    lemma_digits_val_prefix(d, i - start + 1);
                }
            }
            return None;
        }
        i = i + 1;
    }
    proof {
        assert(d.take(s@.len() - start) =~= d);
    }
    Some(acc as u8)
}

/// The level list contains the given level.
#[verifier::loop_isolation(false)]
pub fn level_selected(levels: &Vec<u8>, level: u8) -> (r: bool)
    ensures
        r == levels@.contains(level),
{
    let mut i: usize = 0;
    while i < levels.len()
        invariant
            0 <= i <= levels@.len(),
            forall|k: int| 0 <= k < i ==> levels@[k] != level,
        decreases levels@.len() - i,
    {
        if levels[i] == level {
            return true;
        }
        i = i + 1;
    }
    false
}

/// The admin-level selection rule of the build phase: the `admin_level`
/// tag must parse as a u8 and its value must be one of the configured
/// levels. Returns the parsed level when selected.
pub fn check_admin_level(tag: &Vec<u8>, levels: &Vec<u8>) -> (r: Option<u8>)
    ensures
        match r {
            Some(l) => parses_as_u8(tag@) && l == u8_value(tag@) && levels@.contains(l),
            None => !(parses_as_u8(tag@) && levels@.contains(u8_value(tag@) as u8)),
        },
{
    match parse_u8(tag) {
        Some(l) => {
            if level_selected(levels, l) {
                Some(l)
            } else {
                None
            }
        },
        None => None,
    }
}

/// The admin levels selected when none are configured.
pub fn default_admin_levels() -> (v: Vec<u8>)
    ensures
        v@ =~= seq![4u8, 6u8, 8u8, 9u8, 10u8],
{
    let mut v: Vec<u8> = Vec::new();
    v.push(4);
    v.push(6);
    v.push(8);
    v.push(9);
    v.push(10);
    v
}

} // verus!
