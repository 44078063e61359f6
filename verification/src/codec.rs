//! The persisted-index codec.
//!
//! A boundary list is serialized as a sequence of 64-bit words, written
//! out in little-endian bytes: a version tag, the number of boundaries,
//! and for each boundary its name (length-prefixed bytes, one per
//! word), its admin level, and its geometry (length-prefixed rings of
//! coordinate pairs, each coordinate biased into an unsigned word).
//! The bounding rectangle and area are not stored: they are recomputed
//! on load, and well-formedness pins them down uniquely, so decoding an
//! encoded index restores the boundary models exactly.

use crate::boundary::{models, BoundaryModel};
use crate::geom::{
    mp_valid, poly_valid, polys_coords, valid_coords, Coord, PolyModel, MAX_LAT, MAX_LNG,
};
use vstd::bytes::{spec_u64_from_le_bytes, spec_u64_to_le_bytes};
use vstd::prelude::*;

verus! {

/// Version tag at the front of every persisted index.
pub const INDEX_TAG: u64 = 0x3149_5452;

/// The serialized fields of one boundary: everything but the derived
/// bounding rectangle and area.
#[verifier::ext_equal]
pub struct BoundaryData {
    pub name: Seq<u8>,
    pub admin_level: u8,
    pub polys: Seq<PolyModel>,
}

/// The serialized fields of a boundary model.
pub open spec fn data_of(m: BoundaryModel) -> BoundaryData {
    BoundaryData { name: m.name, admin_level: m.admin_level, polys: m.polys }
}

/// The serialized fields of each model in a list.
pub open spec fn datas(ms: Seq<BoundaryModel>) -> Seq<BoundaryData> {
    ms.map_values(|m: BoundaryModel| data_of(m))
}

/// What the decoder accepts: a non-empty name without a newline byte,
/// valid coordinates and a non-empty geometry.
pub open spec fn data_valid(d: BoundaryData) -> bool {
    &&& d.name.len() > 0
    &&& !d.name.contains(10u8)
    &&& mp_valid(d.polys)
    &&& polys_coords(d.polys).len() > 0
}

/// Every count of the polygon fits in one word.
pub open spec fn poly_bounded(pm: PolyModel) -> bool {
    &&& pm.outer.len() <= u64::MAX
    &&& pm.holes.len() <= u64::MAX
    &&& forall|j: int| 0 <= j < pm.holes.len() ==> (#[trigger] pm.holes[j]).len() <= u64::MAX
}

/// Every count of the boundary fits in one word.
pub open spec fn data_bounded(d: BoundaryData) -> bool {
    &&& d.name.len() <= u64::MAX
    &&& d.polys.len() <= u64::MAX
    &&& forall|i: int| 0 <= i < d.polys.len() ==> poly_bounded(#[trigger] d.polys[i])
}

/// What the round trip asks of a boundary list: acceptable to the
/// decoder, with every count fitting in one word.
pub open spec fn all_valid_bounded(ds: Seq<BoundaryData>) -> bool {
    &&& ds.len() <= u64::MAX
    &&& forall|i: int|
        0 <= i < ds.len() ==> data_valid(#[trigger] ds[i]) && data_bounded(ds[i])
}

// ---------------------------------------------------------------- encoders
pub open spec fn enc_coord(c: Coord) -> Seq<u64> {
    seq![(c.x + MAX_LNG) as u64, (c.y + MAX_LAT) as u64]
}

pub open spec fn enc_coords(cs: Seq<Coord>) -> Seq<u64>
    decreases cs.len(),
{
    if cs.len() == 0 {
        Seq::empty()
    } else {
        enc_coord(cs.first()) + enc_coords(cs.drop_first())
    }
}

pub open spec fn enc_ring(r: Seq<Coord>) -> Seq<u64> {
    seq![r.len() as u64] + enc_coords(r)
}

pub open spec fn enc_rings(rs: Seq<Seq<Coord>>) -> Seq<u64>
    decreases rs.len(),
{
    if rs.len() == 0 {
        Seq::empty()
    } else {
        enc_ring(rs.first()) + enc_rings(rs.drop_first())
    }
}

pub open spec fn enc_poly(pm: PolyModel) -> Seq<u64> {
    enc_ring(pm.outer) + seq![pm.holes.len() as u64] + enc_rings(pm.holes)
}

pub open spec fn enc_polys(ps: Seq<PolyModel>) -> Seq<u64>
    decreases ps.len(),
{
    if ps.len() == 0 {
        Seq::empty()
    } else {
        enc_poly(ps.first()) + enc_polys(ps.drop_first())
    }
}

pub open spec fn enc_name_bytes(nb: Seq<u8>) -> Seq<u64> {
    nb.map_values(|b: u8| b as u64)
}

pub open spec fn enc_data(d: BoundaryData) -> Seq<u64> {
    seq![d.name.len() as u64] + enc_name_bytes(d.name) + seq![
        d.admin_level as u64,
        d.polys.len() as u64,
    ] + enc_polys(d.polys)
}

pub open spec fn enc_datas(ds: Seq<BoundaryData>) -> Seq<u64>
    decreases ds.len(),
{
    if ds.len() == 0 {
        Seq::empty()
    } else {
        enc_data(ds.first()) + enc_datas(ds.drop_first())
    }
}

pub open spec fn enc_index(ds: Seq<BoundaryData>) -> Seq<u64> {
    seq![INDEX_TAG, ds.len() as u64] + enc_datas(ds)
}

pub open spec fn spec_words_to_bytes(ws: Seq<u64>) -> Seq<u8>
    decreases ws.len(),
{
    if ws.len() == 0 {
        Seq::empty()
    } else {
        spec_u64_to_le_bytes(ws.first()) + spec_words_to_bytes(ws.drop_first())
    }
}

/// The byte image of a boundary list.
pub open spec fn spec_encode(ds: Seq<BoundaryData>) -> Seq<u8> {
    spec_words_to_bytes(enc_index(ds))
}

// ---------------------------------------------------------------- decoders
pub open spec fn dec_coord(ws: Seq<u64>) -> Option<(Coord, Seq<u64>)> {
    if ws.len() >= 2 && ws[0] <= 2 * MAX_LNG && ws[1] <= 2 * MAX_LAT {
        Some(
            (
                Coord { x: (ws[0] - MAX_LNG) as i64, y: (ws[1] - MAX_LAT) as i64 },
                ws.skip(2),
            ),
        )
    } else {
        None
    }
}

pub open spec fn dec_coords(ws: Seq<u64>, n: nat) -> Option<(Seq<Coord>, Seq<u64>)>
    decreases n,
{
    if n == 0 {
        Some((Seq::empty(), ws))
    } else {
        match dec_coord(ws) {
            Some((c, ws1)) => match dec_coords(ws1, (n - 1) as nat) {
                Some((cs, rest)) => Some((seq![c] + cs, rest)),
                None => None,
            },
            None => None,
        }
    }
}

pub open spec fn dec_ring(ws: Seq<u64>) -> Option<(Seq<Coord>, Seq<u64>)> {
    if ws.len() >= 1 {
        dec_coords(ws.skip(1), ws[0] as nat)
    } else {
        None
    }
}

pub open spec fn dec_rings(ws: Seq<u64>, n: nat) -> Option<(Seq<Seq<Coord>>, Seq<u64>)>
    decreases n,
{
    if n == 0 {
        Some((Seq::empty(), ws))
    } else {
        match dec_ring(ws) {
            Some((r, ws1)) => match dec_rings(ws1, (n - 1) as nat) {
                Some((rs, rest)) => Some((seq![r] + rs, rest)),
                None => None,
            },
            None => None,
        }
    }
}

pub open spec fn dec_poly(ws: Seq<u64>) -> Option<(PolyModel, Seq<u64>)> {
    match dec_ring(ws) {
        Some((outer, ws1)) => if ws1.len() >= 1 {
            match dec_rings(ws1.skip(1), ws1[0] as nat) {
                Some((holes, rest)) => Some((PolyModel { outer, holes }, rest)),
                None => None,
            }
        } else {
            None
        },
        None => None,
    }
}

pub open spec fn dec_polys(ws: Seq<u64>, n: nat) -> Option<(Seq<PolyModel>, Seq<u64>)>
    decreases n,
{
    if n == 0 {
        Some((Seq::empty(), ws))
    } else {
        match dec_poly(ws) {
            Some((pm, ws1)) => match dec_polys(ws1, (n - 1) as nat) {
                Some((ps, rest)) => Some((seq![pm] + ps, rest)),
                None => None,
            },
            None => None,
        }
    }
}

pub open spec fn dec_name_bytes(ws: Seq<u64>, n: nat) -> Option<(Seq<u8>, Seq<u64>)>
    decreases n,
{
    if n == 0 {
        Some((Seq::empty(), ws))
    } else if ws.len() >= 1 && ws[0] <= 255 && ws[0] != 10 {
        match dec_name_bytes(ws.skip(1), (n - 1) as nat) {
            Some((bs, rest)) => Some((seq![ws[0] as u8] + bs, rest)),
            None => None,
        }
    } else {
        None
    }
}

pub open spec fn dec_data(ws: Seq<u64>) -> Option<(BoundaryData, Seq<u64>)> {
    if ws.len() >= 1 {
        match dec_name_bytes(ws.skip(1), ws[0] as nat) {
            Some((name, ws1)) => if name.len() > 0 && ws1.len() >= 2 && ws1[0] <= 255 {
                match dec_polys(ws1.skip(2), ws1[1] as nat) {
                    Some((polys, rest)) => if polys_coords(polys).len() > 0 {
                        Some((BoundaryData { name, admin_level: ws1[0] as u8, polys }, rest))
                    } else {
                        None
                    },
                    None => None,
                }
            } else {
                None
            },
            None => None,
        }
    } else {
        None
    }
}

pub open spec fn dec_datas(ws: Seq<u64>, n: nat) -> Option<(Seq<BoundaryData>, Seq<u64>)>
    decreases n,
{
    if n == 0 {
        Some((Seq::empty(), ws))
    } else {
        match dec_data(ws) {
            Some((d, ws1)) => match dec_datas(ws1, (n - 1) as nat) {
                Some((ds, rest)) => Some((seq![d] + ds, rest)),
                None => None,
            },
            None => None,
        }
    }
}

pub open spec fn dec_index(ws: Seq<u64>) -> Option<Seq<BoundaryData>> {
    if ws.len() >= 2 && ws[0] == INDEX_TAG {
        match dec_datas(ws.skip(2), ws[1] as nat) {
            Some((ds, rest)) => if rest.len() == 0 {
                Some(ds)
            } else {
                None
            },
            None => None,
        }
    } else {
        None
    }
}

pub open spec fn spec_bytes_to_words(bs: Seq<u8>) -> Option<Seq<u64>>
    decreases bs.len(),
{
    if bs.len() == 0 {
        Some(Seq::empty())
    } else if bs.len() >= 8 {
        match spec_bytes_to_words(bs.skip(8)) {
            Some(ws) => Some(seq![spec_u64_from_le_bytes(bs.take(8))] + ws),
            None => None,
        }
    } else {
        None
    }
}

/// The boundary list a byte image decodes to, if any.
pub open spec fn spec_decode(bytes: Seq<u8>) -> Option<Seq<BoundaryData>> {
    match spec_bytes_to_words(bytes) {
        Some(ws) => dec_index(ws),
        None => None,
    }
}

// ----------------------------------------------------- decoded values valid
/// Decoded coordinates are valid by construction.
pub proof fn lemma_dec_coords_valid(ws: Seq<u64>, n: nat)
    ensures
        match dec_coords(ws, n) {
            Some((cs, _)) => valid_coords(cs) && cs.len() == n,
            None => true,
        },
    decreases n,
{
    if n > 0 {
        if let Some((c, ws1)) = dec_coord(ws) {
            lemma_dec_coords_valid(ws1, (n - 1) as nat);
        }
    }
}

pub proof fn lemma_dec_rings_valid(ws: Seq<u64>, n: nat)
    ensures
        match dec_rings(ws, n) {
            Some((rs, _)) => (forall|j: int|
                0 <= j < rs.len() ==> valid_coords(#[trigger] rs[j])) && rs.len() == n,
            None => true,
        },
    decreases n,
{
    if n > 0 {
        if let Some((r, ws1)) = dec_ring(ws) {
            if ws.len() >= 1 {
                lemma_dec_coords_valid(ws.skip(1), ws[0] as nat);
            }
            lemma_dec_rings_valid(ws1, (n - 1) as nat);
        }
    }
}

pub proof fn lemma_dec_polys_valid(ws: Seq<u64>, n: nat)
    ensures
        match dec_polys(ws, n) {
            Some((ps, _)) => mp_valid(ps) && ps.len() == n,
            None => true,
        },
    decreases n,
{
    if n > 0 {
        if let Some((pm, ws1)) = dec_poly(ws) {
            if let Some((outer, wsa)) = dec_ring(ws) {
                if ws.len() >= 1 {
                    lemma_dec_coords_valid(ws.skip(1), ws[0] as nat);
                }
                if wsa.len() >= 1 {
                    lemma_dec_rings_valid(wsa.skip(1), wsa[0] as nat);
                }
            }
            lemma_dec_polys_valid(ws1, (n - 1) as nat);
            assert(poly_valid(pm));
            if let Some((tail, _)) = dec_polys(ws1, (n - 1) as nat) {
                let ps = seq![pm] + tail;
                assert forall|i: int| 0 <= i < ps.len() implies poly_valid(#[trigger] ps[i]) by {
                    if i == 0 {
                        assert(ps[0] == pm);
                    } else {
                        assert(ps[i] == tail[i - 1]);
                    }
                }
            }
        }
    }
}

// --------------------------------------------------------------- round trip
pub proof fn lemma_rt_coord(c: Coord, rest: Seq<u64>)
    requires
        c.valid(),
    ensures
        dec_coord(enc_coord(c) + rest) == Some((c, rest)),
{
    let ws = enc_coord(c) + rest;
    assert(ws[0] == (c.x + MAX_LNG) as u64);
    assert(ws[1] == (c.y + MAX_LAT) as u64);
    assert(ws.skip(2) =~= rest);
}

pub proof fn lemma_rt_coords(cs: Seq<Coord>, rest: Seq<u64>)
    requires
        valid_coords(cs),
    ensures
        dec_coords(enc_coords(cs) + rest, cs.len()) == Some((cs, rest)),
    decreases cs.len(),
{
    if cs.len() == 0 {
        assert(enc_coords(cs) + rest =~= rest);
    } else {
        let c = cs.first();
        let tail = cs.drop_first();
        assert(valid_coords(tail));
        assert(enc_coords(cs) + rest =~= enc_coord(c) + (enc_coords(tail) + rest));
        lemma_rt_coord(c, enc_coords(tail) + rest);
        lemma_rt_coords(tail, rest);
        assert(seq![c] + tail =~= cs);
    }
}

pub proof fn lemma_rt_ring(r: Seq<Coord>, rest: Seq<u64>)
    requires
        valid_coords(r),
        r.len() <= u64::MAX,
    ensures
        dec_ring(enc_ring(r) + rest) == Some((r, rest)),
{
    let ws = enc_ring(r) + rest;
    assert(ws[0] == r.len() as u64);
    assert(ws.skip(1) =~= enc_coords(r) + rest);
    lemma_rt_coords(r, rest);
}

pub proof fn lemma_rt_rings(rs: Seq<Seq<Coord>>, rest: Seq<u64>)
    requires
        forall|j: int| 0 <= j < rs.len() ==> valid_coords(#[trigger] rs[j]),
        forall|j: int| 0 <= j < rs.len() ==> (#[trigger] rs[j]).len() <= u64::MAX,
    ensures
        dec_rings(enc_rings(rs) + rest, rs.len()) == Some((rs, rest)),
    decreases rs.len(),
{
    if rs.len() == 0 {
        assert(enc_rings(rs) + rest =~= rest);
    } else {
        let r = rs.first();
        let tail = rs.drop_first();
        assert(enc_rings(rs) + rest =~= enc_ring(r) + (enc_rings(tail) + rest));
        lemma_rt_ring(r, enc_rings(tail) + rest);
        lemma_rt_rings(tail, rest);
        assert(seq![r] + tail =~= rs);
    }
}

pub proof fn lemma_rt_poly(pm: PolyModel, rest: Seq<u64>)
    requires
        poly_valid(pm),
        poly_bounded(pm),
    ensures
        dec_poly(enc_poly(pm) + rest) == Some((pm, rest)),
{
    let ws = enc_poly(pm) + rest;
    let after_outer = seq![pm.holes.len() as u64] + enc_rings(pm.holes) + rest;
    assert(ws =~= enc_ring(pm.outer) + after_outer);
    lemma_rt_ring(pm.outer, after_outer);
    assert(after_outer[0] == pm.holes.len() as u64);
    assert(after_outer.skip(1) =~= enc_rings(pm.holes) + rest);
    lemma_rt_rings(pm.holes, rest);
    assert(dec_poly(ws)->Some_0.0 =~= pm);
}

pub proof fn lemma_rt_polys(ps: Seq<PolyModel>, rest: Seq<u64>)
    requires
        mp_valid(ps),
        forall|i: int| 0 <= i < ps.len() ==> poly_bounded(#[trigger] ps[i]),
    ensures
        dec_polys(enc_polys(ps) + rest, ps.len()) == Some((ps, rest)),
    decreases ps.len(),
{
    if ps.len() == 0 {
        assert(enc_polys(ps) + rest =~= rest);
    } else {
        let pm = ps.first();
        let tail = ps.drop_first();
        assert(mp_valid(tail));
        assert(enc_polys(ps) + rest =~= enc_poly(pm) + (enc_polys(tail) + rest));
        lemma_rt_poly(pm, enc_polys(tail) + rest);
        lemma_rt_polys(tail, rest);
        assert(seq![pm] + tail =~= ps);
    }
}

pub proof fn lemma_rt_name_bytes(nb: Seq<u8>, rest: Seq<u64>)
    requires
        !nb.contains(10u8),
    ensures
        dec_name_bytes(enc_name_bytes(nb) + rest, nb.len()) == Some((nb, rest)),
    decreases nb.len(),
{
    if nb.len() == 0 {
        assert(enc_name_bytes(nb) + rest =~= rest);
    } else {
        let tail = nb.drop_first();
        let ws = enc_name_bytes(nb) + rest;
        assert(ws[0] == nb[0] as u64);
        assert(nb[0] != 10) by {
            if nb[0] == 10 {
                assert(nb.contains(10u8));
            }
        }
        assert(!tail.contains(10u8)) by {
            if tail.contains(10u8) {
                let w = choose|w: int| 0 <= w < tail.len() && tail[w] == 10u8;
                assert(nb[w + 1] == 10u8);
                assert(nb.contains(10u8));
            }
        }
        assert(ws.skip(1) =~= enc_name_bytes(tail) + rest);
        lemma_rt_name_bytes(tail, rest);
        assert(seq![nb[0]] + tail =~= nb);
    }
}

pub proof fn lemma_rt_data(d: BoundaryData, rest: Seq<u64>)
    requires
        data_valid(d),
        data_bounded(d),
    ensures
        dec_data(enc_data(d) + rest) == Some((d, rest)),
{
    let ws = enc_data(d) + rest;
    let after_name = seq![d.admin_level as u64, d.polys.len() as u64] + enc_polys(d.polys) + rest;
    assert(ws[0] == d.name.len() as u64);
    assert(ws.skip(1) =~= enc_name_bytes(d.name) + after_name);
    lemma_rt_name_bytes(d.name, after_name);
    assert(after_name[0] == d.admin_level as u64);
    assert(after_name[1] == d.polys.len() as u64);
    assert(after_name.skip(2) =~= enc_polys(d.polys) + rest);
    lemma_rt_polys(d.polys, rest);
    assert(dec_data(ws)->Some_0.0 =~= d);
}

pub proof fn lemma_rt_datas(ds: Seq<BoundaryData>, rest: Seq<u64>)
    requires
        forall|i: int| 0 <= i < ds.len() ==> data_valid(#[trigger] ds[i]) && data_bounded(ds[i]),
    ensures
        dec_datas(enc_datas(ds) + rest, ds.len()) == Some((ds, rest)),
    decreases ds.len(),
{
    if ds.len() == 0 {
        assert(enc_datas(ds) + rest =~= rest);
    } else {
        let d = ds.first();
        let tail = ds.drop_first();
        assert(enc_datas(ds) + rest =~= enc_data(d) + (enc_datas(tail) + rest));
        lemma_rt_data(d, enc_datas(tail) + rest);
        lemma_rt_datas(tail, rest);
        assert(seq![d] + tail =~= ds);
    }
}

pub proof fn lemma_rt_words(ws: Seq<u64>)
    ensures
        spec_bytes_to_words(spec_words_to_bytes(ws)) == Some(ws),
    decreases ws.len(),
{
    vstd::bytes::lemma_auto_spec_u64_to_from_le_bytes();
    if ws.len() == 0 {
    } else {
        let w = ws.first();
        let tail = ws.drop_first();
        let bs = spec_words_to_bytes(ws);
        assert(bs =~= spec_u64_to_le_bytes(w) + spec_words_to_bytes(tail));
        assert(bs.len() >= 8);
        assert(bs.take(8) =~= spec_u64_to_le_bytes(w));
        assert(bs.skip(8) =~= spec_words_to_bytes(tail));
        lemma_rt_words(tail);
        assert(seq![w] + tail =~= ws);
    }
}

/// Round trip of the codec: decoding an encoded boundary list yields
/// exactly that list.
pub proof fn lemma_codec_round_trip(ds: Seq<BoundaryData>)
    requires
        all_valid_bounded(ds),
    ensures
        spec_decode(spec_encode(ds)) == Some(ds),
{
    lemma_rt_words(enc_index(ds));
    let ws = enc_index(ds);
    assert(ws[0] == INDEX_TAG);
    assert(ws[1] == ds.len() as u64);
    assert(ws.skip(2) =~= enc_datas(ds) + Seq::<u64>::empty());
    lemma_rt_datas(ds, Seq::empty());
}


// ------------------------------------------------- encoder homomorphisms
proof fn lemma_enc_coords_singleton(c: Coord)
    ensures
        enc_coords(seq![c]) == enc_coord(c),
{
    let one = seq![c];
    assert(one.first() == c);
    assert(one.drop_first() =~= Seq::<Coord>::empty());
    assert(enc_coords(one.drop_first()) =~= Seq::<u64>::empty());
    assert(enc_coords(one) =~= enc_coord(c));
}

proof fn lemma_enc_rings_singleton(r: Seq<Coord>)
    ensures
        enc_rings(seq![r]) == enc_ring(r),
{
    let one = seq![r];
    assert(one.first() == r);
    assert(one.drop_first() =~= Seq::<Seq<Coord>>::empty());
    assert(enc_rings(one.drop_first()) =~= Seq::<u64>::empty());
    assert(enc_rings(one) =~= enc_ring(r));
}

proof fn lemma_enc_polys_singleton(pm: PolyModel)
    ensures
        enc_polys(seq![pm]) == enc_poly(pm),
{
    let one = seq![pm];
    assert(one.first() == pm);
    assert(one.drop_first() =~= Seq::<PolyModel>::empty());
    assert(enc_polys(one.drop_first()) =~= Seq::<u64>::empty());
    assert(enc_polys(one) =~= enc_poly(pm));
}

proof fn lemma_enc_datas_singleton(d: BoundaryData)
    ensures
        enc_datas(seq![d]) == enc_data(d),
{
    let one = seq![d];
    assert(one.first() == d);
    assert(one.drop_first() =~= Seq::<BoundaryData>::empty());
    assert(enc_datas(one.drop_first()) =~= Seq::<u64>::empty());
    assert(enc_datas(one) =~= enc_data(d));
}

proof fn lemma_words_to_bytes_singleton(w: u64)
    ensures
        spec_words_to_bytes(seq![w]) == spec_u64_to_le_bytes(w),
{
    let one = seq![w];
    assert(one.first() == w);
    assert(one.drop_first() =~= Seq::<u64>::empty());
    assert(spec_words_to_bytes(one.drop_first()) =~= Seq::<u8>::empty());
    assert(spec_words_to_bytes(one) =~= spec_u64_to_le_bytes(w));
}

proof fn lemma_enc_coords_add(a: Seq<Coord>, b: Seq<Coord>)
    ensures
        enc_coords(a + b) == enc_coords(a) + enc_coords(b),
    decreases a.len(),
{
    if a.len() == 0 {
        assert(a + b =~= b);
        assert(enc_coords(a) + enc_coords(b) =~= enc_coords(b));
    } else {
        assert((a + b).first() == a.first());
        assert((a + b).drop_first() =~= a.drop_first() + b);
        lemma_enc_coords_add(a.drop_first(), b);
        assert(enc_coords(a + b) =~= enc_coords(a) + enc_coords(b));
    }
}

proof fn lemma_enc_rings_add(a: Seq<Seq<Coord>>, b: Seq<Seq<Coord>>)
    ensures
        enc_rings(a + b) == enc_rings(a) + enc_rings(b),
    decreases a.len(),
{
    if a.len() == 0 {
        assert(a + b =~= b);
        assert(enc_rings(a) + enc_rings(b) =~= enc_rings(b));
    } else {
        assert((a + b).first() == a.first());
        assert((a + b).drop_first() =~= a.drop_first() + b);
        lemma_enc_rings_add(a.drop_first(), b);
        assert(enc_rings(a + b) =~= enc_rings(a) + enc_rings(b));
    }
}

proof fn lemma_enc_polys_add(a: Seq<PolyModel>, b: Seq<PolyModel>)
    ensures
        enc_polys(a + b) == enc_polys(a) + enc_polys(b),
    decreases a.len(),
{
    if a.len() == 0 {
        assert(a + b =~= b);
        assert(enc_polys(a) + enc_polys(b) =~= enc_polys(b));
    } else {
        assert((a + b).first() == a.first());
        assert((a + b).drop_first() =~= a.drop_first() + b);
        lemma_enc_polys_add(a.drop_first(), b);
        assert(enc_polys(a + b) =~= enc_polys(a) + enc_polys(b));
    }
}

proof fn lemma_enc_datas_add(a: Seq<BoundaryData>, b: Seq<BoundaryData>)
    ensures
        enc_datas(a + b) == enc_datas(a) + enc_datas(b),
    decreases a.len(),
{
    if a.len() == 0 {
        assert(a + b =~= b);
        assert(enc_datas(a) + enc_datas(b) =~= enc_datas(b));
    } else {
        assert((a + b).first() == a.first());
        assert((a + b).drop_first() =~= a.drop_first() + b);
        lemma_enc_datas_add(a.drop_first(), b);
        assert(enc_datas(a + b) =~= enc_datas(a) + enc_datas(b));
    }
}

proof fn lemma_words_to_bytes_add(a: Seq<u64>, b: Seq<u64>)
    ensures
        spec_words_to_bytes(a + b) == spec_words_to_bytes(a) + spec_words_to_bytes(b),
    decreases a.len(),
{
    if a.len() == 0 {
        assert(a + b =~= b);
        assert(spec_words_to_bytes(a) + spec_words_to_bytes(b) =~= spec_words_to_bytes(b));
    } else {
        assert((a + b).first() == a.first());
        assert((a + b).drop_first() =~= a.drop_first() + b);
        lemma_words_to_bytes_add(a.drop_first(), b);
        assert(spec_words_to_bytes(a + b) =~= spec_words_to_bytes(a) + spec_words_to_bytes(b));
    }
}

// ------------------------------------------------------------ exec encoder
fn push_coord(ws: &mut Vec<u64>, c: Coord)
    requires
        c.valid(),
    ensures
        final(ws)@ == old(ws)@ + enc_coord(c),
{
    ws.push((c.x + MAX_LNG) as u64);
    ws.push((c.y + MAX_LAT) as u64);
    proof {
        assert(ws@ =~= old(ws)@ + enc_coord(c));
    }
}

#[verifier::loop_isolation(false)]
fn push_ring(ws: &mut Vec<u64>, r: &Vec<Coord>)
    requires
        valid_coords(r@),
    ensures
        final(ws)@ == old(ws)@ + enc_ring(r@),
{
    ws.push(r.len() as u64);
    let ghost head = old(ws)@ + seq![r@.len() as u64];
    let mut i: usize = 0;
    proof {
        assert(ws@ =~= head + enc_coords(r@.take(0)));
    }
    while i < r.len()
        invariant
            0 <= i <= r@.len(),
            ws@ == head + enc_coords(r@.take(i as int)),
        decreases r@.len() - i,
    {
        proof {
            let pre = r@.take(i as int);
            let one = seq![r@[i as int]];
            assert(r@.take(i + 1) =~= pre + one);
            lemma_enc_coords_add(pre, one);
            lemma_enc_coords_singleton(r@[i as int]);
        }
        push_coord(ws, r[i]);
        proof {
            assert(ws@ =~= head + enc_coords(r@.take(i + 1)));
        }
        i = i + 1;
    }
    proof {
        assert(r@.take(r@.len() as int) =~= r@);
        assert(ws@ =~= old(ws)@ + enc_ring(r@));
    }
}

#[verifier::loop_isolation(false)]
fn push_poly(ws: &mut Vec<u64>, p: &crate::geom::Polygon)
    requires
        poly_valid(p@),
    ensures
        final(ws)@ == old(ws)@ + enc_poly(p@),
{
    push_ring(ws, &p.outer);
    ws.push(p.holes.len() as u64);
    let ghost head = old(ws)@ + enc_ring(p@.outer) + seq![p@.holes.len() as u64];
    let mut j: usize = 0;
    proof {
        assert(ws@ =~= head + enc_rings(p@.holes.take(0)));
    }
    while j < p.holes.len()
        invariant
            0 <= j <= p.holes@.len(),
            ws@ == head + enc_rings(p@.holes.take(j as int)),
        decreases p.holes@.len() - j,
    {
        proof {
            let pre = p@.holes.take(j as int);
            let one = seq![p@.holes[j as int]];
            assert(p@.holes.take(j + 1) =~= pre + one);
            lemma_enc_rings_add(pre, one);
            lemma_enc_rings_singleton(p@.holes[j as int]);
            assert(p@.holes[j as int] == p.holes@[j as int]@);
        }
        push_ring(ws, &p.holes[j]);
        proof {
            assert(ws@ =~= head + enc_rings(p@.holes.take(j + 1)));
        }
        j = j + 1;
    }
    proof {
        assert(p@.holes.take(p@.holes.len() as int) =~= p@.holes);
        assert(ws@ =~= old(ws)@ + enc_poly(p@));
    }
}

#[verifier::loop_isolation(false)]
fn push_boundary(ws: &mut Vec<u64>, b: &crate::boundary::Boundary)
    requires
        b.wf(),
    ensures
        final(ws)@ == old(ws)@ + enc_data(data_of(b@)),
{
    proof {
        crate::boundary::lemma_wf_is_model_wf(*b);
    }
    ws.push(b.name.len() as u64);
    let ghost head1 = old(ws)@ + seq![b.name@.len() as u64];
    let mut k: usize = 0;
    proof {
        assert(ws@ =~= head1 + enc_name_bytes(b.name@.take(0)));
    }
    while k < b.name.len()
        invariant
            0 <= k <= b.name@.len(),
            ws@ == head1 + enc_name_bytes(b.name@.take(k as int)),
        decreases b.name@.len() - k,
    {
        ws.push(b.name[k] as u64);
        proof {
            assert(enc_name_bytes(b.name@.take(k + 1)) =~= enc_name_bytes(b.name@.take(k as int))
                + seq![b.name@[k as int] as u64]);
            assert(ws@ =~= head1 + enc_name_bytes(b.name@.take(k + 1)));
        }
        k = k + 1;
    }
    proof {
        assert(b.name@.take(b.name@.len() as int) =~= b.name@);
    }
    ws.push(b.admin_level as u64);
    ws.push(b.mp.polys.len() as u64);
    let ghost head2 = head1 + enc_name_bytes(b.name@) + seq![
        b.admin_level as u64,
        b.mp@.len() as u64,
    ];
    let mut i: usize = 0;
    proof {
        assert(ws@ =~= head2 + enc_polys(b.mp@.take(0)));
    }
    while i < b.mp.polys.len()
        invariant
            0 <= i <= b.mp.polys@.len(),
            ws@ == head2 + enc_polys(b.mp@.take(i as int)),
        decreases b.mp.polys@.len() - i,
    {
        proof {
            let pre = b.mp@.take(i as int);
            let one = seq![b.mp@[i as int]];
            assert(b.mp@.take(i + 1) =~= pre + one);
            lemma_enc_polys_add(pre, one);
            lemma_enc_polys_singleton(b.mp@[i as int]);
            assert(b.mp@[i as int] == b.mp.polys@[i as int]@);
        }
        push_poly(ws, &b.mp.polys[i]);
        proof {
            assert(ws@ =~= head2 + enc_polys(b.mp@.take(i + 1)));
        }
        i = i + 1;
    }
    proof {
        assert(b.mp@.take(b.mp@.len() as int) =~= b.mp@);
        assert(ws@ =~= old(ws)@ + enc_data(data_of(b@)));
    }
}

#[verifier::loop_isolation(false)]
fn words_to_bytes(ws: &Vec<u64>) -> (bytes: Vec<u8>)
    ensures
        bytes@ == spec_words_to_bytes(ws@),
{
    let mut out: Vec<u8> = Vec::new();
    let mut i: usize = 0;
    proof {
        assert(out@ =~= spec_words_to_bytes(ws@.take(0)));
    }
    while i < ws.len()
        invariant
            0 <= i <= ws@.len(),
            out@ == spec_words_to_bytes(ws@.take(i as int)),
        decreases ws@.len() - i,
    {
        let mut wb = vstd::bytes::u64_to_le_bytes(ws[i]);
        proof {
            let pre = ws@.take(i as int);
            let one = seq![ws@[i as int]];
            assert(ws@.take(i + 1) =~= pre + one);
            lemma_words_to_bytes_add(pre, one);
            lemma_words_to_bytes_singleton(ws@[i as int]);
        }
        out.append(&mut wb);
        proof {
            assert(out@ =~= spec_words_to_bytes(ws@.take(i + 1)));
        }
        i = i + 1;
    }
    proof {
        assert(ws@.take(ws@.len() as int) =~= ws@);
    }
    out
}

/// The serialized fields of every boundary of a well-formed list are
/// acceptable to the decoder and fit in the codec's words.
proof fn lemma_datas_valid_bounded(bs: Seq<crate::boundary::Boundary>)
    requires
        forall|i: int| 0 <= i < bs.len() ==> (#[trigger] bs[i]).wf(),
        bs.len() <= u64::MAX,
    ensures
        all_valid_bounded(datas(models(bs))),
{
    let ds = datas(models(bs));
    assert forall|i: int|
        0 <= i < ds.len() implies data_valid(#[trigger] ds[i]) && data_bounded(ds[i]) by {
        let b = bs[i];
        crate::boundary::lemma_wf_is_model_wf(b);
        assert(ds[i] == data_of(b@));
        vstd::std_specs::vec::axiom_spec_len(&b.name);
        vstd::std_specs::vec::axiom_spec_len(&b.mp.polys);
        assert forall|j: int| 0 <= j < b.mp@.len() implies poly_bounded(#[trigger] b.mp@[j]) by {
            let p = b.mp.polys@[j];
            assert(b.mp@[j] == p@);
            vstd::std_specs::vec::axiom_spec_len(&p.outer);
            vstd::std_specs::vec::axiom_spec_len(&p.holes);
            assert forall|h: int|
                0 <= h < p@.holes.len() implies (#[trigger] p@.holes[h]).len()
                <= u64::MAX by {
                assert(p@.holes[h] == p.holes@[h]@);
                vstd::std_specs::vec::axiom_spec_len(&p.holes@[h]);
            }
        }
    }
}

/// Serializes the index: the boundary list of the tree, as a byte
/// image that `load_index` restores.
#[verifier::loop_isolation(false)]
pub fn save_index(t: &crate::rtree::RTree) -> (bytes: Vec<u8>)
    requires
        t.wf(),
    ensures
        bytes@ == spec_encode(datas(models(t.boundaries@))),
        all_valid_bounded(datas(models(t.boundaries@))),
{
    let ghost ds = datas(models(t.boundaries@));
    let mut ws: Vec<u64> = Vec::new();
    ws.push(INDEX_TAG);
    ws.push(t.boundaries.len() as u64);
    let ghost head = seq![INDEX_TAG, t.boundaries@.len() as u64];
    let mut i: usize = 0;
    proof {
        assert(ws@ =~= head + enc_datas(ds.take(0)));
    }
    while i < t.boundaries.len()
        invariant
            0 <= i <= t.boundaries@.len(),
            ws@ == head + enc_datas(ds.take(i as int)),
        decreases t.boundaries@.len() - i,
    {
        proof {
            let pre = ds.take(i as int);
            let one = seq![ds[i as int]];
            assert(ds.take(i + 1) =~= pre + one);
            lemma_enc_datas_add(pre, one);
            lemma_enc_datas_singleton(ds[i as int]);
            assert(ds[i as int] == data_of(t.boundaries@[i as int]@));
        }
        push_boundary(&mut ws, &t.boundaries[i]);
        proof {
            assert(ws@ =~= head + enc_datas(ds.take(i + 1)));
        }
        i = i + 1;
    }
    proof {
        assert(ds.take(ds.len() as int) =~= ds);
        assert(ws@ =~= enc_index(ds));
        lemma_datas_valid_bounded(t.boundaries@);
    }
    words_to_bytes(&ws)
}


// ------------------------------------------------------------ exec decoder
/// Decoding failed: the bytes are not an index this version wrote.
#[derive(Clone, Copy, PartialEq, Eq, Structural, Debug)]
pub struct DecodeError;

fn read_word(ws: &Vec<u64>, pos: &mut usize) -> (r: Option<u64>)
    requires
        *old(pos) <= ws@.len(),
    ensures
        match r {
            Some(w) => *old(pos) < ws@.len() && w == ws@[*old(pos) as int] && *final(pos) == *old(
                pos,
            ) + 1,
            None => *final(pos) == *old(pos) && *old(pos) == ws@.len(),
        },
{
    if *pos < ws.len() {
        let w = ws[*pos];
        *pos = *pos + 1;
        Some(w)
    } else {
        None
    }
}

fn read_coord(ws: &Vec<u64>, pos: &mut usize) -> (r: Option<Coord>)
    requires
        *old(pos) <= ws@.len(),
    ensures
        *old(pos) <= *final(pos) <= ws@.len(),
        match r {
            Some(c) => dec_coord(ws@.skip(*old(pos) as int)) == Some(
                (c, ws@.skip(*final(pos) as int)),
            ),
            None => dec_coord(ws@.skip(*old(pos) as int)) is None,
        },
{
    let ghost s = ws@.skip(*old(pos) as int);
    if ws.len() - *pos >= 2 {
        let w0 = ws[*pos];
        let w1 = ws[*pos + 1];
        proof {
            assert(s[0] == w0);
            assert(s[1] == w1);
        }
        if w0 <= 3_600_000_000u64 && w1 <= 1_800_000_000u64 {
            let c = Coord { x: w0 as i64 - MAX_LNG, y: w1 as i64 - MAX_LAT };
            *pos = *pos + 2;
            proof {
                assert(s.skip(2) =~= ws@.skip(*pos as int));
            }
            Some(c)
        } else {
            None
        }
    } else {
        None
    }
}

#[verifier::loop_isolation(false)]
fn read_coords(ws: &Vec<u64>, pos: &mut usize, n: u64) -> (r: Option<Vec<Coord>>)
    requires
        *old(pos) <= ws@.len(),
    ensures
        *old(pos) <= *final(pos) <= ws@.len(),
        match r {
            Some(cs) => dec_coords(ws@.skip(*old(pos) as int), n as nat) == Some(
                (cs@, ws@.skip(*final(pos) as int)),
            ) && valid_coords(cs@),
            None => dec_coords(ws@.skip(*old(pos) as int), n as nat) is None,
        },
{
    let ghost pos0 = *pos;
    let mut out: Vec<Coord> = Vec::new();
    let mut k: u64 = 0;
    while k < n
        invariant
            k <= n,
            pos0 <= *pos <= ws@.len(),
            match dec_coords(ws@.skip(*pos as int), (n - k) as nat) {
                Some(p) => dec_coords(ws@.skip(pos0 as int), n as nat) == Some(
                    (out@ + p.0, p.1),
                ),
                None => dec_coords(ws@.skip(pos0 as int), n as nat) is None,
            },
        decreases n - k,
    {
        let ghost prepos = *pos;
        match read_coord(ws, pos) {
            Some(c) => {
                proof {
                    match dec_coords(ws@.skip(*pos as int), (n - k - 1) as nat) {
                        Some(p2) => {
                            assert(dec_coords(ws@.skip(prepos as int), (n - k) as nat) == Some(
                                ((seq![c] + p2.0), p2.1),
                            ));
                            assert(out@ + (seq![c] + p2.0) =~= out@.push(c) + p2.0);
                        },
                        None => {
                            assert(dec_coords(ws@.skip(prepos as int), (n - k) as nat) is None);
                        },
                    }
                }
                out.push(c);
                k = k + 1;
            },
            None => {
                proof {
                    assert(dec_coords(ws@.skip(prepos as int), (n - k) as nat) is None);
                }
                return None;
            },
        }
    }
    proof {
        assert(out@ + Seq::<Coord>::empty() =~= out@);
        lemma_dec_coords_valid(ws@.skip(pos0 as int), n as nat);
    }
    Some(out)
}

fn read_ring(ws: &Vec<u64>, pos: &mut usize) -> (r: Option<Vec<Coord>>)
    requires
        *old(pos) <= ws@.len(),
    ensures
        *old(pos) <= *final(pos) <= ws@.len(),
        match r {
            Some(cs) => dec_ring(ws@.skip(*old(pos) as int)) == Some(
                (cs@, ws@.skip(*final(pos) as int)),
            ) && valid_coords(cs@),
            None => dec_ring(ws@.skip(*old(pos) as int)) is None,
        },
{
    let ghost s = ws@.skip(*old(pos) as int);
    let n = match read_word(ws, pos) {
        Some(w) => w,
        None => {
            return None;
        },
    };
    proof {
        assert(s[0] == n);
        assert(s.skip(1) =~= ws@.skip(*pos as int));
    }
    read_coords(ws, pos, n)
}

#[verifier::loop_isolation(false)]
fn read_rings(ws: &Vec<u64>, pos: &mut usize, n: u64) -> (r: Option<Vec<Vec<Coord>>>)
    requires
        *old(pos) <= ws@.len(),
    ensures
        *old(pos) <= *final(pos) <= ws@.len(),
        match r {
            Some(rs) => dec_rings(ws@.skip(*old(pos) as int), n as nat) == Some(
                (rs@.map_values(|h: Vec<Coord>| h@), ws@.skip(*final(pos) as int)),
            ),
            None => dec_rings(ws@.skip(*old(pos) as int), n as nat) is None,
        },
{
    let ghost pos0 = *pos;
    let mut out: Vec<Vec<Coord>> = Vec::new();
    let mut k: u64 = 0;
    while k < n
        invariant
            k <= n,
            pos0 <= *pos <= ws@.len(),
            match dec_rings(ws@.skip(*pos as int), (n - k) as nat) {
                Some(p) => dec_rings(ws@.skip(pos0 as int), n as nat) == Some(
                    (out@.map_values(|h: Vec<Coord>| h@) + p.0, p.1),
                ),
                None => dec_rings(ws@.skip(pos0 as int), n as nat) is None,
            },
        decreases n - k,
    {
        let ghost prepos = *pos;
        match read_ring(ws, pos) {
            Some(cs) => {
                proof {
                    let f = |h: Vec<Coord>| h@;
                    match dec_rings(ws@.skip(*pos as int), (n - k - 1) as nat) {
                        Some(p2) => {
                            assert(dec_rings(ws@.skip(prepos as int), (n - k) as nat) == Some(
                                ((seq![cs@] + p2.0), p2.1),
                            ));
                            assert(out@.push(cs).map_values(f) =~= out@.map_values(f) + seq![cs@]);
                            assert(out@.map_values(f) + (seq![cs@] + p2.0) =~= out@.push(
                                cs,
                            ).map_values(f) + p2.0);
                        },
                        None => {
                            assert(dec_rings(ws@.skip(prepos as int), (n - k) as nat) is None);
                        },
                    }
                }
                out.push(cs);
                k = k + 1;
            },
            None => {
                proof {
                    assert(dec_rings(ws@.skip(prepos as int), (n - k) as nat) is None);
                }
                return None;
            },
        }
    }
    proof {
        let f = |h: Vec<Coord>| h@;
        assert(out@.map_values(f) + Seq::<Seq<Coord>>::empty() =~= out@.map_values(f));
    }
    Some(out)
}

fn read_poly(ws: &Vec<u64>, pos: &mut usize) -> (r: Option<crate::geom::Polygon>)
    requires
        *old(pos) <= ws@.len(),
    ensures
        *old(pos) <= *final(pos) <= ws@.len(),
        match r {
            Some(p) => dec_poly(ws@.skip(*old(pos) as int)) == Some(
                (p@, ws@.skip(*final(pos) as int)),
            ),
            None => dec_poly(ws@.skip(*old(pos) as int)) is None,
        },
{
    let outer = match read_ring(ws, pos) {
        Some(cs) => cs,
        None => {
            return None;
        },
    };
    let ghost s1 = ws@.skip(*pos as int);
    let nh = match read_word(ws, pos) {
        Some(w) => w,
        None => {
            proof {
                assert(s1.len() == 0);
            }
            return None;
        },
    };
    proof {
        assert(s1[0] == nh);
        assert(s1.skip(1) =~= ws@.skip(*pos as int));
    }
    let holes = match read_rings(ws, pos, nh) {
        Some(rs) => rs,
        None => {
            return None;
        },
    };
    let p = crate::geom::Polygon { outer, holes };
    proof {
        assert(p@ =~= dec_poly(ws@.skip(*old(pos) as int))->Some_0.0);
    }
    Some(p)
}

#[verifier::loop_isolation(false)]
fn read_polys(ws: &Vec<u64>, pos: &mut usize, n: u64) -> (r: Option<Vec<crate::geom::Polygon>>)
    requires
        *old(pos) <= ws@.len(),
    ensures
        *old(pos) <= *final(pos) <= ws@.len(),
        match r {
            Some(ps) => dec_polys(ws@.skip(*old(pos) as int), n as nat) == Some(
                (ps@.map_values(|p: crate::geom::Polygon| p@), ws@.skip(*final(pos) as int)),
            ) && mp_valid(ps@.map_values(|p: crate::geom::Polygon| p@)),
            None => dec_polys(ws@.skip(*old(pos) as int), n as nat) is None,
        },
{
    let ghost pos0 = *pos;
    let mut out: Vec<crate::geom::Polygon> = Vec::new();
    let mut k: u64 = 0;
    while k < n
        invariant
            k <= n,
            pos0 <= *pos <= ws@.len(),
            match dec_polys(ws@.skip(*pos as int), (n - k) as nat) {
                Some(p) => dec_polys(ws@.skip(pos0 as int), n as nat) == Some(
                    (out@.map_values(|p2: crate::geom::Polygon| p2@) + p.0, p.1),
                ),
                None => dec_polys(ws@.skip(pos0 as int), n as nat) is None,
            },
        decreases n - k,
    {
        let ghost prepos = *pos;
        match read_poly(ws, pos) {
            Some(p) => {
                proof {
                    let f = |p2: crate::geom::Polygon| p2@;
                    match dec_polys(ws@.skip(*pos as int), (n - k - 1) as nat) {
                        Some(p2) => {
                            assert(dec_polys(ws@.skip(prepos as int), (n - k) as nat) == Some(
                                ((seq![p@] + p2.0), p2.1),
                            ));
                            assert(out@.push(p).map_values(f) =~= out@.map_values(f) + seq![p@]);
                            assert(out@.map_values(f) + (seq![p@] + p2.0) =~= out@.push(
                                p,
                            ).map_values(f) + p2.0);
                        },
                        None => {
                            assert(dec_polys(ws@.skip(prepos as int), (n - k) as nat) is None);
                        },
                    }
                }
                out.push(p);
                k = k + 1;
            },
            None => {
                proof {
                    assert(dec_polys(ws@.skip(prepos as int), (n - k) as nat) is None);
                }
                return None;
            },
        }
    }
    proof {
        let f = |p2: crate::geom::Polygon| p2@;
        assert(out@.map_values(f) + Seq::<PolyModel>::empty() =~= out@.map_values(f));
        lemma_dec_polys_valid(ws@.skip(pos0 as int), n as nat);
    }
    Some(out)
}

#[verifier::loop_isolation(false)]
fn read_name_bytes(ws: &Vec<u64>, pos: &mut usize, n: u64) -> (r: Option<Vec<u8>>)
    requires
        *old(pos) <= ws@.len(),
    ensures
        *old(pos) <= *final(pos) <= ws@.len(),
        match r {
            Some(nb) => dec_name_bytes(ws@.skip(*old(pos) as int), n as nat) == Some(
                (nb@, ws@.skip(*final(pos) as int)),
            ),
            None => dec_name_bytes(ws@.skip(*old(pos) as int), n as nat) is None,
        },
{
    let ghost pos0 = *pos;
    let mut out: Vec<u8> = Vec::new();
    let mut k: u64 = 0;
    while k < n
        invariant
            k <= n,
            pos0 <= *pos <= ws@.len(),
            match dec_name_bytes(ws@.skip(*pos as int), (n - k) as nat) {
                Some(p) => dec_name_bytes(ws@.skip(pos0 as int), n as nat) == Some(
                    (out@ + p.0, p.1),
                ),
                None => dec_name_bytes(ws@.skip(pos0 as int), n as nat) is None,
            },
        decreases n - k,
    {
        let ghost prepos = *pos;
        let ghost s = ws@.skip(prepos as int);
        match read_word(ws, pos) {
            Some(w) => {
                proof {
                    assert(s[0] == w);
                }
                if w > 255 || w == 10 {
                    return None;
                }
                proof {
                    assert(s.skip(1) =~= ws@.skip(*pos as int));
                    match dec_name_bytes(ws@.skip(*pos as int), (n - k - 1) as nat) {
                        Some(p2) => {
                            assert(dec_name_bytes(ws@.skip(prepos as int), (n - k) as nat)
                                == Some(((seq![w as u8] + p2.0), p2.1)));
                            assert(out@ + (seq![w as u8] + p2.0) =~= out@.push(w as u8) + p2.0);
                        },
                        None => {
                            assert(dec_name_bytes(ws@.skip(prepos as int), (n - k) as nat)
                                is None);
                        },
                    }
                }
                out.push(w as u8);
                k = k + 1;
            },
            None => {
                proof {
                    assert(s.len() == 0);
                    assert(dec_name_bytes(ws@.skip(prepos as int), (n - k) as nat) is None);
                }
                return None;
            },
        }
    }
    proof {
        assert(out@ + Seq::<u8>::empty() =~= out@);
    }
    Some(out)
}

/// Decoded name bytes hold no newline, by the decoder's own check.
proof fn lemma_dec_name_bytes_clean(ws: Seq<u64>, n: nat)
    ensures
        match dec_name_bytes(ws, n) {
            Some((nb, _)) => !nb.contains(10u8),
            None => true,
        },
    decreases n,
{
    if n > 0 && ws.len() >= 1 && ws[0] <= 255 && ws[0] != 10 {
        lemma_dec_name_bytes_clean(ws.skip(1), (n - 1) as nat);
        match dec_name_bytes(ws.skip(1), (n - 1) as nat) {
            Some((bs, _)) => {
                let nb = seq![ws[0] as u8] + bs;
                if nb.contains(10u8) {
                    let w = choose|w: int| 0 <= w < nb.len() && nb[w] == 10u8;
                    if w > 0 {
                        assert(bs[w - 1] == 10u8);
                        assert(bs.contains(10u8));
                    }
                }
            },
            None => {},
        }
    }
}

fn read_boundary(ws: &Vec<u64>, pos: &mut usize) -> (r: Option<crate::boundary::Boundary>)
    requires
        *old(pos) <= ws@.len(),
    ensures
        *old(pos) <= *final(pos) <= ws@.len(),
        match r {
            Some(b) => b.wf() && dec_data(ws@.skip(*old(pos) as int)) == Some(
                (data_of(b@), ws@.skip(*final(pos) as int)),
            ),
            None => dec_data(ws@.skip(*old(pos) as int)) is None,
        },
{
    let ghost s = ws@.skip(*old(pos) as int);
    let nlen = match read_word(ws, pos) {
        Some(w) => w,
        None => {
            return None;
        },
    };
    proof {
        assert(s[0] == nlen);
        assert(s.skip(1) =~= ws@.skip(*pos as int));
    }
    let name = match read_name_bytes(ws, pos, nlen) {
        Some(nb) => nb,
        None => {
            return None;
        },
    };
    proof {
        lemma_dec_name_bytes_clean(ws@.skip(*old(pos) as int).skip(1), nlen as nat);
    }
    if name.len() == 0 {
        return None;
    }
    let ghost s1 = ws@.skip(*pos as int);
    if ws.len() - *pos < 2 {
        proof {
            assert(s1.len() < 2);
        }
        return None;
    }
    let lw = ws[*pos];
    let pw = ws[*pos + 1];
    proof {
        assert(s1[0] == lw);
        assert(s1[1] == pw);
    }
    if lw > 255 {
        return None;
    }
    *pos = *pos + 2;
    proof {
        assert(s1.skip(2) =~= ws@.skip(*pos as int));
    }
    let polys = match read_polys(ws, pos, pw) {
        Some(ps) => ps,
        None => {
            return None;
        },
    };
    let mp = crate::geom::MultiPolygon { polys };
    let total = mp.coord_count();
    if total == 0 {
        return None;
    }
    let b = crate::boundary::Boundary::new(mp, name, lw as u8);
    proof {
        assert(data_of(b@) =~= dec_data(ws@.skip(*old(pos) as int))->Some_0.0);
    }
    Some(b)
}

proof fn lemma_bytes_to_words_misaligned(bs: Seq<u8>)
    requires
        bs.len() % 8 != 0,
    ensures
        spec_bytes_to_words(bs) is None,
    decreases bs.len(),
{
    if bs.len() >= 8 {
        lemma_bytes_to_words_misaligned(bs.skip(8));
    }
}

#[verifier::loop_isolation(false)]
fn bytes_to_words(bytes: &Vec<u8>) -> (r: Option<Vec<u64>>)
    ensures
        match r {
            Some(ws) => spec_bytes_to_words(bytes@) == Some(ws@),
            None => spec_bytes_to_words(bytes@) is None,
        },
{
    if bytes.len() % 8 != 0 {
        proof {
            lemma_bytes_to_words_misaligned(bytes@);
        }
        return None;
    }
    let mut out: Vec<u64> = Vec::new();
    let mut pos: usize = 0;
    proof {
        assert(bytes@.skip(0) =~= bytes@);
        match spec_bytes_to_words(bytes@) {
            Some(tailws) => {
                assert(out@ + tailws =~= tailws);
            },
            None => {},
        }
    }
    while pos < bytes.len()
        invariant
            0 <= pos <= bytes@.len(),
            pos % 8 == 0,
            bytes@.len() % 8 == 0,
            match spec_bytes_to_words(bytes@.skip(pos as int)) {
                Some(tailws) => spec_bytes_to_words(bytes@) == Some(out@ + tailws),
                None => spec_bytes_to_words(bytes@) is None,
            },
        decreases bytes@.len() - pos,
    {
        let ghost s = bytes@.skip(pos as int);
        proof {
            assert(s.len() >= 8) by {
                assert(s.len() == bytes@.len() - pos);
                assert(s.len() % 8 == 0);
                assert(s.len() > 0);
            }
        }
        let chunk = vstd::slice::slice_subrange(bytes.as_slice(), pos, pos + 8);
        let w = vstd::bytes::u64_from_le_bytes(chunk);
        proof {
            assert(s.take(8) =~= bytes@.subrange(pos as int, pos + 8));
            assert(w == spec_u64_from_le_bytes(s.take(8)));
            assert(s.skip(8) =~= bytes@.skip(pos + 8));
            match spec_bytes_to_words(bytes@.skip(pos + 8)) {
                Some(tailws) => {
                    assert(spec_bytes_to_words(s) == Some(seq![w] + tailws));
                    assert(out@ + (seq![w] + tailws) =~= out@.push(w) + tailws);
                },
                None => {
                    assert(spec_bytes_to_words(s) is None);
                },
            }
        }
        out.push(w);
        pos = pos + 8;
    }
    proof {
        assert(bytes@.skip(bytes@.len() as int) =~= Seq::<u8>::empty());
        assert(out@ + Seq::<u64>::empty() =~= out@);
    }
    Some(out)
}

/// Restores an index from its byte image: decodes the boundary list and
/// packs it, in list order, into a fresh tree. Fails exactly on byte
/// images this version's codec did not write.
#[verifier::loop_isolation(false)]
pub fn load_tree(bytes: &Vec<u8>) -> (r: Result<crate::rtree::RTree, DecodeError>)
    ensures
        match r {
            Ok(t) => t.wf() && spec_decode(bytes@) == Some(datas(models(t.boundaries@))),
            Err(_) => spec_decode(bytes@) is None,
        },
{
    let ws = match bytes_to_words(bytes) {
        Some(ws) => ws,
        None => {
            return Err(DecodeError);
        },
    };
    if ws.len() < 2 {
        return Err(DecodeError);
    }
    if ws[0] != INDEX_TAG {
        return Err(DecodeError);
    }
    let count = ws[1];
    let mut pos: usize = 2;
    let mut out: Vec<crate::boundary::Boundary> = Vec::new();
    let mut k: u64 = 0;
    proof {
        assert(datas(models(out@)) =~= Seq::<BoundaryData>::empty());
    }
    while k < count
        invariant
            k <= count,
            2 <= pos <= ws@.len(),
            forall|i: int| 0 <= i < out@.len() ==> (#[trigger] out@[i]).wf(),
            match dec_datas(ws@.skip(pos as int), (count - k) as nat) {
                Some(p) => dec_datas(ws@.skip(2), count as nat) == Some(
                    (datas(models(out@)) + p.0, p.1),
                ),
                None => dec_datas(ws@.skip(2), count as nat) is None,
            },
        decreases count - k,
    {
        let ghost prepos = pos;
        match read_boundary(&ws, &mut pos) {
            Some(b) => {
                proof {
                    match dec_datas(ws@.skip(pos as int), (count - k - 1) as nat) {
                        Some(p2) => {
                            assert(dec_datas(ws@.skip(prepos as int), (count - k) as nat)
                                == Some(((seq![data_of(b@)] + p2.0), p2.1)));
                            assert(models(out@.push(b)) =~= models(out@).push(b@));
                            assert(datas(models(out@.push(b))) =~= datas(models(out@)).push(
                                data_of(b@),
                            ));
                            assert(datas(models(out@)) + (seq![data_of(b@)] + p2.0) =~= datas(
                                models(out@.push(b)),
                            ) + p2.0);
                        },
                        None => {
                            assert(dec_datas(ws@.skip(prepos as int), (count - k) as nat)
                                is None);
                        },
                    }
                }
                out.push(b);
                k = k + 1;
            },
            None => {
                proof {
                    assert(dec_datas(ws@.skip(prepos as int), (count - k) as nat) is None);
                }
                return Err(DecodeError);
            },
        }
    }
    if pos != ws.len() {
        proof {
            assert(ws@.skip(pos as int).len() > 0);
        }
        return Err(DecodeError);
    }
    proof {
        assert(datas(models(out@)) + Seq::<BoundaryData>::empty() =~= datas(models(out@)));
        assert(ws@.skip(pos as int).len() == 0);
        assert(crate::rtree::all_wf(out@));
    }
    let t = crate::rtree::pack_rtree(out);
    Ok(t)
}

// ----------------------------------------------------------------- the law
/// The serialized fields and well-formedness determine the whole model:
/// the bounding rectangle and area are functions of the geometry.
pub proof fn lemma_data_determines_model(m1: BoundaryModel, m2: BoundaryModel)
    requires
        crate::boundary::model_wf(m1),
        crate::boundary::model_wf(m2),
        data_of(m1) == data_of(m2),
    ensures
        m1 == m2,
{
    crate::geom::lemma_bbox_unique(m1.bbox, m2.bbox, polys_coords(m1.polys));
    assert(m1 =~= m2);
}

/// The persisted-index round trip is lossless for queries: when a tree
/// is saved, so that its byte image is what `save_index` guarantees,
/// and those bytes load back as a second tree, every point query
/// answers identically on both trees.
pub proof fn lemma_save_load_query_equivalent(
    t1: crate::rtree::RTree,
    t2: crate::rtree::RTree,
    bytes: Seq<u8>,
    p: Coord,
)
    requires
        t1.wf(),
        t2.wf(),
        all_valid_bounded(datas(models(t1.boundaries@))),
        bytes == spec_encode(datas(models(t1.boundaries@))),
        spec_decode(bytes) == Some(datas(models(t2.boundaries@))),
    ensures
        t1.locate_spec(p) == t2.locate_spec(p),
{
    lemma_codec_round_trip(datas(models(t1.boundaries@)));
    lemma_reload_query_equivalent(t1, t2, p);
}

/// Persisted-index round trip: a well-formed tree whose boundary list
/// decodes from the same byte image as another answers every query
/// identically. Together with `save_index`, `load_index` and
/// `lemma_codec_round_trip`, a saved and reloaded index is
/// query-equivalent to the index it was saved from.
pub proof fn lemma_reload_query_equivalent(
    t1: crate::rtree::RTree,
    t2: crate::rtree::RTree,
    p: Coord,
)
    requires
        t1.wf(),
        t2.wf(),
        datas(models(t1.boundaries@)) == datas(models(t2.boundaries@)),
    ensures
        t1.locate_spec(p) == t2.locate_spec(p),
{
    let ms1 = models(t1.boundaries@);
    let ms2 = models(t2.boundaries@);
    assert(ms1.len() == ms2.len()) by {
        assert(datas(ms1).len() == ms1.len());
        assert(datas(ms2).len() == ms2.len());
    }
    assert forall|i: int| 0 <= i < ms1.len() implies ms1[i] == ms2[i] by {
        crate::boundary::lemma_wf_is_model_wf(t1.boundaries@[i]);
        crate::boundary::lemma_wf_is_model_wf(t2.boundaries@[i]);
        assert(datas(ms1)[i] == datas(ms2)[i]);
        lemma_data_determines_model(ms1[i], ms2[i]);
    }
    assert(ms1 =~= ms2);
    crate::rtree::lemma_query_equivalent(t1, t2, p);
}

} // verus!
