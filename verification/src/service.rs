//! The service core: responses for the single-point route and the bulk
//! routes.
//!
//! Handlers in front of this module do the HTTP work; everything here
//! is pure computation from bytes to bytes. The single-point reply is
//! a JSON object listing the containing boundaries; the bulk reply is
//! one CSV record per input line, in input order.

use crate::boundary::{models, BoundaryModel};
use crate::geom::Coord;
use crate::location::{
    find_byte, loc_lat, loc_lng, loc_wellformed, parse_location, LocationError,
};
use crate::rtree::RTree;
use vstd::prelude::*;

verus! {

/// Decimal digits of a byte value, no leading zeros.
pub open spec fn u8_digits(v: u8) -> Seq<u8> {
    if v < 10 {
        seq![(48 + v) as u8]
    } else if v < 100 {
        seq![(48 + v / 10) as u8, (48 + v % 10) as u8]
    } else {
        seq![(48 + v / 100) as u8, (48 + (v / 10) % 10) as u8, (48 + v % 10) as u8]
    }
}

fn push_u8_digits(out: &mut Vec<u8>, v: u8)
    ensures
        final(out)@ == old(out)@ + u8_digits(v),
{
    if v < 10 {
        out.push(48 + v);
    } else if v < 100 {
        out.push(48 + v / 10);
        out.push(48 + v % 10);
    } else {
        out.push(48 + v / 100);
        out.push(48 + (v / 10) % 10);
        out.push(48 + v % 10);
    }
    proof {
        assert(out@ =~= old(out)@ + u8_digits(v));
    }
}

/// Lowercase hexadecimal digit of a value below sixteen.
pub open spec fn hex_digit(x: u8) -> u8 {
    if x < 10 {
        (48 + x) as u8
    } else {
        (87 + x) as u8
    }
}

/// JSON escape of one byte of a string: quote and backslash get a
/// backslash, control bytes become a four-digit escape, anything else
/// passes through.
pub open spec fn json_escape_byte(b: u8) -> Seq<u8> {
    if b == 34 {
        seq![92u8, 34u8]
    } else if b == 92 {
        seq![92u8, 92u8]
    } else if b < 32 {
        seq![92u8, 117u8, 48u8, 48u8, hex_digit(b / 16), hex_digit(b % 16)]
    } else {
        seq![b]
    }
}

/// JSON escape of a whole string.
pub open spec fn json_escape(name: Seq<u8>) -> Seq<u8>
    decreases name.len(),
{
    if name.len() == 0 {
        Seq::empty()
    } else {
        json_escape(name.drop_last()) + json_escape_byte(name.last())
    }
}

#[verifier::loop_isolation(false)]
fn push_escaped(out: &mut Vec<u8>, name: &Vec<u8>)
    ensures
        final(out)@ == old(out)@ + json_escape(name@),
{
    let mut i: usize = 0;
    proof {
        assert(out@ =~= old(out)@ + json_escape(name@.take(0)));
    }
    while i < name.len()
        invariant
            0 <= i <= name@.len(),
            out@ == old(out)@ + json_escape(name@.take(i as int)),
        decreases name@.len() - i,
    {
        let b = name[i];
        proof {
            assert(name@.take(i + 1).drop_last() =~= name@.take(i as int));
            assert(name@.take(i + 1).last() == b);
        }
        if b == 34 {
            out.push(92);
            out.push(34);
        } else if b == 92 {
            out.push(92);
            out.push(92);
        } else if b < 32 {
            out.push(92);
            out.push(117);
            out.push(48);
            out.push(48);
            let hi = b / 16;
            let lo = b % 16;
            out.push(
                if hi < 10 {
                    48 + hi
                } else {
                    87 + hi
                },
            );
            out.push(
                if lo < 10 {
                    48 + lo
                } else {
                    87 + lo
                },
            );
        } else {
            out.push(b);
        }
        proof {
            assert(out@ =~= old(out)@ + json_escape(name@.take(i + 1)));
        }
        i = i + 1;
    }
    proof {
        assert(name@.take(name@.len() as int) =~= name@);
    }
}

/// The JSON object for one boundary: its level and its name.
pub open spec fn boundary_json(m: BoundaryModel) -> Seq<u8> {
    seq![123u8, 34u8, 108u8, 101u8, 118u8, 101u8, 108u8, 34u8, 58u8] + u8_digits(m.admin_level)
        + seq![44u8, 34u8, 110u8, 97u8, 109u8, 101u8, 34u8, 58u8, 34u8] + json_escape(m.name)
        + seq![34u8, 125u8]
}

/// The boundary objects for the given indices, comma-separated.
pub open spec fn boundaries_json(ms: Seq<BoundaryModel>, idxs: Seq<usize>) -> Seq<u8>
    decreases idxs.len(),
{
    if idxs.len() == 0 {
        Seq::empty()
    } else if idxs.len() == 1 {
        boundary_json(ms[idxs[0] as int])
    } else {
        boundaries_json(ms, idxs.drop_last()) + seq![44u8] + boundary_json(ms[idxs.last() as int])
    }
}

/// The whole reply body for the single-point route.
pub open spec fn locate_body(ms: Seq<BoundaryModel>, idxs: Seq<usize>) -> Seq<u8> {
    seq![
        123u8,
        34u8,
        98u8,
        111u8,
        117u8,
        110u8,
        100u8,
        97u8,
        114u8,
        105u8,
        101u8,
        115u8,
        34u8,
        58u8,
        91u8,
    ] + boundaries_json(ms, idxs) + seq![93u8, 125u8]
}

#[verifier::loop_isolation(false)]
fn push_boundary_json(out: &mut Vec<u8>, t: &RTree, idx: usize)
    requires
        idx < t.boundaries@.len(),
    ensures
        final(out)@ == old(out)@ + boundary_json(models(t.boundaries@)[idx as int]),
{
    out.push(123);
    out.push(34);
    out.push(108);
    out.push(101);
    out.push(118);
    out.push(101);
    out.push(108);
    out.push(34);
    out.push(58);
    let b = t.get(idx);
    push_u8_digits(out, b.admin_level);
    out.push(44);
    out.push(34);
    out.push(110);
    out.push(97);
    out.push(109);
    out.push(101);
    out.push(34);
    out.push(58);
    out.push(34);
    push_escaped(out, &b.name);
    out.push(34);
    out.push(125);
    proof {
        assert(models(t.boundaries@)[idx as int] == t.boundaries@[idx as int]@);
        assert(out@ =~= old(out)@ + boundary_json(models(t.boundaries@)[idx as int]));
    }
}

/// Renders the reply body for a list of boundary indices.
#[verifier::loop_isolation(false)]
pub fn locate_response_body(t: &RTree, idxs: &Vec<usize>) -> (out: Vec<u8>)
    requires
        forall|k: int| 0 <= k < idxs@.len() ==> (#[trigger] idxs@[k]) < t.boundaries@.len(),
    ensures
        out@ == locate_body(models(t.boundaries@), idxs@),
{
    let ghost ms = models(t.boundaries@);
    let mut out: Vec<u8> = Vec::new();
    out.push(123);
    out.push(34);
    out.push(98);
    out.push(111);
    out.push(117);
    out.push(110);
    out.push(100);
    out.push(97);
    out.push(114);
    out.push(105);
    out.push(101);
    out.push(115);
    out.push(34);
    out.push(58);
    out.push(91);
    let ghost head = out@;
    let mut j: usize = 0;
    proof {
        assert(out@ =~= head + boundaries_json(ms, idxs@.take(0)));
    }
    while j < idxs.len()
        invariant
            0 <= j <= idxs@.len(),
            out@ == head + boundaries_json(ms, idxs@.take(j as int)),
        decreases idxs@.len() - j,
    {
        proof {
            assert(idxs@.take(j + 1).drop_last() =~= idxs@.take(j as int));
            assert(idxs@.take(j + 1).last() == idxs@[j as int]);
        }
        if j > 0 {
            out.push(44);
        }
        push_boundary_json(&mut out, t, idxs[j]);
        proof {
            assert(out@ =~= head + boundaries_json(ms, idxs@.take(j + 1)));
        }
        j = j + 1;
    }
    out.push(93);
    out.push(125);
    proof {
        assert(idxs@.take(idxs@.len() as int) =~= idxs@);
        assert(out@ =~= locate_body(ms, idxs@));
    }
    out
}

/// Answers the single-point route for one `loc` parameter: parses it,
/// runs the query, and renders the JSON body. The error says exactly
/// why the parameter was rejected; the handler turns it into a client
/// error.
pub fn locate_response(t: &RTree, loc_param: &Vec<u8>) -> (r: Result<Vec<u8>, LocationError>)
    requires
        t.wf(),
    ensures
        match r {
            Ok(body) => loc_wellformed(loc_param@) && -crate::geom::MAX_LNG <= loc_lng(loc_param@)
                <= crate::geom::MAX_LNG && -crate::geom::MAX_LAT <= loc_lat(loc_param@)
                <= crate::geom::MAX_LAT && body@ == locate_body(
                models(t.boundaries@),
                t.locate_spec(
                    Coord { x: loc_lng(loc_param@) as i64, y: loc_lat(loc_param@) as i64 },
                ),
            ),
            Err(e) => match e {
                LocationError::Malformed => !loc_wellformed(loc_param@),
                LocationError::LngOutOfRange => loc_wellformed(loc_param@) && !(
                -crate::geom::MAX_LNG <= loc_lng(loc_param@) <= crate::geom::MAX_LNG),
                LocationError::LatOutOfRange => loc_wellformed(loc_param@) && -crate::geom::MAX_LNG
                    <= loc_lng(loc_param@) <= crate::geom::MAX_LNG && !(-crate::geom::MAX_LAT
                    <= loc_lat(loc_param@) <= crate::geom::MAX_LAT),
            },
        },
{
    match parse_location(loc_param) {
        Ok(loc) => {
            let p = loc.point();
            let idxs = t.locate(p);
            proof {
                assert forall|k: int|
                    0 <= k < idxs@.len() implies (#[trigger] idxs@[k])
                    < t.boundaries@.len() by {
                    crate::rtree::lemma_locate_sound(*t, p, k);
                }
            }
            Ok(locate_response_body(t, &idxs))
        },
        Err(e) => Err(e),
    }
}

/// The byte is a UTF-8 continuation byte.
pub open spec fn is_cont(b: u8) -> bool {
    128 <= b <= 191
}

/// Length of a well-formed UTF-8 scalar encoding at the front of the
/// sequence, or zero if there is none: ASCII, two- to four-byte
/// sequences with the shortest form enforced, surrogates and values
/// beyond the last code point excluded.
pub open spec fn utf8_step(s: Seq<u8>) -> int {
    if s.len() >= 1 && s[0] <= 127 {
        1
    } else if s.len() >= 2 && 194 <= s[0] <= 223 && is_cont(s[1]) {
        2
    } else if s.len() >= 3 && s[0] == 224 && 160 <= s[1] <= 191 && is_cont(s[2]) {
        3
    } else if s.len() >= 3 && 225 <= s[0] <= 236 && is_cont(s[1]) && is_cont(s[2]) {
        3
    } else if s.len() >= 3 && s[0] == 237 && 128 <= s[1] <= 159 && is_cont(s[2]) {
        3
    } else if s.len() >= 3 && 238 <= s[0] <= 239 && is_cont(s[1]) && is_cont(s[2]) {
        3
    } else if s.len() >= 4 && s[0] == 240 && 144 <= s[1] <= 191 && is_cont(s[2]) && is_cont(s[3]) {
        4
    } else if s.len() >= 4 && 241 <= s[0] <= 243 && is_cont(s[1]) && is_cont(s[2]) && is_cont(
        s[3],
    ) {
        4
    } else if s.len() >= 4 && s[0] == 244 && 128 <= s[1] <= 143 && is_cont(s[2]) && is_cont(s[3]) {
        4
    } else {
        0
    }
}

/// The byte sequence is well-formed UTF-8.
pub open spec fn is_utf8(s: Seq<u8>) -> bool
    decreases s.len(),
{
    if s.len() == 0 {
        true
    } else {
        let k = utf8_step(s);
        if 0 < k <= s.len() {
            is_utf8(s.skip(k))
        } else {
            false
        }
    }
}

/// Runtime check matching `is_utf8`.
#[verifier::loop_isolation(false)]
pub fn check_utf8(v: &Vec<u8>) -> (r: bool)
    ensures
        r == is_utf8(v@),
{
    let n = v.len();
    let mut i: usize = 0;
    proof {
        assert(v@.skip(0) =~= v@);
    }
    while i < n
        invariant
            0 <= i <= n,
            is_utf8(v@) == is_utf8(v@.skip(i as int)),
        decreases n - i,
    {
        let ghost su = v@.skip(i as int);
        proof {
            assert(su.len() == n - i);
            assert(su[0] == v@[i as int]);
            if n - i >= 2 {
                assert(su[1] == v@[i + 1]);
            }
            if n - i >= 3 {
                assert(su[2] == v@[i + 2]);
            }
            if n - i >= 4 {
                assert(su[3] == v@[i + 3]);
            }
        }
        let b0 = v[i];
        let rem = n - i;
        let step: usize = if b0 <= 127 {
            1
        } else if 194 <= b0 && b0 <= 223 {
            if rem >= 2 && cont(v[i + 1]) {
                2
            } else {
                0
            }
        } else if b0 == 224 {
            if rem >= 3 && 160 <= v[i + 1] && v[i + 1] <= 191 && cont(v[i + 2]) {
                3
            } else {
                0
            }
        } else if 225 <= b0 && b0 <= 236 {
            if rem >= 3 && cont(v[i + 1]) && cont(v[i + 2]) {
                3
            } else {
                0
            }
        } else if b0 == 237 {
            if rem >= 3 && 128 <= v[i + 1] && v[i + 1] <= 159 && cont(v[i + 2]) {
                3
            } else {
                0
            }
        } else if 238 <= b0 && b0 <= 239 {
            if rem >= 3 && cont(v[i + 1]) && cont(v[i + 2]) {
                3
            } else {
                0
            }
        } else if b0 == 240 {
            if rem >= 4 && 144 <= v[i + 1] && v[i + 1] <= 191 && cont(v[i + 2]) && cont(v[i + 3]) {
                4
            } else {
                0
            }
        } else if 241 <= b0 && b0 <= 243 {
            if rem >= 4 && cont(v[i + 1]) && cont(v[i + 2]) && cont(v[i + 3]) {
                4
            } else {
                0
            }
        } else if b0 == 244 {
            if rem >= 4 && 128 <= v[i + 1] && v[i + 1] <= 143 && cont(v[i + 2]) && cont(v[i + 3]) {
                4
            } else {
                0
            }
        } else {
            0
        };
        proof {
            assert(step == utf8_step(su));
        }
        if step == 0 {
            proof {
                assert(!is_utf8(su));
            }
            return false;
        }
        proof {
            assert(su.skip(step as int) =~= v@.skip(i + step));
            assert(is_utf8(su) == is_utf8(v@.skip(i + step)));
        }
        i = i + step;
    }
    proof {
        assert(v@.skip(n as int) =~= Seq::<u8>::empty());
    }
    true
}

fn cont(b: u8) -> (r: bool)
    ensures
        r == is_cont(b),
{
    128 <= b && b <= 191
}

/// The lines of a newline-terminated payload: the newline ends a line,
/// and a trailing newline does not open an empty final line.
pub open spec fn split_lines(s: Seq<u8>) -> Seq<Seq<u8>>
    decreases s.len(),
{
    if s.len() == 0 {
        Seq::empty()
    } else {
        let k = find_byte(s, 10);
        if 0 <= k < s.len() {
            seq![s.take(k)] + split_lines(s.skip(k + 1))
        } else {
            seq![s]
        }
    }
}

/// A bulk input line holds an id, a comma, and an in-range location.
pub open spec fn bulk_line_ok(line: Seq<u8>) -> bool {
    find_byte(line, 44) < line.len() && {
        let rest = line.skip(find_byte(line, 44) + 1);
        loc_wellformed(rest) && -crate::geom::MAX_LNG <= loc_lng(rest) <= crate::geom::MAX_LNG
            && -crate::geom::MAX_LAT <= loc_lat(rest) <= crate::geom::MAX_LAT
    }
}

/// The query point of a well-formed bulk line.
pub open spec fn bulk_line_point(line: Seq<u8>) -> Coord {
    let rest = line.skip(find_byte(line, 44) + 1);
    Coord { x: loc_lng(rest) as i64, y: loc_lat(rest) as i64 }
}

/// Every line of the payload is well formed.
pub open spec fn bulk_wellformed(lines: Seq<Seq<u8>>) -> bool {
    forall|i: int| 0 <= i < lines.len() ==> bulk_line_ok(#[trigger] lines[i])
}

/// The names of the given boundaries, comma-separated.
pub open spec fn names_joined(ms: Seq<BoundaryModel>, idxs: Seq<usize>) -> Seq<u8>
    decreases idxs.len(),
{
    if idxs.len() == 0 {
        Seq::empty()
    } else if idxs.len() == 1 {
        ms[idxs[0] as int].name
    } else {
        names_joined(ms, idxs.drop_last()) + seq![44u8] + ms[idxs.last() as int].name
    }
}

/// The output record for one bulk line: the id, a comma, the names of
/// the containing boundaries, and a newline.
pub open spec fn bulk_record(t: RTree, line: Seq<u8>) -> Seq<u8> {
    line.take(find_byte(line, 44)) + seq![44u8] + names_joined(
        models(t.boundaries@),
        t.locate_spec(bulk_line_point(line)),
    ) + seq![10u8]
}

/// The records of every line, in input order.
pub open spec fn bulk_records(t: RTree, lines: Seq<Seq<u8>>) -> Seq<Seq<u8>> {
    lines.map_values(|l: Seq<u8>| bulk_record(t, l))
}

/// The whole bulk output: the concatenation of the records.
pub open spec fn bulk_output(t: RTree, lines: Seq<Seq<u8>>) -> Seq<u8>
    decreases lines.len(),
{
    if lines.len() == 0 {
        Seq::empty()
    } else {
        bulk_output(t, lines.drop_last()) + bulk_record(t, lines.last())
    }
}

/// Concatenation of a list of byte strings.
pub open spec fn concat_all(rs: Seq<Seq<u8>>) -> Seq<u8>
    decreases rs.len(),
{
    if rs.len() == 0 {
        Seq::empty()
    } else {
        concat_all(rs.drop_last()) + rs.last()
    }
}

/// One output record per input line, in input order: the bulk output
/// is the concatenation of the per-line records, and there are exactly
/// as many records as lines.
pub proof fn lemma_bulk_output_lines(t: RTree, lines: Seq<Seq<u8>>)
    ensures
        bulk_records(t, lines).len() == lines.len(),
        bulk_output(t, lines) == concat_all(bulk_records(t, lines)),
    decreases lines.len(),
{
    if lines.len() > 0 {
        lemma_bulk_output_lines(t, lines.drop_last());
        assert(bulk_records(t, lines).drop_last() =~= bulk_records(t, lines.drop_last()));
        assert(bulk_records(t, lines).last() == bulk_record(t, lines.last()));
        assert(bulk_output(t, lines) =~= concat_all(bulk_records(t, lines)));
    }
}

/// No byte of the joined names is a newline when no listed boundary
/// name holds one.
proof fn lemma_names_joined_no_newline(ms: Seq<BoundaryModel>, idxs: Seq<usize>)
    requires
        forall|k: int| 0 <= k < idxs.len() ==> (#[trigger] idxs[k]) < ms.len(),
        forall|i: int| 0 <= i < ms.len() ==> !(#[trigger] ms[i]).name.contains(10u8),
    ensures
        forall|j: int|
            0 <= j < names_joined(ms, idxs).len() ==> #[trigger] names_joined(ms, idxs)[j]
                != 10u8,
    decreases idxs.len(),
{
    if idxs.len() == 0 {
    } else {
        let nm = ms[idxs.last() as int].name;
        assert forall|j: int| 0 <= j < nm.len() implies nm[j] != 10u8 by {
            if nm[j] == 10u8 {
                assert(nm.contains(10u8));
            }
        }
        let full = names_joined(ms, idxs);
        if idxs.len() == 1 {
            assert(full == nm);
        } else {
            assert(forall|k: int|
                0 <= k < idxs.drop_last().len() ==> (#[trigger] idxs.drop_last()[k]) < ms.len());
            lemma_names_joined_no_newline(ms, idxs.drop_last());
            let prefix = names_joined(ms, idxs.drop_last());
            assert forall|j: int| 0 <= j < full.len() implies #[trigger] full[j] != 10u8 by {
                if j < prefix.len() {
                    assert(full[j] == prefix[j]);
                } else if j == prefix.len() {
                    assert(full[j] == 44u8);
                } else {
                    assert(full[j] == nm[j - prefix.len() - 1]);
                }
            }
        }
    }
}

/// A bulk record's only newline is the one that terminates it, when
/// the input line and every boundary name are newline-free.
proof fn lemma_bulk_record_interior(t: RTree, line: Seq<u8>)
    requires
        t.wf(),
        !line.contains(10u8),
        forall|i: int|
            0 <= i < t.boundaries@.len() ==> !(#[trigger] models(t.boundaries@)[i]).name.contains(
                10u8,
            ),
    ensures
        bulk_record(t, line).len() > 0,
        bulk_record(t, line).last() == 10u8,
        forall|j: int|
            0 <= j < bulk_record(t, line).len() - 1 ==> #[trigger] bulk_record(t, line)[j]
                != 10u8,
{
    let ms = models(t.boundaries@);
    let p = bulk_line_point(line);
    let idxs = t.locate_spec(p);
    assert forall|k: int| 0 <= k < idxs.len() implies (#[trigger] idxs[k]) < ms.len() by {
        crate::rtree::lemma_locate_sound(t, p, k);
    }
    lemma_names_joined_no_newline(ms, idxs);
    crate::location::lemma_find_byte_bounds(line, 44);
    let id = line.take(find_byte(line, 44));
    assert forall|j: int| 0 <= j < id.len() implies id[j] != 10u8 by {
        if line[j] == 10u8 {
            assert(line.contains(10u8));
        }
    }
    let names = names_joined(ms, idxs);
    let rec = bulk_record(t, line);
    assert forall|j: int| 0 <= j < rec.len() - 1 implies #[trigger] rec[j] != 10u8 by {
        if j < id.len() {
            assert(rec[j] == id[j]);
        } else if j == id.len() {
            assert(rec[j] == 44u8);
        } else {
            assert(rec[j] == names[j - id.len() - 1]);
        }
    }
}

/// The bulk output of a non-empty line list starts with the first
/// line's record.
proof fn lemma_bulk_output_first(t: RTree, lines: Seq<Seq<u8>>)
    requires
        lines.len() > 0,
    ensures
        bulk_output(t, lines) == bulk_record(t, lines.first()) + bulk_output(
            t,
            lines.drop_first(),
        ),
    decreases lines.len(),
{
    if lines.len() == 1 {
        assert(lines.drop_last() =~= Seq::<Seq<u8>>::empty());
        assert(lines.drop_first() =~= Seq::<Seq<u8>>::empty());
        assert(bulk_output(t, lines) =~= bulk_record(t, lines.first()) + bulk_output(
            t,
            lines.drop_first(),
        ));
    } else {
        lemma_bulk_output_first(t, lines.drop_last());
        assert(lines.drop_last().first() == lines.first());
        assert(lines.drop_last().drop_first() =~= lines.drop_first().drop_last());
        assert(lines.drop_first().last() == lines.last());
        assert(bulk_output(t, lines) =~= bulk_record(t, lines.first()) + bulk_output(
            t,
            lines.drop_first(),
        ));
    }
}

/// Splitting after a record whose only newline is its terminator peels
/// off exactly that record.
proof fn lemma_split_lines_prepend(r: Seq<u8>, rest: Seq<u8>)
    requires
        r.len() > 0,
        r.last() == 10u8,
        forall|j: int| 0 <= j < r.len() - 1 ==> #[trigger] r[j] != 10u8,
    ensures
        split_lines(r + rest) == seq![r.drop_last()] + split_lines(rest),
{
    let s = r + rest;
    assert(forall|j: int| 0 <= j < r.len() - 1 ==> s[j] == #[trigger] r[j]);
    assert(s[r.len() - 1] == 10u8);
    crate::location::lemma_find_byte(s, 10u8, r.len() - 1);
    assert(s.take(r.len() - 1) =~= r.drop_last());
    assert(s.skip(r.len() as int) =~= rest);
    assert(split_lines(s) =~= seq![r.drop_last()] + split_lines(rest));
}

/// A split line holds no newline byte.
pub proof fn lemma_split_lines_no_newline(s: Seq<u8>)
    ensures
        forall|i: int| 0 <= i < split_lines(s).len() ==> !(#[trigger] split_lines(s)[i]).contains(
            10u8,
        ),
    decreases s.len(),
{
    crate::location::lemma_find_byte_bounds(s, 10);
    if s.len() > 0 {
        let k = find_byte(s, 10);
        let lns = split_lines(s);
        if 0 <= k < s.len() {
            lemma_split_lines_no_newline(s.skip(k + 1));
            assert forall|i: int|
                0 <= i < lns.len() implies !(#[trigger] lns[i]).contains(10u8) by {
                if i == 0 {
                    assert(lns[0] == s.take(k));
                    if s.take(k).contains(10u8) {
                        let w = choose|w: int| 0 <= w < k && s.take(k)[w] == 10u8;
                        assert(s[w] == 10u8);
                    }
                } else {
                    assert(lns[i] == split_lines(s.skip(k + 1))[i - 1]);
                }
            }
        } else {
            assert(lns[0] == s);
            if s.contains(10u8) {
                let w = choose|w: int| 0 <= w < s.len() && s[w] == 10u8;
            }
        }
    }
}

/// Every name of a well-formed tree is newline-free.
proof fn lemma_wf_names_no_newline(t: RTree)
    requires
        t.wf(),
    ensures
        forall|i: int|
            0 <= i < t.boundaries@.len() ==> !(#[trigger] models(t.boundaries@)[i]).name.contains(
                10u8,
            ),
{
    assert forall|i: int|
        0 <= i < t.boundaries@.len() implies !(#[trigger] models(
        t.boundaries@,
    )[i]).name.contains(10u8) by {
        crate::boundary::lemma_wf_is_model_wf(t.boundaries@[i]);
        assert(models(t.boundaries@)[i] == t.boundaries@[i]@);
    }
}

/// The bulk output splits back into exactly one line per input line,
/// in input order; output line `i` is the record of input line `i`
/// without its terminating newline. Names hold no newline by
/// well-formedness, so no record spans two lines.
pub proof fn lemma_bulk_output_line_count(t: RTree, lines: Seq<Seq<u8>>)
    requires
        t.wf(),
        forall|i: int| 0 <= i < lines.len() ==> !(#[trigger] lines[i]).contains(10u8),
    ensures
        split_lines(bulk_output(t, lines)).len() == lines.len(),
        forall|i: int|
            0 <= i < lines.len() ==> split_lines(bulk_output(t, lines))[i] == bulk_record(
                t,
                #[trigger] lines[i],
            ).drop_last(),
    decreases lines.len(),
{
    if lines.len() > 0 {
        let first = lines.first();
        let tail = lines.drop_first();
        lemma_bulk_output_first(t, lines);
        assert(lines.contains(first)) by {
            assert(lines[0] == first);
        }
        lemma_wf_names_no_newline(t);
        lemma_bulk_record_interior(t, first);
        lemma_split_lines_prepend(bulk_record(t, first), bulk_output(t, tail));
        assert(forall|i: int| 0 <= i < tail.len() ==> !(#[trigger] tail[i]).contains(10u8));
        lemma_bulk_output_line_count(t, tail);
        let whole = split_lines(bulk_output(t, lines));
        assert forall|i: int|
            0 <= i < lines.len() implies whole[i] == bulk_record(t, #[trigger] lines[i]).drop_last() by {
            if i == 0 {
                assert(whole[0] == bulk_record(t, first).drop_last());
            } else {
                assert(whole[i] == split_lines(bulk_output(t, tail))[i - 1]);
                assert(tail[i - 1] == lines[i]);
            }
        }
    }
}

/// The number of output lines of a bulk payload equals its number of
/// input lines, whatever the payload.
pub proof fn lemma_bulk_body_line_count(t: RTree, body: Seq<u8>)
    requires
        t.wf(),
    ensures
        split_lines(bulk_output(t, split_lines(body))).len() == split_lines(body).len(),
        forall|i: int|
            0 <= i < split_lines(body).len() ==> split_lines(bulk_output(t, split_lines(body)))[i]
                == bulk_record(t, #[trigger] split_lines(body)[i]).drop_last(),
{
    lemma_split_lines_no_newline(body);
    lemma_bulk_output_line_count(t, split_lines(body));
}

/// Every bulk record ends with exactly the newline it appends.
pub proof fn lemma_bulk_record_terminated(t: RTree, line: Seq<u8>)
    ensures
        bulk_record(t, line).len() > 0,
        bulk_record(t, line).last() == 10u8,
{
}

/// The whole bulk request is rejected.
#[derive(Clone, Copy, PartialEq, Eq, Structural, Debug)]
pub struct BulkError;

/// Splits a payload into lines, as `split_lines` does.
#[verifier::loop_isolation(false)]
pub fn split_lines_exec(body: &Vec<u8>) -> (r: Vec<Vec<u8>>)
    ensures
        r@.map_values(|l: Vec<u8>| l@) == split_lines(body@),
{
    let ghost f = |l: Vec<u8>| l@;
    let n = body.len();
    let mut out: Vec<Vec<u8>> = Vec::new();
    let mut pos: usize = 0;
    proof {
        assert(body@.skip(0) =~= body@);
        assert(out@.map_values(f) + split_lines(body@) =~= split_lines(body@));
    }
    while pos < n
        invariant
            0 <= pos <= n,
            n == body@.len(),
            out@.map_values(|l: Vec<u8>| l@) + split_lines(body@.skip(pos as int)) == split_lines(
                body@,
            ),
        decreases n - pos,
    {
        let ghost s = body@.skip(pos as int);
        // find the end of the current line
        let mut k: usize = pos;
        while k < n && body[k] != 10
            invariant
                pos <= k <= n,
                forall|j: int| pos <= j < k ==> body@[j] != 10,
            decreases n - k,
        {
            k = k + 1;
        }
        proof {
            assert(forall|j: int| 0 <= j < k - pos ==> s[j] == body@[pos + j] && body@[pos + j] != 10);
            crate::location::lemma_find_byte(s, 10, k - pos);
        }
        let mut line: Vec<u8> = Vec::new();
        let mut j: usize = pos;
        while j < k
            invariant
                pos <= j <= k <= n,
                line@ == body@.subrange(pos as int, j as int),
            decreases k - j,
        {
            line.push(body[j]);
            proof {
                assert(line@ =~= body@.subrange(pos as int, j + 1));
            }
            j = j + 1;
        }
        proof {
            assert(line@ =~= s.take(k - pos));
            let f2 = |l: Vec<u8>| l@;
            if k < n {
                assert(s.skip(k - pos + 1) =~= body@.skip(k + 1));
                assert(split_lines(s) =~= seq![line@] + split_lines(body@.skip(k + 1)));
            } else {
                assert(s.take(k - pos) =~= s);
                assert(split_lines(s) =~= seq![line@]);
                assert(split_lines(body@.skip(n as int)) =~= Seq::<Seq<u8>>::empty());
            }
            assert(out@.push(line).map_values(f2) =~= out@.map_values(f2) + seq![line@]);
        }
        out.push(line);
        if k < n {
            pos = k + 1;
        } else {
            pos = n;
        }
        proof {
            assert(out@.map_values(|l: Vec<u8>| l@) + split_lines(body@.skip(pos as int)) =~= split_lines(
                body@,
            ));
        }
    }
    proof {
        assert(body@.skip(n as int) =~= Seq::<u8>::empty());
        assert(split_lines(body@.skip(n as int)) =~= Seq::<Seq<u8>>::empty());
        assert(out@.map_values(|l: Vec<u8>| l@) =~= split_lines(body@));
    }
    out
}

/// Processes one bulk line into its output record, appended to `out`.
#[verifier::loop_isolation(false)]
pub fn process_line(t: &RTree, line: &Vec<u8>, out: &mut Vec<u8>) -> (ok: bool)
    requires
        t.wf(),
    ensures
        ok == bulk_line_ok(line@),
        ok ==> final(out)@ == old(out)@ + bulk_record(*t, line@),
        !ok ==> final(out)@ == old(out)@,
{
    let n = line.len();
    let mut c: usize = 0;
    while c < n && line[c] != 44
        invariant
            0 <= c <= n,
            forall|j: int| 0 <= j < c ==> line@[j] != 44,
        decreases n - c,
    {
        c = c + 1;
    }
    proof {
        crate::location::lemma_find_byte(line@, 44, c as int);
    }
    if c == n {
        return false;
    }
    let mut rest: Vec<u8> = Vec::new();
    let mut j: usize = c + 1;
    while j < n
        invariant
            c + 1 <= j <= n,
            rest@ == line@.subrange(c + 1 as int, j as int),
        decreases n - j,
    {
        rest.push(line[j]);
        proof {
            assert(rest@ =~= line@.subrange(c + 1 as int, j + 1));
        }
        j = j + 1;
    }
    proof {
        assert(rest@ =~= line@.skip(c + 1));
    }
    let loc = match parse_location(&rest) {
        Ok(loc) => loc,
        Err(_) => {
            return false;
        },
    };
    let p = loc.point();
    let idxs = t.locate(p);
    proof {
        assert(p == bulk_line_point(line@));
        assert forall|k: int|
            0 <= k < idxs@.len() implies (#[trigger] idxs@[k]) < t.boundaries@.len() by {
            crate::rtree::lemma_locate_sound(*t, p, k);
        }
    }
    // the id, the comma, the names, the newline
    let mut i: usize = 0;
    while i < c
        invariant
            0 <= i <= c <= n,
            out@ == old(out)@ + line@.subrange(0, i as int),
        decreases c - i,
    {
        out.push(line[i]);
        proof {
            assert(out@ =~= old(out)@ + line@.subrange(0, i + 1));
        }
        i = i + 1;
    }
    proof {
        assert(line@.subrange(0, c as int) =~= line@.take(c as int));
    }
    out.push(44);
    let ghost ms = models(t.boundaries@);
    let ghost head = old(out)@ + line@.take(c as int) + seq![44u8];
    let mut k: usize = 0;
    proof {
        assert(out@ =~= head + names_joined(ms, idxs@.take(0)));
    }
    while k < idxs.len()
        invariant
            0 <= k <= idxs@.len(),
            out@ == head + names_joined(ms, idxs@.take(k as int)),
        decreases idxs@.len() - k,
    {
        proof {
            assert(idxs@.take(k + 1).drop_last() =~= idxs@.take(k as int));
            assert(idxs@.take(k + 1).last() == idxs@[k as int]);
        }
        if k > 0 {
            out.push(44);
        }
        let b = t.get(idxs[k]);
        let mut q: usize = 0;
        let ghost mid = out@;
        while q < b.name.len()
            invariant
                0 <= q <= b.name@.len(),
                out@ == mid + b.name@.take(q as int),
            decreases b.name@.len() - q,
        {
            out.push(b.name[q]);
            proof {
                assert(out@ =~= mid + b.name@.take(q + 1));
            }
            q = q + 1;
        }
        proof {
            assert(b.name@.take(b.name@.len() as int) =~= b.name@);
            assert(ms[idxs@[k as int] as int] == t.boundaries@[idxs@[k as int] as int]@);
            assert(out@ =~= head + names_joined(ms, idxs@.take(k + 1)));
        }
        k = k + 1;
    }
    out.push(10);
    proof {
        assert(idxs@.take(idxs@.len() as int) =~= idxs@);
        assert(out@ =~= old(out)@ + bulk_record(*t, line@));
    }
    true
}

/// The output record for one bulk line, or nothing when the line is
/// rejected; one call per line lets callers fan lines out to workers
/// and reassemble the records in input order.
pub fn bulk_line(t: &RTree, line: &Vec<u8>) -> (r: Option<Vec<u8>>)
    requires
        t.wf(),
    ensures
        match r {
            Some(out) => bulk_line_ok(line@) && out@ == bulk_record(*t, line@),
            None => !bulk_line_ok(line@),
        },
{
    let mut out: Vec<u8> = Vec::new();
    if process_line(t, line, &mut out) {
        Some(out)
    } else {
        None
    }
}

/// Processes a whole bulk payload: decodes it as UTF-8, splits it into
/// lines and answers each one. Rejects the whole payload if it is not
/// valid UTF-8 or any line is malformed or out of range.
#[verifier::loop_isolation(false)]
pub fn process_bulk(t: &RTree, body: &Vec<u8>) -> (r: Result<Vec<u8>, BulkError>)
    requires
        t.wf(),
    ensures
        match r {
            Ok(out) => is_utf8(body@) && bulk_wellformed(split_lines(body@)) && out@
                == bulk_output(*t, split_lines(body@)),
            Err(_) => !(is_utf8(body@) && bulk_wellformed(split_lines(body@))),
        },
{
    if !check_utf8(body) {
        return Err(BulkError);
    }
    let lines = split_lines_exec(body);
    let ghost lns = split_lines(body@);
    let mut out: Vec<u8> = Vec::new();
    let mut i: usize = 0;
    proof {
        assert(out@ =~= bulk_output(*t, lns.take(0)));
    }
    while i < lines.len()
        invariant
            0 <= i <= lines@.len(),
            lines@.map_values(|l: Vec<u8>| l@) == lns,
            out@ == bulk_output(*t, lns.take(i as int)),
            forall|j: int| 0 <= j < i ==> bulk_line_ok(#[trigger] lns[j]),
        decreases lines@.len() - i,
    {
        proof {
            assert(lns[i as int] == lines@[i as int]@);
            assert(lns.take(i + 1).drop_last() =~= lns.take(i as int));
            assert(lns.take(i + 1).last() == lns[i as int]);
        }
        let ok = process_line(t, &lines[i], &mut out);
        if !ok {
            return Err(BulkError);
        }
        i = i + 1;
    }
    proof {
        assert(lns.take(lns.len() as int) =~= lns);
    }
    Ok(out)
}

/// Index of the last newline, or -1 if none.
pub open spec fn last_newline(s: Seq<u8>) -> int
    decreases s.len(),
{
    if s.len() == 0 {
        -1
    } else if s.last() == 10 {
        s.len() - 1
    } else {
        last_newline(s.drop_last())
    }
}

/// The streaming bulk state: the trailing partial line carried over
/// between chunks.
pub struct BulkStream {
    pub carry: Vec<u8>,
}

impl BulkStream {
    /// Starts a stream with nothing carried over.
    pub fn new() -> (s: BulkStream)
        ensures
            s.carry@ == Seq::<u8>::empty(),
    {
        BulkStream { carry: Vec::new() }
    }

    /// Consumes one chunk: appends it to the carryover, decodes and
    /// answers every line completed by it, and keeps the trailing
    /// partial line. On a decode failure or a malformed line the
    /// stream fails, as the whole request does.
    #[verifier::loop_isolation(false)]
    pub fn feed(&mut self, t: &RTree, chunk: &Vec<u8>) -> (r: Result<Vec<u8>, BulkError>)
        requires
            t.wf(),
        ensures
            ({
                let s = old(self).carry@ + chunk@;
                let cut = last_newline(s) + 1;
                match r {
                    Ok(out) => final(self).carry@ == s.skip(cut) && is_utf8(s.take(cut))
                        && bulk_wellformed(split_lines(s.take(cut))) && out@ == bulk_output(
                        *t,
                        split_lines(s.take(cut)),
                    ),
                    Err(_) => !(is_utf8(s.take(cut)) && bulk_wellformed(split_lines(s.take(cut)))),
                }
            }),
    {
        let ghost s = self.carry@ + chunk@;
        let mut q: usize = 0;
        while q < chunk.len()
            invariant
                0 <= q <= chunk@.len(),
                self.carry@ == old(self).carry@ + chunk@.take(q as int),
            decreases chunk@.len() - q,
        {
            self.carry.push(chunk[q]);
            proof {
                assert(self.carry@ =~= old(self).carry@ + chunk@.take(q + 1));
            }
            q = q + 1;
        }
        proof {
            assert(chunk@.take(chunk@.len() as int) =~= chunk@);
            assert(self.carry@ =~= s);
        }
        // find the last newline
        let n = self.carry.len();
        let mut cut: usize = n;
        while cut > 0 && self.carry[cut - 1] != 10
            invariant
                0 <= cut <= n,
                forall|j: int| cut <= j < n ==> self.carry@[j] != 10,
                self.carry@ == s,
            decreases cut,
        {
            cut = cut - 1;
        }
        proof {
            lemma_last_newline(s, cut as int - 1);
        }
        let mut complete: Vec<u8> = Vec::new();
        let mut j: usize = 0;
        while j < cut
            invariant
                0 <= j <= cut <= n,
                complete@ == s.take(j as int),
                self.carry@ == s,
            decreases cut - j,
        {
            complete.push(self.carry[j]);
            proof {
                assert(complete@ =~= s.take(j + 1));
            }
            j = j + 1;
        }
        let mut rest: Vec<u8> = Vec::new();
        let mut j2: usize = cut;
        while j2 < n
            invariant
                cut <= j2 <= n,
                rest@ == s.subrange(cut as int, j2 as int),
                self.carry@ == s,
            decreases n - j2,
        {
            rest.push(self.carry[j2]);
            proof {
                assert(rest@ =~= s.subrange(cut as int, j2 + 1));
            }
            j2 = j2 + 1;
        }
        proof {
            assert(rest@ =~= s.skip(cut as int));
        }
        self.carry = rest;
        process_bulk(t, &complete)
    }

    /// Ends the stream: the carryover, if any, is decoded and answered
    /// as one final line.
    pub fn finish(self, t: &RTree) -> (r: Result<Vec<u8>, BulkError>)
        requires
            t.wf(),
        ensures
            match r {
                Ok(out) => is_utf8(self.carry@) && bulk_wellformed(split_lines(self.carry@))
                    && out@ == bulk_output(*t, split_lines(self.carry@)),
                Err(_) => !(is_utf8(self.carry@) && bulk_wellformed(split_lines(self.carry@))),
            },
    {
        process_bulk(t, &self.carry)
    }
}

/// A scan from the right that stopped at a newline, or passed the
/// front, names the last newline.
proof fn lemma_last_newline(s: Seq<u8>, k: int)
    requires
        -1 <= k < s.len(),
        forall|j: int| k < j < s.len() ==> s[j] != 10,
        k == -1 || s[k] == 10,
    ensures
        last_newline(s) == k,
    decreases s.len(),
{
    if s.len() > 0 {
        if k == s.len() - 1 {
        } else {
            assert(s.last() != 10);
            assert(forall|j: int| k < j < s.len() - 1 ==> s.drop_last()[j] == s[j]);
            lemma_last_newline(s.drop_last(), k);
        }
    }
}

} // verus!
