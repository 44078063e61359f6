//! Query locations and their textual form.
//!
//! A location is a longitude/latitude pair in fixed-point units
//! (degrees scaled by 1e7). The textual form is two comma-separated
//! decimal numbers, each an optional sign, digits with an optional
//! point, and an optional exponent; the value is truncated beyond the
//! seventh fractional digit, after the exponent shift.

use crate::boundary::{all_digits, digits_val, is_digit, lemma_digits_val_nonneg};
use crate::geom::{Coord, MAX_LAT, MAX_LNG};
use vstd::prelude::*;

verus! {

/// A validated query location, fixed-point scaled by 1e7.
#[derive(Clone, Copy, PartialEq, Eq, Structural, Debug)]
pub struct Location {
    pub lng: i64,
    pub lat: i64,
}

/// Why a location was rejected.
#[derive(Clone, Copy, PartialEq, Eq, Structural, Debug)]
pub enum LocationError {
    /// Not two comma-separated decimal numbers.
    Malformed,
    /// Longitude outside [-180, 180] degrees.
    LngOutOfRange,
    /// Latitude outside [-90, 90] degrees.
    LatOutOfRange,
}

impl Location {
    /// Both coordinates lie in the valid ranges.
    pub open spec fn valid(self) -> bool {
        -MAX_LNG <= self.lng <= MAX_LNG && -MAX_LAT <= self.lat <= MAX_LAT
    }

    /// The query point of this location.
    pub open spec fn spec_point(self) -> Coord {
        Coord { x: self.lng, y: self.lat }
    }

    /// Builds a location, rejecting out-of-range coordinates; the
    /// longitude is checked first.
    pub fn new(lng: i64, lat: i64) -> (r: Result<Location, LocationError>)
        ensures
            match r {
                Ok(loc) => loc == (Location { lng, lat }) && loc.valid(),
                Err(e) => (e == LocationError::LngOutOfRange && !(-MAX_LNG <= lng <= MAX_LNG)) || (
                e == LocationError::LatOutOfRange && -MAX_LNG <= lng <= MAX_LNG && !(-MAX_LAT <= lat
                    <= MAX_LAT)),
            },
    {
        if lng < -MAX_LNG || lng > MAX_LNG {
            Err(LocationError::LngOutOfRange)
        } else if lat < -MAX_LAT || lat > MAX_LAT {
            Err(LocationError::LatOutOfRange)
        } else {
            Ok(Location { lng, lat })
        }
    }

    /// The query point of this location.
    pub fn point(&self) -> (p: Coord)
        ensures
            p == self.spec_point(),
    {
        Coord { x: self.lng, y: self.lat }
    }
}

/// Index of the first occurrence of `b`, or the length if none.
pub open spec fn find_byte(s: Seq<u8>, b: u8) -> int
    decreases s.len(),
{
    if s.len() == 0 {
        0
    } else if s[0] == b {
        0
    } else {
        1 + find_byte(s.skip(1), b)
    }
}

/// Number of occurrences of `b`.
pub open spec fn count_byte(s: Seq<u8>, b: u8) -> int
    decreases s.len(),
{
    if s.len() == 0 {
        0
    } else {
        count_byte(s.drop_last(), b) + if s.last() == b {
            1int
        } else {
            0int
        }
    }
}

/// `find_byte` names the first occurrence.
pub proof fn lemma_find_byte(s: Seq<u8>, b: u8, k: int)
    requires
        0 <= k <= s.len(),
        forall|j: int| 0 <= j < k ==> s[j] != b,
        k == s.len() || s[k] == b,
    ensures
        find_byte(s, b) == k,
    decreases k,
{
    if s.len() > 0 && k > 0 {
        let t = s.skip(1);
        assert(forall|j: int| 0 <= j < k - 1 ==> t[j] == s[j + 1] && s[j + 1] != b);
        assert(k - 1 == t.len() || t[k - 1] == b);
        lemma_find_byte(t, b, k - 1);
    }
}

/// `find_byte` is a position in the sequence, at an occurrence if any.
pub proof fn lemma_find_byte_bounds(s: Seq<u8>, b: u8)
    ensures
        0 <= find_byte(s, b) <= s.len(),
        find_byte(s, b) < s.len() ==> s[find_byte(s, b)] == b,
        forall|j: int| 0 <= j < find_byte(s, b) ==> s[j] != b,
    decreases s.len(),
{
    if s.len() > 0 && s[0] != b {
        lemma_find_byte_bounds(s.skip(1), b);
        let t = s.skip(1);
        assert forall|j: int| 0 <= j < find_byte(s, b) implies s[j] != b by {
            if j > 0 {
                assert(t[j - 1] != b);
                assert(s[j] == t[j - 1]);
            }
        }
    }
}

/// Length of the sign prefix: one for a leading plus or minus.
pub open spec fn sign_len(s: Seq<u8>) -> int {
    if s.len() > 0 && (s[0] == 43 || s[0] == 45) {
        1
    } else {
        0
    }
}

/// The sign: -1 for a leading minus, else 1.
pub open spec fn sign_of(s: Seq<u8>) -> int {
    if s.len() > 0 && s[0] == 45 {
        -1
    } else {
        1
    }
}

/// Index of the first exponent marker (`e` or `E`), or the length if
/// none.
pub open spec fn exp_pos(s: Seq<u8>) -> int {
    let a = find_byte(s, 101);
    let b = find_byte(s, 69);
    if a <= b {
        a
    } else {
        b
    }
}

/// Everything before the exponent marker.
pub open spec fn mantissa(s: Seq<u8>) -> Seq<u8> {
    s.take(exp_pos(s))
}

/// The string carries an exponent part.
pub open spec fn has_exp(s: Seq<u8>) -> bool {
    exp_pos(s) < s.len()
}

/// Everything after the exponent marker.
pub open spec fn exp_text(s: Seq<u8>) -> Seq<u8> {
    s.skip(exp_pos(s) + 1)
}

/// The exponent part is an optional sign and at least one digit.
pub open spec fn exp_wf(t: Seq<u8>) -> bool {
    let d = t.skip(sign_len(t));
    d.len() > 0 && all_digits(d)
}

/// Value of the exponent part.
pub open spec fn exp_val(t: Seq<u8>) -> int {
    sign_of(t) * digits_val(t.skip(sign_len(t)))
}

/// Digits before the decimal point of a mantissa.
pub open spec fn int_part(s: Seq<u8>) -> Seq<u8> {
    let body = s.skip(sign_len(s));
    body.take(find_byte(body, 46))
}

/// Digits after the decimal point of a mantissa; empty if there is
/// none.
pub open spec fn frac_part(s: Seq<u8>) -> Seq<u8> {
    let body = s.skip(sign_len(s));
    let d = find_byte(body, 46);
    if d < body.len() {
        body.skip(d + 1)
    } else {
        Seq::empty()
    }
}

/// The byte string is a decimal number as `f64` parsing accepts it
/// (infinities and not-a-number aside): an optional sign, digits with
/// at most one point and at least one digit, then an optional exponent
/// part.
pub open spec fn is_fixed_decimal(s: Seq<u8>) -> bool {
    let m = mantissa(s);
    &&& all_digits(int_part(m))
    &&& all_digits(frac_part(m))
    &&& int_part(m).len() + frac_part(m).len() > 0
    &&& (has_exp(s) ==> exp_wf(exp_text(s)))
}

/// The digit window of a fixed-point value: the digits of `d` read
/// with the decimal point at position `p`, keeping seven fractional
/// digits — zeros padded in, anything further truncated.
pub open spec fn pointed7(d: Seq<u8>, p: int) -> Seq<u8> {
    Seq::new(
        if p + 7 >= 0 {
            (p + 7) as nat
        } else {
            0
        },
        |j: int|
            if 0 <= j < d.len() {
                d[j]
            } else {
                48u8
            },
    )
}

/// Fixed-point value of a decimal byte string: degrees scaled by 1e7,
/// the exponent shifting the decimal point, truncation toward zero
/// beyond the seventh fractional digit.
pub open spec fn fixed_decimal_val(s: Seq<u8>) -> int {
    let m = mantissa(s);
    let e = if has_exp(s) {
        exp_val(exp_text(s))
    } else {
        0
    };
    sign_of(m) * digits_val(pointed7(int_part(m) + frac_part(m), int_part(m).len() + e))
}

/// Outcome of parsing one decimal field.
pub enum FixedParse {
    /// The exact fixed-point value.
    Val(i64),
    /// A decimal number whose magnitude exceeds the longitude range.
    TooBig,
    /// Not a decimal number.
    Bad,
}

proof fn lemma_leading_zero(t: Seq<u8>)
    ensures
        digits_val(seq![48u8] + t) == digits_val(t),
    decreases t.len(),
{
    let s = seq![48u8] + t;
    if t.len() == 0 {
        assert(s.len() == 1);
        assert(s.drop_last() =~= Seq::<u8>::empty());
        assert(digits_val(Seq::<u8>::empty()) == 0);
        assert(digits_val(s) == 0);
    } else {
        assert(s.drop_last() =~= seq![48u8] + t.drop_last());
        lemma_leading_zero(t.drop_last());
        assert(s.last() == t.last());
    }
}

proof fn lemma_strip_zeros(s: Seq<u8>, k: int)
    requires
        0 <= k <= s.len(),
        forall|j: int| 0 <= j < k ==> s[j] == 48,
    ensures
        digits_val(s) == digits_val(s.skip(k)),
    decreases k,
{
    if k > 0 {
        assert(s =~= seq![48u8] + s.skip(1));
        lemma_leading_zero(s.skip(1));
        let t = s.skip(1);
        assert(forall|j: int| 0 <= j < k - 1 ==> t[j] == s[j + 1] && s[j + 1] == 48);
        lemma_strip_zeros(t, k - 1);
        assert(t.skip(k - 1) =~= s.skip(k));
    } else {
        assert(s.skip(0) =~= s);
    }
}

/// Powers of ten.
pub open spec fn pow10(n: nat) -> int
    decreases n,
{
    if n == 0 {
        1
    } else {
        10 * pow10((n - 1) as nat)
    }
}

proof fn lemma_pow10_pos(n: nat)
    ensures
        pow10(n) >= 1,
    decreases n,
{
    if n > 0 {
        lemma_pow10_pos((n - 1) as nat);
    }
}

proof fn lemma_pow10_mono(a: nat, b: nat)
    requires
        a <= b,
    ensures
        pow10(a) <= pow10(b),
    decreases b,
{
    if a < b {
        lemma_pow10_mono(a, (b - 1) as nat);
        lemma_pow10_pos((b - 1) as nat);
    }
}

proof fn lemma_pow10_vals()
    ensures
        pow10(0) == 1,
        pow10(1) == 10,
        pow10(2) == 100,
        pow10(3) == 1000,
        pow10(7) == 10_000_000,
        pow10(10) == 10_000_000_000,
        pow10(20) == 100_000_000_000_000_000_000,
{
    assert(pow10(0) == 1);
    assert(pow10(1) == 10);
    assert(pow10(2) == 100);
    assert(pow10(3) == 1000);
    assert(pow10(4) == 10_000);
    assert(pow10(5) == 100_000);
    assert(pow10(6) == 1_000_000);
    assert(pow10(7) == 10_000_000);
    assert(pow10(8) == 100_000_000);
    assert(pow10(9) == 1_000_000_000);
    assert(pow10(10) == 10_000_000_000);
    assert(pow10(11) == 100_000_000_000);
    assert(pow10(12) == 1_000_000_000_000);
    assert(pow10(13) == 10_000_000_000_000);
    assert(pow10(14) == 100_000_000_000_000);
    assert(pow10(15) == 1_000_000_000_000_000);
    assert(pow10(16) == 10_000_000_000_000_000);
    assert(pow10(17) == 100_000_000_000_000_000);
    assert(pow10(18) == 1_000_000_000_000_000_000);
    assert(pow10(19) == 10_000_000_000_000_000_000);
    assert(pow10(20) == 100_000_000_000_000_000_000);
}

/// A string of digits is bounded by ten to its length.
proof fn lemma_digits_upper(s: Seq<u8>)
    requires
        all_digits(s),
    ensures
        0 <= digits_val(s) < pow10(s.len()),
    decreases s.len(),
{
    if s.len() > 0 {
        assert(all_digits(s.drop_last()));
        lemma_digits_upper(s.drop_last());
    }
}

/// A digit string with a non-zero leading digit reaches ten to one
/// less than its length.
proof fn lemma_digits_lower(s: Seq<u8>)
    requires
        all_digits(s),
        s.len() >= 1,
        s[0] != 48,
    ensures
        digits_val(s) >= pow10((s.len() - 1) as nat),
    decreases s.len(),
{
    if s.len() == 1 {
        assert(s.drop_last() =~= Seq::<u8>::empty());
        assert(digits_val(Seq::<u8>::empty()) == 0);
    } else {
        let t = s.drop_last();
        assert(all_digits(t));
        assert(t[0] == s[0]);
        lemma_digits_lower(t);
        assert(digits_val(s) == digits_val(t) * 10 + (s.last() - 48));
        assert(digits_val(t) * 10 >= pow10((s.len() - 2) as nat) * 10);
    }
}

/// Leading zeros of the digit source do not change the window's value.
proof fn lemma_pointed7_strip(d: Seq<u8>, p: int, z: int)
    requires
        0 <= z <= d.len(),
        forall|j: int| 0 <= j < z ==> d[j] == 48,
    ensures
        digits_val(pointed7(d, p)) == digits_val(pointed7(d.skip(z), p - z)),
{
    let e1 = pointed7(d, p);
    let e2 = pointed7(d.skip(z), p - z);
    if p + 7 <= 0 {
        assert(e1 =~= Seq::<u8>::empty());
        assert(e2 =~= Seq::<u8>::empty());
    } else if p + 7 <= z {
        assert(forall|j: int| 0 <= j < e1.len() ==> e1[j] == 48);
        lemma_strip_zeros(e1, e1.len() as int);
        assert(e1.skip(e1.len() as int) =~= Seq::<u8>::empty());
        assert(digits_val(Seq::<u8>::empty()) == 0);
        assert(e2 =~= Seq::<u8>::empty());
    } else {
        assert(forall|j: int| 0 <= j < z ==> e1[j] == 48);
        lemma_strip_zeros(e1, z);
        assert(e1.skip(z) =~= e2);
    }
}

/// A digit source of zeros only gives a zero window.
proof fn lemma_pointed7_zeros(d: Seq<u8>, p: int)
    requires
        forall|j: int| 0 <= j < d.len() ==> d[j] == 48,
    ensures
        digits_val(pointed7(d, p)) == 0,
{
    let e1 = pointed7(d, p);
    assert(forall|j: int| 0 <= j < e1.len() ==> e1[j] == 48);
    lemma_strip_zeros(e1, e1.len() as int);
    assert(e1.skip(e1.len() as int) =~= Seq::<u8>::empty());
    assert(digits_val(Seq::<u8>::empty()) == 0);
}

/// Reads the exponent digits `s[ed0..]` into an exact value, or
/// reports saturation once the value reaches ten to the twentieth.
#[verifier::loop_isolation(false)]
fn exp_digits_value(s: &Vec<u8>, ed0: usize) -> (r: (i128, bool))
    requires
        ed0 <= s@.len(),
        all_digits(s@.subrange(ed0 as int, s@.len() as int)),
    ensures
        ({
            let dv = digits_val(s@.subrange(ed0 as int, s@.len() as int));
            &&& 0 <= r.0 < pow10(20)
            &&& (!r.1 ==> r.0 == dv)
            &&& (r.1 ==> dv >= pow10(20))
        }),
{
    let n = s.len();
    let ghost d = s@.subrange(ed0 as int, n as int);
    proof {
        lemma_pow10_vals();
        lemma_digits_val_nonneg(d);
    }
    // skip leading zeros
    let mut z: usize = ed0;
    while z < n && s[z] == 48
        invariant
            ed0 <= z <= n,
            forall|j: int| ed0 <= j < z ==> s@[j] == 48,
        decreases n - z,
    {
        z = z + 1;
    }
    let ghost sig = d.skip(z - ed0);
    proof {
        assert(forall|j: int| 0 <= j < z - ed0 ==> d[j] == s@[ed0 + j] && s@[ed0 + j] == 48);
        lemma_strip_zeros(d, z - ed0);
        assert(all_digits(sig));
        assert(forall|j: int| 0 <= j < sig.len() ==> sig[j] == s@[z + j]);
    }
    if n - z > 20 {
        proof {
            assert(sig[0] == s@[z as int]);
            assert(sig[0] != 48);
            lemma_digits_lower(sig);
            lemma_pow10_mono(20, (sig.len() - 1) as nat);
        }
        return (0, true);
    }
    let mut acc: i128 = 0;
    let mut k: usize = z;
    while k < n
        invariant
            z <= k <= n,
            n - z <= 20,
            0 <= acc,
            acc < pow10((k - z) as nat),
            acc == digits_val(sig.take(k - z)),
        decreases n - k,
    {
        proof {
            let pre = sig.take(k - z);
            let post = sig.take(k - z + 1);
            assert(post.drop_last() =~= pre);
            assert(post.last() == s@[k as int]);
            lemma_digits_val_nonneg(pre);
            lemma_pow10_mono((k - z) as nat, 19);
            lemma_pow10_vals();
        }
        acc = acc * 10 + (s[k] - 48) as i128;
        k = k + 1;
    }
    proof {
        assert(sig.take(sig.len() as int) =~= sig);
        lemma_pow10_mono(((n - z) as nat), 20);
    }
    (acc, false)
}

/// Parses one decimal field to its fixed-point value.
#[verifier::loop_isolation(false)]
#[verifier::rlimit(100)]
pub fn parse_fixed(s: &Vec<u8>) -> (r: FixedParse)
    ensures
        match r {
            FixedParse::Val(v) => is_fixed_decimal(s@) && v == fixed_decimal_val(s@) && -MAX_LNG
                <= v <= MAX_LNG,
            FixedParse::TooBig => is_fixed_decimal(s@) && !(-MAX_LNG <= fixed_decimal_val(s@)
                <= MAX_LNG),
            FixedParse::Bad => !is_fixed_decimal(s@),
        },
{
    let n = s.len();
    let start: usize = if n > 0 && (s[0] == 43 || s[0] == 45) {
        1
    } else {
        0
    };
    let negative = n > 0 && s[0] == 45;
    // scan the mantissa: digits around at most one point, up to the
    // first exponent marker
    let mut i: usize = start;
    let mut dot: usize = n;
    while i < n && s[i] != 101 && s[i] != 69 && (s[i] == 46 || (s[i] >= 48 && s[i] <= 57))
        invariant
            start <= i <= n,
            dot == n || (start <= dot < i && s@[dot as int] == 46),
            forall|j: int| start <= j < i && j != dot ==> is_digit(#[trigger] s@[j]),
            forall|j: int| start <= j < i ==> s@[j] != 101 && s@[j] != 69,
            forall|j: int| start <= j < i && j != dot ==> s@[j] != 46,
        decreases n - i,
    {
        if s[i] == 46 {
            if dot < n {
                // a second point: not a decimal number
                proof {
                    lemma_exp_pos_beyond(s@, i + 1 as int);
                    lemma_find_byte_bounds(s@, 101);
                    lemma_find_byte_bounds(s@, 69);
                    let m = mantissa(s@);
                    assert(exp_pos(s@) <= s@.len());
                    assert(m.len() == exp_pos(s@));
                    assert(m.len() >= i + 1);
                    assert(m[0] == s@[0]);
                    assert(sign_len(m) == start);
                    let bodym = m.skip(start as int);
                    assert(forall|j: int| 0 <= j < m.len() ==> #[trigger] m[j] == s@[j]);
                    assert(forall|j: int|
                        0 <= j < bodym.len() ==> #[trigger] bodym[j] == m[j + start]);
                    lemma_find_byte(bodym, 46, dot - start);
                    assert(frac_part(m)[i - dot - 1] == bodym[i - start]);
                    assert(bodym[i - start] == s@[i as int]);
                    assert(!all_digits(frac_part(m)));
                }
                return FixedParse::Bad;
            }
            dot = i;
        }
        i = i + 1;
    }
    let epos = i;
    if i < n && s[i] != 101 && s[i] != 69 {
        // an offending character inside the mantissa
        proof {
            lemma_exp_pos_beyond(s@, i + 1 as int);
            lemma_find_byte_bounds(s@, 101);
            lemma_find_byte_bounds(s@, 69);
            let m = mantissa(s@);
            assert(exp_pos(s@) <= s@.len());
            assert(m.len() == exp_pos(s@));
            assert(m.len() >= i + 1);
            assert(m[0] == s@[0]);
            assert(sign_len(m) == start);
            let bodym = m.skip(start as int);
            assert(forall|j: int| 0 <= j < m.len() ==> #[trigger] m[j] == s@[j]);
            assert(forall|j: int| 0 <= j < bodym.len() ==> #[trigger] bodym[j] == m[j + start]);
            if dot < n {
                lemma_find_byte(bodym, 46, dot - start);
                assert(frac_part(m)[i - dot - 1] == bodym[i - start]);
                assert(bodym[i - start] == s@[i as int]);
                assert(!all_digits(frac_part(m)));
            } else {
                lemma_find_byte_bounds(bodym, 46);
                let dpos = find_byte(bodym, 46);
                if dpos <= i - start {
                    assert(bodym[dpos] == 46);
                    assert(bodym[dpos] == s@[start + dpos]);
                    assert(false);
                }
                assert(int_part(m)[i - start] == bodym[i - start]);
                assert(bodym[i - start] == s@[i as int]);
                assert(!all_digits(int_part(m)));
            }
        }
        return FixedParse::Bad;
    }
    proof {
        lemma_exp_pos_exact(s@, start as int, epos as int);
    }
    let ghost m = mantissa(s@);
    let dotm: usize = if dot < epos {
        dot
    } else {
        epos
    };
    proof {
        assert(m =~= s@.take(epos as int));
        assert(m.len() == epos);
        if epos > 0 {
            assert(m[0] == s@[0]);
        }
        assert(sign_len(m) == start || (epos == 0 && start == 1));
        let bodym = m.skip(start as int);
        assert(forall|j: int| 0 <= j < m.len() ==> #[trigger] m[j] == s@[j]);
        if sign_len(m) == start {
            assert(forall|j: int| 0 <= j < bodym.len() ==> #[trigger] bodym[j] == m[j + start]);
        }
        if dot < epos {
            lemma_find_byte(bodym, 46, dot - start);
        } else {
            lemma_find_byte(bodym, 46, bodym.len() as int);
        }
        assert(find_byte(bodym, 46) == dotm - start);
        assert(int_part(m) =~= s@.subrange(start as int, dotm as int));
        assert(all_digits(int_part(m)));
        if dotm < epos {
            assert(frac_part(m) =~= s@.subrange(dotm + 1, epos as int));
        } else {
            assert(frac_part(m) =~= Seq::<u8>::empty());
        }
        assert(all_digits(frac_part(m)));
    }
    let ilen = dotm - start;
    let flen: usize = if dotm < epos {
        epos - dotm - 1
    } else {
        0
    };
    if ilen == 0 && flen == 0 {
        // no digits at all
        return FixedParse::Bad;
    }
    // scan the exponent part, if any
    let mut eneg = false;
    let mut ev: i128 = 0;
    let mut esat = false;
    if epos < n {
        match read_exponent(s, epos) {
            Some((a, b, c)) => {
                eneg = a;
                ev = b;
                esat = c;
            },
            None => {
                return FixedParse::Bad;
            },
        }
    }
    proof {
        lemma_pow10_vals();
        assert(has_exp(s@) == (epos < n));
        if epos >= n {
            assert(!esat && ev == 0 && !eneg);
        }
    }
    compute_shifted(s, start, dotm, epos, negative, eneg, ev, esat)
}

/// Reads the exponent part after the marker: an optional sign and at
/// least one digit, to an exact value or a saturated one.
#[verifier::loop_isolation(false)]
fn read_exponent(s: &Vec<u8>, epos: usize) -> (r: Option<(bool, i128, bool)>)
    requires
        epos < s@.len(),
        epos == exp_pos(s@),
    ensures
        match r {
            Some(t3) => ({
                let e = exp_val(exp_text(s@));
                &&& exp_wf(exp_text(s@))
                &&& 0 <= t3.1 < pow10(20)
                &&& (!t3.2 ==> e == if t3.0 {
                    -(t3.1 as int)
                } else {
                    t3.1 as int
                })
                &&& (t3.2 && !t3.0 ==> e >= pow10(20))
                &&& (t3.2 && t3.0 ==> e <= -pow10(20))
            }),
            None => !exp_wf(exp_text(s@)),
        },
{
    let n = s.len();
    let mut eneg = false;
    let mut ed0 = epos + 1;
    if ed0 < n && (s[ed0] == 43 || s[ed0] == 45) {
        eneg = s[ed0] == 45;
        ed0 = ed0 + 1;
    }
    let ghost t = exp_text(s@);
    proof {
        assert(t =~= s@.skip(epos + 1));
        assert(sign_len(t) == ed0 - epos - 1);
        assert(t.skip(sign_len(t)) =~= s@.subrange(ed0 as int, n as int));
    }
    if ed0 == n {
        // an exponent marker with no digits
        return None;
    }
    let mut j: usize = ed0;
    while j < n && s[j] >= 48 && s[j] <= 57
        invariant
            ed0 <= j <= n,
            forall|k: int| ed0 <= k < j ==> is_digit(#[trigger] s@[k]),
        decreases n - j,
    {
        j = j + 1;
    }
    if j < n {
        proof {
            assert(t.skip(sign_len(t))[j - ed0] == s@[j as int]);
            assert(!all_digits(t.skip(sign_len(t))));
        }
        return None;
    }
    proof {
        assert(all_digits(s@.subrange(ed0 as int, n as int)));
    }
    let (ev, esat) = exp_digits_value(s, ed0);
    proof {
        assert(t[0] == s@[epos + 1]);
        assert(sign_of(t) == if eneg {
            -1int
        } else {
            1int
        });
        assert(digits_val(t.skip(sign_len(t))) == digits_val(s@.subrange(ed0 as int, n as int)));
        assert(exp_val(t) == sign_of(t) * digits_val(t.skip(sign_len(t))));
        if !esat {
            assert(exp_val(t) == if eneg {
                -(ev as int)
            } else {
                ev as int
            });
        } else {
            if eneg {
                assert(exp_val(t) <= -pow10(20));
            } else {
                assert(exp_val(t) >= pow10(20));
            }
        }
    }
    Some((eneg, ev, esat))
}

/// The scanned prefix holds no exponent marker, so the marker position
/// is at least `k`.
proof fn lemma_exp_pos_beyond(s: Seq<u8>, k: int)
    requires
        0 <= k <= s.len(),
        forall|j: int| 0 <= j < k ==> s[j] != 101 && s[j] != 69,
    ensures
        exp_pos(s) >= k,
{
    lemma_find_byte_bounds(s, 101);
    lemma_find_byte_bounds(s, 69);
    if find_byte(s, 101) < k {
        assert(s[find_byte(s, 101)] == 101);
        assert(false);
    }
    if find_byte(s, 69) < k {
        assert(s[find_byte(s, 69)] == 69);
        assert(false);
    }
}

/// A scan that stopped at a marker, or passed the end, names the
/// marker position. Sign bytes cannot be markers.
proof fn lemma_exp_pos_exact(s: Seq<u8>, start: int, epos: int)
    requires
        0 <= start <= 1,
        start <= epos <= s.len(),
        start == 1 ==> s.len() > 0 && (s[0] == 43 || s[0] == 45),
        forall|j: int| start <= j < epos ==> s[j] != 101 && s[j] != 69,
        epos == s.len() || s[epos] == 101 || s[epos] == 69,
    ensures
        exp_pos(s) == epos,
{
    assert(forall|j: int| 0 <= j < epos ==> s[j] != 101 && s[j] != 69);
    lemma_exp_pos_beyond(s, epos);
    lemma_find_byte_bounds(s, 101);
    lemma_find_byte_bounds(s, 69);
    if epos < s.len() {
        if s[epos] == 101 {
            lemma_find_byte(s, 101, epos);
        } else {
            lemma_find_byte(s, 69, epos);
        }
    } else {
        lemma_find_byte(s, 101, s.len() as int);
        lemma_find_byte(s, 69, s.len() as int);
    }
}

/// Computes the shifted fixed-point value of a validated field. The
/// digit positions are `start..dotm` (integer digits) and
/// `dotm+1..epos` (fraction digits); the exponent is `ev` with sign
/// `eneg`, or at least ten to the twentieth in magnitude when `esat`.
#[verifier::loop_isolation(false)]
#[verifier::rlimit(100)]
fn compute_shifted(
    s: &Vec<u8>,
    start: usize,
    dotm: usize,
    epos: usize,
    negative: bool,
    eneg: bool,
    ev: i128,
    esat: bool,
) -> (r: FixedParse)
    requires
        is_fixed_decimal(s@),
        start <= dotm <= epos <= s@.len(),
        start == sign_len(mantissa(s@)),
        negative <==> sign_of(mantissa(s@)) == -1,
        epos == exp_pos(s@),
        int_part(mantissa(s@)) == s@.subrange(start as int, dotm as int),
        frac_part(mantissa(s@)) == if dotm < epos {
            s@.subrange(dotm + 1, epos as int)
        } else {
            Seq::<u8>::empty()
        },
        0 <= ev < pow10(20),
        ({
            let e = if has_exp(s@) {
                exp_val(exp_text(s@))
            } else {
                0
            };
            &&& (!has_exp(s@) ==> !esat && ev == 0 && !eneg)
            &&& (!esat ==> e == if eneg {
                -(ev as int)
            } else {
                ev as int
            })
            &&& (esat && !eneg ==> e >= pow10(20))
            &&& (esat && eneg ==> e <= -pow10(20))
        }),
    ensures
        match r {
            FixedParse::Val(v) => v == fixed_decimal_val(s@) && -MAX_LNG <= v <= MAX_LNG,
            FixedParse::TooBig => !(-MAX_LNG <= fixed_decimal_val(s@) <= MAX_LNG),
            FixedParse::Bad => false,
        },
{
    let n = s.len();
    let ghost m = mantissa(s@);
    let ghost ipart = int_part(m);
    let ghost fpart = frac_part(m);
    let ghost dd = ipart + fpart;
    let ghost e = if has_exp(s@) {
        exp_val(exp_text(s@))
    } else {
        0int
    };
    let ghost p = ipart.len() + e;
    let ilen = dotm - start;
    let flen: usize = if dotm < epos {
        epos - dotm - 1
    } else {
        0
    };
    let total = ilen + flen;
    proof {
        lemma_pow10_vals();
        assert(dd.len() == total);
        assert(forall|t: int|
            0 <= t < ilen ==> dd[t] == #[trigger] ipart[t] && ipart[t] == s@[start + t]);
        assert(forall|t: int|
            ilen <= t < total ==> dd[t] == #[trigger] fpart[t - ilen] && fpart[t - ilen] == s@[
                dotm + 1 + (t - ilen)
            ]);
        assert(all_digits(dd)) by {
            assert(forall|t: int| 0 <= t < dd.len() ==> is_digit(#[trigger] dd[t]));
        }
    }
    // skip the leading zeros of the digit source
    let mut z: usize = 0;
    while z < total && source_digit(s, start, dotm, epos, z) == 48
        invariant
            0 <= z <= total,
            total == dd.len(),
            flen == if dotm < epos {
                epos - dotm - 1
            } else {
                0int
            },
            forall|t: int| 0 <= t < z ==> dd[t] == 48,
        decreases total - z,
    {
        z = z + 1;
    }
    if z == total {
        // every digit is zero: the value is zero whatever the exponent
        proof {
            lemma_pointed7_zeros(dd, p);
        }
        return FixedParse::Val(0);
    }
    let ghost ds = dd.skip(z as int);
    proof {
        lemma_pointed7_strip(dd, p, z as int);
        assert(all_digits(ds));
        assert(ds[0] == dd[z as int]);
        assert(ds[0] != 48);
        assert(digits_val(pointed7(dd, p)) == digits_val(pointed7(ds, p - z)));
    }
    // the significant window position: digits of the source with the
    // point at p - z, keeping seven fractional digits
    if esat {
        if eneg {
            // a huge negative exponent: the window is empty
            proof {
                assert(p - z + 7 <= 0);
                assert(pointed7(ds, p - z) =~= Seq::<u8>::empty());
                assert(digits_val(Seq::<u8>::empty()) == 0);
            }
            return FixedParse::Val(0);
        }
        // a huge positive exponent on a non-zero mantissa
        proof {
            assert(p - z + 7 >= 11);
            lemma_window_large(ds, p - z);
        }
        return FixedParse::TooBig;
    }
    let es: i128 = if eneg {
        -ev
    } else {
        ev
    };
    let p7s: i128 = ilen as i128 - z as i128 + es + 7;
    proof {
        assert(p7s == p - z + 7);
    }
    if p7s <= 0 {
        proof {
            assert(pointed7(ds, p - z) =~= Seq::<u8>::empty());
            assert(digits_val(Seq::<u8>::empty()) == 0);
        }
        return FixedParse::Val(0);
    }
    if p7s >= 11 {
        proof {
            lemma_window_large(ds, p - z);
        }
        return FixedParse::TooBig;
    }
    let w = p7s as usize;
    let ghost ew = pointed7(ds, p - z);
    proof {
        assert(ew.len() == w);
        assert(all_digits(ew)) by {
            assert(forall|j: int| 0 <= j < ew.len() ==> is_digit(#[trigger] ew[j]));
        }
    }
    let nz = total - z;
    let mut mag: i64 = 0;
    let mut j: usize = 0;
    while j < w
        invariant
            0 <= j <= w <= 10,
            0 <= mag,
            mag < pow10(j as nat),
            mag == digits_val(ew.take(j as int)),
        decreases w - j,
    {
        proof {
            let pre = ew.take(j as int);
            let post = ew.take(j + 1);
            assert(post.drop_last() =~= pre);
            if j < nz {
                assert(ew[j as int] == ds[j as int]);
                assert(ds[j as int] == dd[z + j]);
                if z + j < ilen {
                    assert(dd[z + j] == s@[start + z + j]);
                } else {
                    assert(dd[z + j] == s@[dotm + 1 + (z + j - ilen)]);
                }
            } else {
                assert(ew[j as int] == 48);
            }
            assert(post.last() == ew[j as int]);
            lemma_digits_val_nonneg(pre);
            lemma_pow10_mono(j as nat, 9);
            lemma_pow10_vals();
        }
        let d: i64 = if j < nz {
            (source_digit(s, start, dotm, epos, z + j) - 48) as i64
        } else {
            0
        };
        mag = mag * 10 + d;
        j = j + 1;
    }
    proof {
        assert(ew.take(w as int) =~= ew);
        assert(mag == digits_val(pointed7(dd, p)));
        lemma_pow10_mono(w as nat, 10);
        lemma_pow10_vals();
        assert(m.len() > 0);
        assert(m[0] == s@[0]);
    }
    if mag > MAX_LNG {
        return FixedParse::TooBig;
    }
    let v: i64 = if negative {
        -mag
    } else {
        mag
    };
    FixedParse::Val(v)
}

/// The digit of the source at position `t`: integer digits first, then
/// the fraction digits after the point.
fn source_digit(s: &Vec<u8>, start: usize, dotm: usize, epos: usize, t: usize) -> (b: u8)
    requires
        start <= dotm <= epos <= s@.len(),
        t < dotm - start || dotm + 1 + (t - (dotm - start)) < epos,
    ensures
        b == if t < dotm - start {
            s@[start + t]
        } else {
            s@[dotm + 1 + (t - (dotm - start))]
        },
{
    if t < dotm - start {
        s[start + t]
    } else {
        s[dotm + 1 + (t - (dotm - start))]
    }
}

/// A window of at least eleven digits over a source with a non-zero
/// leading digit exceeds the longitude range.
proof fn lemma_window_large(ds: Seq<u8>, pz: int)
    requires
        all_digits(ds),
        ds.len() >= 1,
        ds[0] != 48,
        pz + 7 >= 11,
    ensures
        digits_val(pointed7(ds, pz)) > MAX_LNG,
{
    let ew = pointed7(ds, pz);
    assert(ew.len() == pz + 7);
    assert(ew[0] == ds[0]);
    assert(all_digits(ew)) by {
        assert(forall|j: int| 0 <= j < ew.len() ==> is_digit(#[trigger] ew[j]));
    }
    lemma_digits_lower(ew);
    lemma_pow10_mono(10, (ew.len() - 1) as nat);
    lemma_pow10_vals();
}

/// The longitude field: everything before the first comma.
pub open spec fn lng_field(s: Seq<u8>) -> Seq<u8> {
    s.take(find_byte(s, 44))
}

/// The latitude field: everything after the first comma.
pub open spec fn lat_field(s: Seq<u8>) -> Seq<u8> {
    s.skip(find_byte(s, 44) + 1)
}

/// The location text is well formed: exactly one comma, separating two
/// decimal numbers.
pub open spec fn loc_wellformed(s: Seq<u8>) -> bool {
    &&& count_byte(s, 44) == 1
    &&& is_fixed_decimal(lng_field(s))
    &&& is_fixed_decimal(lat_field(s))
}

/// The longitude value of a well-formed location text.
pub open spec fn loc_lng(s: Seq<u8>) -> int {
    fixed_decimal_val(lng_field(s))
}

/// The latitude value of a well-formed location text.
pub open spec fn loc_lat(s: Seq<u8>) -> int {
    fixed_decimal_val(lat_field(s))
}

/// Parses `lng,lat`: two comma-separated decimal numbers inside the
/// valid longitude/latitude ranges. Returns the exact error class:
/// malformed text, longitude out of range (checked first), or latitude
/// out of range.
#[verifier::loop_isolation(false)]
pub fn parse_location(s: &Vec<u8>) -> (r: Result<Location, LocationError>)
    ensures
        match r {
            Ok(loc) => loc_wellformed(s@) && loc.lng == loc_lng(s@) && loc.lat == loc_lat(s@)
                && loc.valid(),
            Err(e) => match e {
                LocationError::Malformed => !loc_wellformed(s@),
                LocationError::LngOutOfRange => loc_wellformed(s@) && !(-MAX_LNG <= loc_lng(s@)
                    <= MAX_LNG),
                LocationError::LatOutOfRange => loc_wellformed(s@) && -MAX_LNG <= loc_lng(s@)
                    <= MAX_LNG && !(-MAX_LAT <= loc_lat(s@) <= MAX_LAT),
            },
        },
{
    let n = s.len();
    let mut commas: usize = 0;
    let mut c: usize = n;
    let mut i: usize = 0;
    while i < n
        invariant
            0 <= i <= n,
            commas == count_byte(s@.take(i as int), 44),
            commas <= i,
            c == n || (c < i && s@[c as int] == 44),
            forall|j: int| 0 <= j < i && j < c ==> s@[j] != 44,
            commas > 0 <==> c < n,
        decreases n - i,
    {
        proof {
            assert(s@.take(i + 1).drop_last() =~= s@.take(i as int));
            assert(s@.take(i + 1).last() == s@[i as int]);
        }
        if s[i] == 44 {
            if c == n {
                c = i;
            }
            commas = commas + 1;
        }
        i = i + 1;
    }
    proof {
        assert(s@.take(n as int) =~= s@);
    }
    if commas != 1 {
        return Err(LocationError::Malformed);
    }
    proof {
        lemma_find_byte(s@, 44, c as int);
    }
    let mut f1: Vec<u8> = Vec::new();
    let mut j: usize = 0;
    while j < c
        invariant
            0 <= j <= c <= n,
            f1@ == s@.subrange(0, j as int),
        decreases c - j,
    {
        f1.push(s[j]);
        proof {
            assert(f1@ =~= s@.subrange(0, j + 1));
        }
        j = j + 1;
    }
    let mut f2: Vec<u8> = Vec::new();
    let mut j2: usize = c + 1;
    while j2 < n
        invariant
            c + 1 <= j2 <= n,
            f2@ == s@.subrange(c + 1 as int, j2 as int),
        decreases n - j2,
    {
        f2.push(s[j2]);
        proof {
            assert(f2@ =~= s@.subrange(c + 1 as int, j2 + 1));
        }
        j2 = j2 + 1;
    }
    proof {
        assert(f1@ =~= lng_field(s@));
        assert(f2@ =~= lat_field(s@));
    }
    let p1 = parse_fixed(&f1);
    let p2 = parse_fixed(&f2);
    match (p1, p2) {
        (FixedParse::Bad, _) => Err(LocationError::Malformed),
        (_, FixedParse::Bad) => Err(LocationError::Malformed),
        (FixedParse::TooBig, _) => Err(LocationError::LngOutOfRange),
        (FixedParse::Val(lng), FixedParse::TooBig) => {
            proof {
                assert(!(-MAX_LAT <= loc_lat(s@) <= MAX_LAT));
            }
            Err(LocationError::LatOutOfRange)
        },
        (FixedParse::Val(lng), FixedParse::Val(lat)) => {
            if lat < -MAX_LAT || lat > MAX_LAT {
                Err(LocationError::LatOutOfRange)
            } else {
                Ok(Location { lng, lat })
            }
        },
    }
}

} // verus!
