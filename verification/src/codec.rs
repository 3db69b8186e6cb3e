//! The persistence format: a UTF-8 document holding an array of shapes,
//! each an array of `[x,y]` pairs, with coordinates written as plain
//! decimal numerals on the fixed-point grid.
//!
//! Both directions are specified here as functions on byte sequences:
//! `doc_chars` says exactly what serialization emits, `parse_doc` exactly
//! which documents deserialization accepts and what they mean. Reading
//! back what was written is proved to give every shape back unchanged.

use vstd::prelude::*;

use vstd::arithmetic::div_mod::lemma_fundamental_div_mod;
use vstd::arithmetic::div_mod::lemma_mod_division_less_than_divisor;

use crate::fixed::COORD_LIMIT;
use crate::fixed::SCALE;
use crate::fixed::in_range;
use crate::vec2::Vector;
use crate::vec2::pts_in_range;
use crate::vec2::vec_in_range;

verus! {

/// ASCII decimal digit.
pub open spec fn is_digit(c: u8) -> bool {
    48 <= c <= 57
}

/// Blank byte the reader ignores between tokens.
pub open spec fn is_ws(c: u8) -> bool {
    c == 32 || c == 9 || c == 10 || c == 13
}

/// First position at or after `i` holding something other than blanks.
pub open spec fn skip_ws(s: Seq<u8>, i: int) -> int
    decreases s.len() - i when 0 <= i <= s.len()
{
    if 0 <= i < s.len() && is_ws(s[i]) {
        skip_ws(s, i + 1)
    } else {
        i
    }
}

/// First position at or after `i` holding a non-digit.
pub open spec fn digits_end(s: Seq<u8>, i: int) -> int
    decreases s.len() - i when 0 <= i <= s.len()
{
    if 0 <= i < s.len() && is_digit(s[i]) {
        digits_end(s, i + 1)
    } else {
        i
    }
}

/// The number the digit run `s[i..j)` denotes.
pub open spec fn digits_val(s: Seq<u8>, i: int, j: int) -> int
    decreases j - i,
{
    if i >= j {
        0
    } else {
        digits_val(s, i, j - 1) * 10 + (s[j - 1] - 48)
    }
}

/// Ten to the `e`.
pub open spec fn pow10(e: int) -> int
    decreases e,
{
    if e <= 0 {
        1
    } else {
        10 * pow10(e - 1)
    }
}

/// Outcome of reading a numeral: its grid value and the position after
/// it. `None` when no digits are present, the fraction is empty or longer
/// than the grid resolves, or the value leaves the grid.
pub open spec fn parse_number(s: Seq<u8>, i: int) -> Option<(int, int)> {
    let neg = 0 <= i < s.len() && s[i] == 45;
    let i1 = if neg { i + 1 } else { i };
    let j = digits_end(s, i1);
    if j == i1 {
        None
    } else if j < s.len() && s[j] == 46 {
        let k = digits_end(s, j + 1);
        if j + 1 < k && k <= j + 7 {
            finish_number(
                neg,
                digits_val(s, i1, j) * (SCALE as int)
                    + digits_val(s, j + 1, k) * pow10(6 - (k - j - 1)),
                k,
            )
        } else {
            None
        }
    } else {
        finish_number(neg, digits_val(s, i1, j) * (SCALE as int), j)
    }
}

/// Apply the sign and the range check to a numeral just read.
pub open spec fn finish_number(neg: bool, raw: int, end: int) -> Option<(int, int)> {
    let v = if neg {
        -raw
    } else {
        raw
    };
    if in_range(v) {
        Some((v, end))
    } else {
        None
    }
}

/// Outcome of reading one `[x,y]` pair starting at `i` (blanks allowed
/// around every token).
pub open spec fn parse_point(s: Seq<u8>, i: int) -> Option<(Vector, int)> {
    let a = skip_ws(s, i);
    if a < s.len() && s[a] == 91 {
        match parse_number(s, skip_ws(s, a + 1)) {
            None => None,
            Some((x, e1)) => {
                let c = skip_ws(s, e1);
                if c < s.len() && s[c] == 44 {
                    match parse_number(s, skip_ws(s, c + 1)) {
                        None => None,
                        Some((y, e2)) => {
                            let d = skip_ws(s, e2);
                            if d < s.len() && s[d] == 93 {
                                Some((Vector { x: x as i64, y: y as i64 }, d + 1))
                            } else {
                                None
                            }
                        },
                    }
                } else {
                    None
                }
            },
        }
    } else {
        None
    }
}

/// Outcome of reading one shape: a `[`, then comma-separated points,
/// then `]`.
pub open spec fn parse_shape(s: Seq<u8>, i: int) -> Option<(Seq<Vector>, int)> {
    let a = skip_ws(s, i);
    if a < s.len() && s[a] == 91 {
        let b = skip_ws(s, a + 1);
        if b < s.len() && s[b] == 93 {
            Some((Seq::empty(), b + 1))
        } else {
            match parse_point(s, a + 1) {
                None => None,
                Some((p, e)) => parse_shape_rest(s, e, seq![p]),
            }
        }
    } else {
        None
    }
}

/// The remainder of a shape after its points up to position `i` were
/// read into `acc`.
pub open spec fn parse_shape_rest(s: Seq<u8>, i: int, acc: Seq<Vector>) -> Option<
    (Seq<Vector>, int),
>
    decreases s.len() - i when 0 <= i <= s.len()
{
    let c = skip_ws(s, i);
    if c < s.len() && s[c] == 93 {
        Some((acc, c + 1))
    } else if c < s.len() && s[c] == 44 {
        match parse_point(s, c + 1) {
            None => None,
            Some((p, e)) => if i < e <= s.len() {
                parse_shape_rest(s, e, acc.push(p))
            } else {
                None
            },
        }
    } else {
        None
    }
}

/// Outcome of reading a whole document: a `[`, comma-separated shapes,
/// `]`, and nothing but blanks after it.
pub open spec fn parse_doc(s: Seq<u8>) -> Option<Seq<Seq<Vector>>> {
    let a = skip_ws(s, 0);
    if a < s.len() && s[a] == 91 {
        let b = skip_ws(s, a + 1);
        if b < s.len() && s[b] == 93 {
            if skip_ws(s, b + 1) == s.len() {
                Some(Seq::empty())
            } else {
                None
            }
        } else {
            match parse_shape(s, a + 1) {
                None => None,
                Some((sh, e)) => parse_doc_rest(s, e, seq![sh]),
            }
        }
    } else {
        None
    }
}

/// The remainder of a document after its shapes up to position `i` were
/// read into `acc`.
pub open spec fn parse_doc_rest(s: Seq<u8>, i: int, acc: Seq<Seq<Vector>>) -> Option<
    Seq<Seq<Vector>>,
>
    decreases s.len() - i when 0 <= i <= s.len()
{
    let c = skip_ws(s, i);
    if c < s.len() && s[c] == 93 {
        if skip_ws(s, c + 1) == s.len() {
            Some(acc)
        } else {
            None
        }
    } else if c < s.len() && s[c] == 44 {
        match parse_shape(s, c + 1) {
            None => None,
            Some((sh, e)) => if i < e <= s.len() {
                parse_doc_rest(s, e, acc.push(sh))
            } else {
                None
            },
        }
    } else {
        None
    }
}

/// The decimal digits of `n >= 0`, most significant first.
pub open spec fn dec_digits(n: int) -> Seq<u8>
    decreases n,
{
    if n < 0 {
        seq![48u8]
    } else if n < 10 {
        seq![(48 + n) as u8]
    } else {
        dec_digits(n / 10).push((48 + n % 10) as u8)
    }
}

/// The fraction digits of `0 <= fr < pow10(e)` written to `e` decimal
/// places with trailing zeros dropped.
pub open spec fn frac_digits(fr: int, e: int) -> Seq<u8>
    decreases e,
{
    if e <= 0 || fr <= 0 {
        Seq::empty()
    } else {
        seq![(48 + fr / pow10(e - 1)) as u8] + frac_digits(fr % pow10(e - 1), e - 1)
    }
}

/// The canonical numeral of the grid value `v`: sign, whole units, and a
/// fraction only when there is one.
pub open spec fn num_chars(v: int) -> Seq<u8> {
    let m = if v < 0 {
        -v
    } else {
        v
    };
    let q = m / (SCALE as int);
    let fr = m % (SCALE as int);
    let digits = if fr == 0 {
        dec_digits(q)
    } else {
        dec_digits(q) + seq![46u8] + frac_digits(fr, 6)
    };
    if v < 0 {
        seq![45u8] + digits
    } else {
        digits
    }
}

/// The canonical text of one point.
pub open spec fn point_chars(p: Vector) -> Seq<u8> {
    seq![91u8] + num_chars(p.x as int) + seq![44u8] + num_chars(p.y as int) + seq![93u8]
}

/// The canonical text of the points of a shape from index `from` on,
/// each preceded by a comma.
pub open spec fn points_chars(ps: Seq<Vector>, from: int) -> Seq<u8>
    decreases ps.len() - from,
{
    if from < 0 || from >= ps.len() {
        Seq::empty()
    } else {
        seq![44u8] + point_chars(ps[from]) + points_chars(ps, from + 1)
    }
}

/// The canonical text of one shape.
pub open spec fn shape_chars(ps: Seq<Vector>) -> Seq<u8> {
    let inner = if ps.len() == 0 {
        Seq::<u8>::empty()
    } else {
        point_chars(ps[0]) + points_chars(ps, 1)
    };
    seq![91u8] + inner + seq![93u8]
}

/// The canonical text of the shapes of a document from index `from` on,
/// each preceded by a comma.
pub open spec fn shapes_chars(c: Seq<Seq<Vector>>, from: int) -> Seq<u8>
    decreases c.len() - from,
{
    if from < 0 || from >= c.len() {
        Seq::empty()
    } else {
        seq![44u8] + shape_chars(c[from]) + shapes_chars(c, from + 1)
    }
}

/// The canonical text of a whole document.
pub open spec fn doc_chars(c: Seq<Seq<Vector>>) -> Seq<u8> {
    let inner = if c.len() == 0 {
        Seq::<u8>::empty()
    } else {
        shape_chars(c[0]) + shapes_chars(c, 1)
    };
    seq![91u8] + inner + seq![93u8]
}

/// `t` occurs in `s` starting at position `i`.
pub open spec fn matches_at(s: Seq<u8>, i: int, t: Seq<u8>) -> bool {
    0 <= i && i + t.len() <= s.len() && (forall|k: int| 0 <= k < t.len() ==> s[i + k] == t[k])
}

/// One byte of a matched span.
pub proof fn lemma_matches_index(s: Seq<u8>, i: int, t: Seq<u8>, k: int)
    requires
        matches_at(s, i, t),
        0 <= k < t.len(),
    ensures
        s[i + k] == t[k],
{
}

/// A matched concatenation matches piece by piece.
pub proof fn lemma_matches_split(s: Seq<u8>, i: int, a: Seq<u8>, b: Seq<u8>)
    requires
        matches_at(s, i, a + b),
    ensures
        matches_at(s, i, a),
        matches_at(s, i + a.len(), b),
{
    assert forall|k: int| 0 <= k < a.len() implies s[i + k] == a[k] by {
        assert((a + b)[k] == a[k]);
        assert(s[i + k] == (a + b)[k]);
    }
    assert forall|k: int| 0 <= k < b.len() implies s[i + a.len() + k] == b[k] by {
        assert((a + b)[a.len() + k] == b[k]);
        assert(s[i + (a.len() + k)] == (a + b)[a.len() + k]);
        assert(i + (a.len() + k) == i + a.len() + k);
    }
}

/// The sixth power of ten, written out.
pub proof fn lemma_pow10_6()
    ensures
        pow10(0) == 1,
        pow10(1) == 10,
        pow10(2) == 100,
        pow10(3) == 1_000,
        pow10(4) == 10_000,
        pow10(5) == 100_000,
        pow10(6) == 1_000_000,
{
    reveal_with_fuel(pow10, 7);
}

/// Powers of ten are positive.
pub proof fn lemma_pow10_pos(e: int)
    ensures
        pow10(e) >= 1,
    decreases e,
{
    if e > 0 {
        lemma_pow10_pos(e - 1);
    }
}

/// Powers of ten grow with the exponent.
pub proof fn lemma_pow10_mono(a: int, b: int)
    requires
        a <= b,
    ensures
        pow10(a) <= pow10(b),
    decreases b - a,
{
    if a < b {
        lemma_pow10_mono(a, b - 1);
        lemma_pow10_pos(b - 1);
    }
}

/// Powers of ten multiply by adding exponents.
pub proof fn lemma_pow10_add(a: int, b: int)
    requires
        0 <= a,
        0 <= b,
    ensures
        pow10(a) * pow10(b) == pow10(a + b),
    decreases a,
{
    if a == 0 {
        assert(1 * pow10(b) == pow10(b)) by (nonlinear_arith);
    } else {
        lemma_pow10_add(a - 1, b);
        assert((10 * pow10(a - 1)) * pow10(b) == 10 * (pow10(a - 1) * pow10(b)))
            by (nonlinear_arith);
    }
}

/// Splitting a digit run splits its value positionally.
pub proof fn lemma_digits_val_append(s: Seq<u8>, i: int, j: int, k: int)
    requires
        i <= j <= k,
    ensures
        digits_val(s, i, k) == digits_val(s, i, j) * pow10(k - j) + digits_val(s, j, k),
    decreases k - j,
{
    if j == k {
        assert(digits_val(s, i, j) * 1 == digits_val(s, i, j)) by (nonlinear_arith);
    } else {
        lemma_digits_val_append(s, i, j, k - 1);
        let v = digits_val(s, i, j);
        assert((v * pow10(k - 1 - j) + digits_val(s, j, k - 1)) * 10 + (s[k - 1] - 48)
            == v * (10 * pow10(k - 1 - j)) + (digits_val(s, j, k - 1) * 10 + (s[k - 1] - 48)))
            by (nonlinear_arith);
    }
}

/// A digit-run value only reads the bytes between its bounds.
pub proof fn lemma_digits_val_local(s: Seq<u8>, i: int, t: Seq<u8>, a: int, b: int)
    requires
        matches_at(s, i, t),
        0 <= a <= b <= t.len(),
    ensures
        digits_val(s, i + a, i + b) == digits_val(t, a, b),
    decreases b - a,
{
    if a < b {
        lemma_digits_val_local(s, i, t, a, b - 1);
    }
}

/// A run of digits followed by a non-digit ends exactly there.
pub proof fn lemma_digits_end_run(s: Seq<u8>, i: int, j: int)
    requires
        0 <= i <= j <= s.len(),
        forall|k: int| i <= k < j ==> is_digit(#[trigger] s[k]),
        j == s.len() || !is_digit(s[j]),
    ensures
        digits_end(s, i) == j,
    decreases j - i,
{
    if i < j {
        lemma_digits_end_run(s, i + 1, j);
    }
}

/// Blanks are absent from a position holding a non-blank byte.
pub proof fn lemma_skip_ws_here(s: Seq<u8>, i: int)
    requires
        0 <= i <= s.len(),
        i == s.len() || !is_ws(s[i]),
    ensures
        skip_ws(s, i) == i,
{
}

/// The decimal digits of `n` are digits, start with one, and denote `n`.
pub proof fn lemma_dec_digits(n: int)
    requires
        0 <= n,
    ensures
        dec_digits(n).len() >= 1,
        forall|k: int| 0 <= k < dec_digits(n).len() ==> is_digit(#[trigger] dec_digits(n)[k]),
        digits_val(dec_digits(n), 0, dec_digits(n).len() as int) == n,
    decreases n,
{
    if n < 10 {
        let d = dec_digits(n);
        assert(d == seq![(48 + n) as u8]);
        assert(d[0] == (48 + n) as u8);
        assert(digits_val(d, 0, 1) == digits_val(d, 0, 0) * 10 + (d[0] - 48));
        assert(digits_val(d, 0, 0) * 10 == 0) by (nonlinear_arith)
            requires digits_val(d, 0, 0) == 0;
        assert(digits_val(d, 0, 1) == n);
    } else {
        lemma_dec_digits(n / 10);
        lemma_fundamental_div_mod(n, 10);
        lemma_mod_division_less_than_divisor(n, 10);
        let t = dec_digits(n / 10);
        let d = dec_digits(n);
        assert(d == t.push((48 + n % 10) as u8));
        assert(forall|k: int| 0 <= k < t.len() ==> d[k] == t[k]);
        assert(digits_val(d, 0, d.len() - 1) == digits_val(t, 0, t.len() as int)) by {
            lemma_digits_val_local(d, 0, t, 0, t.len() as int);
        }
        assert(0 <= n % 10 < 10);
        assert(d[d.len() - 1] == (48 + n % 10) as u8);
        assert(d[d.len() - 1] - 48 == n % 10);
        assert(digits_val(d, 0, d.len() as int)
            == digits_val(d, 0, d.len() - 1) * 10 + (d[d.len() - 1] - 48));
        assert((n / 10) * 10 + n % 10 == n) by (nonlinear_arith)
            requires n >= 10 && n == 10 * (n / 10) + n % 10;
        assert(dec_digits(n).len() >= 1);
        assert(digits_val(dec_digits(n), 0, dec_digits(n).len() as int) == n);
        assert forall|k: int| 0 <= k < dec_digits(n).len()
            implies is_digit(#[trigger] dec_digits(n)[k]) by {
            if k < t.len() {
                assert(d[k] == t[k]);
                assert(is_digit(t[k]));
            } else {
                assert(d[k] == (48 + n % 10) as u8);
            }
        }
    }
}

/// The fraction digits of `fr` written to `e` places: at most `e` of
/// them, at least one when `fr > 0`, all digits, and scaling their value
/// back up recovers `fr`.
pub proof fn lemma_frac_digits(fr: int, e: int)
    requires
        0 <= e,
        0 <= fr < pow10(e),
    ensures
        frac_digits(fr, e).len() <= e,
        fr > 0 ==> frac_digits(fr, e).len() >= 1,
        forall|k: int| 0 <= k < frac_digits(fr, e).len()
            ==> is_digit(#[trigger] frac_digits(fr, e)[k]),
        digits_val(frac_digits(fr, e), 0, frac_digits(fr, e).len() as int)
            * pow10(e - frac_digits(fr, e).len()) == fr,
    decreases e,
{
    lemma_pow10_pos(e);
    if e <= 0 || fr <= 0 {
        assert(digits_val(frac_digits(fr, e), 0, 0) * pow10(e - 0) == 0) by (nonlinear_arith)
            requires digits_val(frac_digits(fr, e), 0, 0) == 0;
    } else {
        let p = pow10(e - 1);
        lemma_pow10_pos(e - 1);
        let d = fr / p;
        let rest = fr % p;
        lemma_fundamental_div_mod(fr, p);
        lemma_mod_division_less_than_divisor(fr, p);
        assert(0 <= d <= 9 && d * p + rest == fr) by (nonlinear_arith)
            requires p >= 1 && 0 <= fr < 10 * p && fr == p * d + rest && 0 <= rest < p;
        lemma_frac_digits(rest, e - 1);
        let t = frac_digits(rest, e - 1);
        let f = frac_digits(fr, e);
        let m = t.len() as int;
        let head: Seq<u8> = seq![(48 + d) as u8];
        assert(f == head + t);
        assert(matches_at(f, 0, head + t)) by {
            assert(forall|k: int| 0 <= k < f.len() ==> #[trigger] f[0 + k] == f[k]);
        }
        lemma_matches_split(f, 0, head, t);
        assert(forall|k: int| 0 <= k < m ==> f[1 + k] == t[k]);
        lemma_digits_val_local(f, 1, t, 0, m);
        lemma_digits_val_append(f, 0, 1, 1 + m);
        assert(f[0] == (48 + d) as u8);
        assert(digits_val(f, 0, 1) == digits_val(f, 0, 0) * 10 + (f[0] - 48));
        assert(digits_val(f, 0, 1) == d);
        // (d * pow10(m) + val(t)) * pow10(e - 1 - m) == d * pow10(e-1) + fr % p
        let vt = digits_val(t, 0, m);
        lemma_pow10_add(m, e - 1 - m);
        assert((d * pow10(m) + vt) * pow10(e - 1 - m)
            == d * (pow10(m) * pow10(e - 1 - m)) + vt * pow10(e - 1 - m)) by (nonlinear_arith);
    }
}

/// Reading the canonical numeral of `v` from any surrounding text gives
/// back `v`, provided the byte after it is not a digit or a dot.
pub proof fn lemma_parse_number_at(s: Seq<u8>, i: int, v: int)
    requires
        in_range(v),
        matches_at(s, i, num_chars(v)),
        i + num_chars(v).len() == s.len()
            || (!is_digit(s[i + num_chars(v).len()]) && s[i + num_chars(v).len()] != 46),
    ensures
        parse_number(s, i) == Some((v, i + num_chars(v).len())),
{
    let t = num_chars(v);
    let m = if v < 0 { -v } else { v };
    let q = m / (SCALE as int);
    let fr = m % (SCALE as int);
    lemma_fundamental_div_mod(m, SCALE as int);
    lemma_mod_division_less_than_divisor(m, SCALE as int);
    assert(0 <= q && 0 <= fr < SCALE as int && q * (SCALE as int) + fr == m) by (nonlinear_arith)
        requires m >= 0 && m == (SCALE as int) * q + fr && 0 <= fr < SCALE as int;
    lemma_dec_digits(q);
    let dq = dec_digits(q);
    let dl = dq.len() as int;
    let digits: Seq<u8> = if fr == 0 { dq } else { dq + seq![46u8] + frac_digits(fr, 6) };
    let i1 = if v < 0 { i + 1 } else { i };
    // peel the sign, so that `digits` is matched at `i1`
    if v < 0 {
        assert(t == seq![45u8] + digits);
        lemma_matches_split(s, i, seq![45u8], digits);
        lemma_matches_index(s, i, seq![45u8], 0);
        assert(s[i + 0] == 45);
        assert(s[i] == 45);
    } else {
        assert(t == digits);
    }
    assert(matches_at(s, i1, digits));
    let after = i + t.len();
    assert(after == i1 + digits.len());
    if fr == 0 {
        // the numeral is the plain digit run of `q`
        assert(matches_at(s, i1, dq));
        assert forall|k: int| i1 <= k < i1 + dl implies is_digit(#[trigger] s[k]) by {
            lemma_matches_index(s, i1, dq, k - i1);
        }
        lemma_matches_index(s, i1, dq, 0);
        assert(!is_digit(45u8) && is_digit(s[i1]));
        lemma_digits_end_run(s, i1, i1 + dl);
        lemma_digits_val_local(s, i1, dq, 0, dl);
        assert(digits_val(s, i1, i1 + dl) == q);
        assert(q * (SCALE as int) == m) by (nonlinear_arith)
            requires fr == 0 && q * (SCALE as int) + fr == m;
    } else {
        lemma_pow10_6();
        lemma_frac_digits(fr, 6);
        let df = frac_digits(fr, 6);
        let fl = df.len() as int;
        assert(digits == (dq + seq![46u8]) + df);
        lemma_matches_split(s, i1, dq + seq![46u8], df);
        lemma_matches_split(s, i1, dq, seq![46u8]);
        assert(matches_at(s, i1, dq));
        assert(matches_at(s, i1 + dl, seq![46u8]));
        assert(matches_at(s, i1 + dl + 1, df));
        lemma_matches_index(s, i1 + dl, seq![46u8], 0);
        assert(s[i1 + dl + 0] == 46);
        assert(s[i1 + dl] == 46);
        assert forall|k: int| i1 <= k < i1 + dl implies is_digit(#[trigger] s[k]) by {
            lemma_matches_index(s, i1, dq, k - i1);
        }
        lemma_matches_index(s, i1, dq, 0);
        assert(!is_digit(45u8) && is_digit(s[i1]));
        assert(!is_digit(46u8));
        lemma_digits_end_run(s, i1, i1 + dl);
        lemma_digits_val_local(s, i1, dq, 0, dl);
        assert(digits_val(s, i1, i1 + dl) == q);
        // the fraction run
        assert forall|k: int| i1 + dl + 1 <= k < i1 + dl + 1 + fl implies is_digit(
            #[trigger] s[k],
        ) by {
            lemma_matches_index(s, i1 + dl + 1, df, k - (i1 + dl + 1));
        }
        assert(after == i1 + dl + 1 + fl);
        lemma_digits_end_run(s, i1 + dl + 1, i1 + dl + 1 + fl);
        lemma_digits_val_local(s, i1 + dl + 1, df, 0, fl);
        assert(digits_val(s, i1 + dl + 1, i1 + dl + 1 + fl) == digits_val(df, 0, fl));
        assert(1 <= fl <= 6);
        assert(digits_val(df, 0, fl) * pow10(6 - fl) == fr);
        assert(digits_val(s, i1, i1 + dl) * (SCALE as int)
            + digits_val(s, i1 + dl + 1, i1 + dl + 1 + fl) * pow10(6 - ((i1 + dl + 1 + fl) - (i1 + dl) - 1))
            == m);
    }
}

/// The first byte of a numeral: the sign or a digit, never a blank or a
/// bracket.
pub proof fn lemma_num_chars_first(v: int)
    requires
        in_range(v),
    ensures
        num_chars(v).len() >= 1,
        num_chars(v)[0] == 45 || is_digit(num_chars(v)[0]),
{
    let m = if v < 0 { -v } else { v };
    let q = m / (SCALE as int);
    lemma_fundamental_div_mod(m, SCALE as int);
    lemma_mod_division_less_than_divisor(m, SCALE as int);
    assert(0 <= q) by (nonlinear_arith)
        requires m >= 0 && m == (SCALE as int) * q + m % (SCALE as int)
            && 0 <= m % (SCALE as int) < SCALE as int;
    lemma_dec_digits(q);
    let dq = dec_digits(q);
    let fr = m % (SCALE as int);
    let digits = if fr == 0 { dq } else { dq + seq![46u8] + frac_digits(fr, 6) };
    assert(digits[0] == dq[0]) by {
        if fr != 0 {
            assert(((dq + seq![46u8]) + frac_digits(fr, 6))[0] == (dq + seq![46u8])[0]);
            assert((dq + seq![46u8])[0] == dq[0]);
        }
    }
    if v < 0 {
        assert((seq![45u8] + digits)[0] == 45);
    } else {
        assert(is_digit(dq[0]));
    }
}

/// Reading the canonical text of one point from any surrounding text
/// gives back that point.
pub proof fn lemma_parse_point_at(s: Seq<u8>, i: int, p: Vector)
    requires
        vec_in_range(p),
        matches_at(s, i, point_chars(p)),
    ensures
        parse_point(s, i) == Some((p, i + point_chars(p).len())),
{
    let t = point_chars(p);
    let nx = num_chars(p.x as int);
    let ny = num_chars(p.y as int);
    let a = nx.len() as int;
    let b = ny.len() as int;
    lemma_num_chars_first(p.x as int);
    lemma_num_chars_first(p.y as int);
    assert(t == (((seq![91u8] + nx) + seq![44u8]) + ny) + seq![93u8]);
    lemma_matches_split(s, i, ((seq![91u8] + nx) + seq![44u8]) + ny, seq![93u8]);
    lemma_matches_split(s, i, (seq![91u8] + nx) + seq![44u8], ny);
    lemma_matches_split(s, i, seq![91u8] + nx, seq![44u8]);
    lemma_matches_split(s, i, seq![91u8], nx);
    lemma_matches_index(s, i, seq![91u8], 0);
    assert(s[i] == 91);
    lemma_matches_index(s, i + 1 + a, seq![44u8], 0);
    assert(s[i + 1 + a] == 44);
    lemma_matches_index(s, i + 2 + a + b, seq![93u8], 0);
    assert(s[i + 2 + a + b] == 93);
    // positions of the two numerals
    assert(matches_at(s, i + 1, nx));
    assert(matches_at(s, i + 2 + a, ny));
    lemma_matches_index(s, i + 1, nx, 0);
    lemma_matches_index(s, i + 2 + a, ny, 0);
    // unfold: no blank stands at any token position
    lemma_skip_ws_here(s, i);
    lemma_skip_ws_here(s, i + 1);
    lemma_parse_number_at(s, i + 1, p.x as int);
    lemma_skip_ws_here(s, i + 1 + a);
    lemma_skip_ws_here(s, i + 2 + a);
    lemma_parse_number_at(s, i + 2 + a, p.y as int);
    lemma_skip_ws_here(s, i + 2 + a + b);
    assert(parse_point(s, i) == Some((Vector { x: p.x, y: p.y }, i + 3 + a + b)));
    assert(p == (Vector { x: p.x, y: p.y }));
    assert(t.len() == 3 + a + b);
}

/// The first byte of a point's text is its opening bracket.
pub proof fn lemma_point_chars_first(p: Vector)
    ensures
        point_chars(p).len() >= 3,
        point_chars(p)[0] == 91,
{
    let nx = num_chars(p.x as int);
    let ny = num_chars(p.y as int);
    assert(point_chars(p) == (((seq![91u8] + nx) + seq![44u8]) + ny) + seq![93u8]);
    assert(point_chars(p)[0] == 91);
}

/// Reading the remaining points of a shape extends what was already
/// accumulated, up to the closing bracket.
pub proof fn lemma_parse_shape_rest_at(
    s: Seq<u8>,
    i: int,
    ps: Seq<Vector>,
    from: int,
    acc: Seq<Vector>,
)
    requires
        pts_in_range(ps),
        1 <= from <= ps.len(),
        matches_at(s, i, points_chars(ps, from) + seq![93u8]),
    ensures
        parse_shape_rest(s, i, acc) == Some(
            (acc + ps.skip(from), i + points_chars(ps, from).len() + 1),
        ),
    decreases ps.len() - from,
{
    if from == ps.len() {
        assert(points_chars(ps, from) == Seq::<u8>::empty());
        assert(points_chars(ps, from) + seq![93u8] == seq![93u8]);
        lemma_matches_index(s, i, seq![93u8], 0);
        assert(s[i + 0] == 93);
        assert(s[i] == 93);
        lemma_skip_ws_here(s, i);
        assert(acc + ps.skip(from) =~= acc);
    } else {
        let pc = point_chars(ps[from]);
        let rest = points_chars(ps, from + 1);
        assert(points_chars(ps, from) + seq![93u8]
            == (seq![44u8] + pc) + (rest + seq![93u8]));
        lemma_matches_split(s, i, seq![44u8] + pc, rest + seq![93u8]);
        lemma_matches_split(s, i, seq![44u8], pc);
        lemma_matches_index(s, i, seq![44u8], 0);
        assert(s[i + 0] == 44);
        assert(s[i] == 44);
        lemma_skip_ws_here(s, i);
        assert(matches_at(s, i + 1, pc));
        assert(vec_in_range(ps[from]));
        lemma_parse_point_at(s, i + 1, ps[from]);
        let e = i + 1 + pc.len() as int;
        lemma_parse_shape_rest_at(s, e, ps, from + 1, acc.push(ps[from]));
        assert(acc.push(ps[from]) + ps.skip(from + 1) =~= acc + ps.skip(from));
        assert(points_chars(ps, from).len() == 1 + pc.len() + rest.len());
    }
}

/// Reading the canonical text of one shape from any surrounding text
/// gives back that shape.
pub proof fn lemma_parse_shape_at(s: Seq<u8>, i: int, ps: Seq<Vector>)
    requires
        pts_in_range(ps),
        matches_at(s, i, shape_chars(ps)),
    ensures
        parse_shape(s, i) == Some((ps, i + shape_chars(ps).len())),
{
    let t = shape_chars(ps);
    if ps.len() == 0 {
        assert(t == seq![91u8] + seq![93u8]) by {
            assert(t =~= seq![91u8] + seq![93u8]);
        }
        lemma_matches_split(s, i, seq![91u8], seq![93u8]);
        lemma_matches_index(s, i, seq![91u8], 0);
        lemma_matches_index(s, i + 1, seq![93u8], 0);
        assert(s[i + 0] == 91 && s[i + 1 + 0] == 93);
        lemma_skip_ws_here(s, i);
        lemma_skip_ws_here(s, i + 1);
        assert(parse_shape(s, i) == Some((Seq::<Vector>::empty(), i + 2)));
        assert(ps =~= Seq::<Vector>::empty());
    } else {
        let pc = point_chars(ps[0]);
        let rest = points_chars(ps, 1);
        assert(t == (seq![91u8] + pc) + (rest + seq![93u8]));
        lemma_matches_split(s, i, seq![91u8] + pc, rest + seq![93u8]);
        lemma_matches_split(s, i, seq![91u8], pc);
        lemma_matches_index(s, i, seq![91u8], 0);
        assert(s[i + 0] == 91);
        assert(s[i] == 91);
        lemma_skip_ws_here(s, i);
        lemma_point_chars_first(ps[0]);
        lemma_matches_index(s, i + 1, pc, 0);
        assert(s[i + 1] == 91);
        lemma_skip_ws_here(s, i + 1);
        assert(vec_in_range(ps[0]));
        lemma_parse_point_at(s, i + 1, ps[0]);
        let e = i + 1 + pc.len() as int;
        lemma_parse_shape_rest_at(s, e, ps, 1, seq![ps[0]]);
        assert(seq![ps[0]] + ps.skip(1) =~= ps);
        assert(t.len() == 1 + pc.len() + rest.len() + 1);
    }
}

/// The first byte of a shape's text is its opening bracket.
pub proof fn lemma_shape_chars_first(ps: Seq<Vector>)
    ensures
        shape_chars(ps).len() >= 2,
        shape_chars(ps)[0] == 91,
{
    let inner = if ps.len() == 0 { Seq::<u8>::empty() } else {
        point_chars(ps[0]) + points_chars(ps, 1)
    };
    assert(shape_chars(ps) == (seq![91u8] + inner) + seq![93u8]);
    assert(shape_chars(ps)[0] == (seq![91u8] + inner)[0]);
}

/// Reading the remaining shapes of a document extends what was already
/// accumulated, up to the closing bracket that ends the text.
pub proof fn lemma_parse_doc_rest_at(
    s: Seq<u8>,
    i: int,
    c: Seq<Seq<Vector>>,
    from: int,
    acc: Seq<Seq<Vector>>,
)
    requires
        forall|j: int| 0 <= j < c.len() ==> pts_in_range(#[trigger] c[j]),
        1 <= from <= c.len(),
        matches_at(s, i, shapes_chars(c, from) + seq![93u8]),
        i + shapes_chars(c, from).len() + 1 == s.len(),
    ensures
        parse_doc_rest(s, i, acc) == Some(acc + c.skip(from)),
    decreases c.len() - from,
{
    if from == c.len() {
        assert(shapes_chars(c, from) == Seq::<u8>::empty());
        assert(shapes_chars(c, from) + seq![93u8] == seq![93u8]);
        lemma_matches_index(s, i, seq![93u8], 0);
        assert(s[i + 0] == 93);
        assert(s[i] == 93);
        lemma_skip_ws_here(s, i);
        assert(i + 1 == s.len());
        lemma_skip_ws_here(s, i + 1);
        assert(acc + c.skip(from) =~= acc);
    } else {
        let sc = shape_chars(c[from]);
        let rest = shapes_chars(c, from + 1);
        assert(shapes_chars(c, from) + seq![93u8]
            == (seq![44u8] + sc) + (rest + seq![93u8]));
        lemma_matches_split(s, i, seq![44u8] + sc, rest + seq![93u8]);
        lemma_matches_split(s, i, seq![44u8], sc);
        lemma_matches_index(s, i, seq![44u8], 0);
        assert(s[i + 0] == 44);
        assert(s[i] == 44);
        lemma_skip_ws_here(s, i);
        assert(matches_at(s, i + 1, sc));
        assert(pts_in_range(c[from]));
        lemma_parse_shape_at(s, i + 1, c[from]);
        let e = i + 1 + sc.len() as int;
        lemma_parse_doc_rest_at(s, e, c, from + 1, acc.push(c[from]));
        assert(acc.push(c[from]) + c.skip(from + 1) =~= acc + c.skip(from));
        assert(shapes_chars(c, from).len() == 1 + sc.len() + rest.len());
    }
}

/// Writing a document and reading it back returns exactly the same
/// shapes with the same vertices: the round trip of the persistence
/// format.
#[verifier::rlimit(100)]
#[verifier::spinoff_prover]
pub proof fn lemma_doc_round_trip(c: Seq<Seq<Vector>>)
    requires
        forall|j: int| 0 <= j < c.len() ==> pts_in_range(#[trigger] c[j]),
    ensures
        parse_doc(doc_chars(c)) == Some(c),
{
    let s = doc_chars(c);
    assert(matches_at(s, 0, s)) by {
        assert(forall|k: int| 0 <= k < s.len() ==> #[trigger] s[0 + k] == s[k]);
    }
    if c.len() == 0 {
        assert(s == seq![91u8] + seq![93u8]) by {
            assert(s =~= seq![91u8] + seq![93u8]);
        }
        lemma_matches_split(s, 0, seq![91u8], seq![93u8]);
        lemma_matches_index(s, 0, seq![91u8], 0);
        lemma_matches_index(s, 1, seq![93u8], 0);
        assert(s[0int] == 91 && s[1int + 0] == 93);
        lemma_skip_ws_here(s, 0);
        lemma_skip_ws_here(s, 1);
        lemma_skip_ws_here(s, 2);
        assert(c =~= Seq::<Seq<Vector>>::empty());
    } else {
        let sc = shape_chars(c[0]);
        let rest = shapes_chars(c, 1);
        assert(s == (seq![91u8] + sc) + (rest + seq![93u8]));
        lemma_matches_split(s, 0, seq![91u8] + sc, rest + seq![93u8]);
        lemma_matches_split(s, 0, seq![91u8], sc);
        lemma_matches_index(s, 0, seq![91u8], 0);
        assert(s[0int + 0] == 91);
        lemma_skip_ws_here(s, 0);
        lemma_shape_chars_first(c[0]);
        lemma_matches_index(s, 1, sc, 0);
        assert(s[1] == 91);
        lemma_skip_ws_here(s, 1);
        assert(pts_in_range(c[0]));
        lemma_parse_shape_at(s, 1, c[0]);
        let e = 1 + sc.len() as int;
        lemma_parse_doc_rest_at(s, e, c, 1, seq![c[0]]);
        assert(seq![c[0]] + c.skip(1) =~= c);
        assert(s.len() == 1 + sc.len() + rest.len() + 1);
    }
}

/// Ten to the `e`, on machine integers.
fn pow10_exec(e: u32) -> (r: u64)
    requires
        e <= 6,
    ensures
        r == pow10(e as int),
{
    proof {
        lemma_pow10_6();
    }
    if e == 0 {
        1
    } else if e == 1 {
        10
    } else if e == 2 {
        100
    } else if e == 3 {
        1_000
    } else if e == 4 {
        10_000
    } else if e == 5 {
        100_000
    } else {
        1_000_000
    }
}

/// Append the decimal digits of `n`.
fn push_dec_digits(out: &mut Vec<u8>, n: u64)
    ensures
        final(out)@ == old(out)@ + dec_digits(n as int),
    decreases n,
{
    let ghost before = out@;
    if n < 10 {
        out.push(48 + n as u8);
        proof {
            assert(final(out)@ =~= before + dec_digits(n as int));
        }
    } else {
        push_dec_digits(out, n / 10);
        out.push(48 + (n % 10) as u8);
        proof {
            assert((48 + (n as int) % 10) as u8 == 48 + (n % 10) as u8);
            assert(final(out)@ =~= before + dec_digits(n as int));
        }
    }
}

/// Append the fraction digits of `fr`, written to `e` places with
/// trailing zeros dropped.
fn push_frac_digits(out: &mut Vec<u8>, fr: u64, e: u32)
    requires
        e <= 6,
        fr < pow10(e as int),
    ensures
        final(out)@ == old(out)@ + frac_digits(fr as int, e as int),
    decreases e,
{
    let ghost before = out@;
    if e == 0 || fr == 0 {
        proof {
            assert(before + frac_digits(fr as int, e as int) =~= before);
        }
    } else {
        let p: u64 = pow10_exec(e - 1);
        proof {
            lemma_pow10_pos(e as int - 1);
            lemma_fundamental_div_mod(fr as int, p as int);
            lemma_mod_division_less_than_divisor(fr as int, p as int);
            assert(0 <= (fr as int) / (p as int) <= 9) by (nonlinear_arith)
                requires (p as int) >= 1 && 0 <= (fr as int) < 10 * (p as int)
                    && fr as int == (p as int) * ((fr as int) / (p as int)) + (fr as int) % (p as int)
                    && 0 <= (fr as int) % (p as int) < p as int;
            assert(pow10(e as int) == 10 * pow10(e as int - 1));
        }
        let d: u64 = fr / p;
        out.push(48 + d as u8);
        push_frac_digits(out, fr % p, e - 1);
        proof {
            assert(final(out)@ =~= before + frac_digits(fr as int, e as int));
        }
    }
}

/// Append the canonical numeral of the grid value `v`.
fn push_num_chars(out: &mut Vec<u8>, v: i64)
    requires
        in_range(v as int),
    ensures
        final(out)@ == old(out)@ + num_chars(v as int),
{
    let ghost before = out@;
    let m: u64 = if v < 0 {
        out.push(45);
        (-(v as i128)) as u64
    } else {
        v as u64
    };
    let q: u64 = m / 1_000_000;
    let fr: u64 = m % 1_000_000;
    proof {
        lemma_pow10_6();
        assert(m as int == if (v as int) < 0 { -(v as int) } else { v as int });
    }
    push_dec_digits(out, q);
    if fr != 0 {
        out.push(46);
        push_frac_digits(out, fr, 6);
    }
    proof {
        assert(final(out)@ =~= before + num_chars(v as int));
    }
}

/// Append the canonical text of one point.
pub fn push_point_chars(out: &mut Vec<u8>, p: Vector)
    requires
        vec_in_range(p),
    ensures
        final(out)@ == old(out)@ + point_chars(p),
{
    let ghost before = out@;
    out.push(91);
    push_num_chars(out, p.x);
    out.push(44);
    push_num_chars(out, p.y);
    out.push(93);
    proof {
        assert(final(out)@ =~= before + point_chars(p));
    }
}

/// Append the canonical text of one shape.
pub fn push_shape_chars(out: &mut Vec<u8>, points: &Vec<Vector>)
    requires
        pts_in_range(points@),
    ensures
        final(out)@ == old(out)@ + shape_chars(points@),
{
    let ghost before = out@;
    let n: usize = points.len();
    out.push(91);
    if n > 0 {
        push_point_chars(out, points[0]);
        let mut i: usize = 1;
        while i < n
            invariant
                1 <= i <= n,
                n == points@.len(),
                pts_in_range(points@),
                out@ + points_chars(points@, i as int) + seq![93u8]
                    =~= before + shape_chars(points@),
            decreases n - i,
        {
            let ghost at_entry = out@;
            out.push(44);
            push_point_chars(out, points[i]);
            proof {
                assert(out@ =~= at_entry + seq![44u8] + point_chars(points@[i as int]));
                assert(out@ + points_chars(points@, i + 1) + seq![93u8]
                    =~= at_entry + points_chars(points@, i as int) + seq![93u8]);
            }
            i = i + 1;
        }
        out.push(93);
        proof {
            assert(final(out)@ =~= before + shape_chars(points@));
        }
    } else {
        out.push(93);
        proof {
            assert(final(out)@ =~= before + shape_chars(points@));
        }
    }
}

/// First position at or after `i` holding something other than blanks,
/// on machine integers.
pub fn ws_to(s: &[u8], i: usize) -> (r: usize)
    requires
        i <= s@.len(),
    ensures
        r == skip_ws(s@, i as int),
        i <= r <= s@.len(),
{
    let n: usize = s.len();
    let mut j: usize = i;
    while j < n && (s[j] == 32 || s[j] == 9 || s[j] == 10 || s[j] == 13)
        invariant
            i <= j <= n,
            n == s@.len(),
            skip_ws(s@, i as int) == skip_ws(s@, j as int),
        decreases n - j,
    {
        j = j + 1;
    }
    j
}

/// Read one numeral: its value on the grid and the position after it.
pub fn parse_number_at(s: &[u8], i: usize) -> (r: Option<(i64, usize)>)
    requires
        i <= s@.len(),
    ensures
        r matches Some(ve) ==> parse_number(s@, i as int) == Some((ve.0 as int, ve.1 as int))
            && i < ve.1 <= s@.len() && in_range(ve.0 as int),
        r is None ==> parse_number(s@, i as int) is None,
{
    let n: usize = s.len();
    let neg: bool = i < n && s[i] == 45;
    let i1: usize = if neg {
        i + 1
    } else {
        i
    };
    // the whole-units digits; values beyond the grid cap are remembered
    // only as an overflow
    let cap: i64 = COORD_LIMIT / SCALE;
    let mut j: usize = i1;
    let mut val: i64 = 0;
    let mut over: bool = false;
    while j < n && 48 <= s[j] && s[j] <= 57
        invariant
            i1 <= j <= n,
            n == s@.len(),
            0 <= val,
            forall|k: int| i1 <= k < j ==> is_digit(#[trigger] s@[k]),
            !over ==> val == digits_val(s@, i1 as int, j as int) && val <= cap,
            over ==> digits_val(s@, i1 as int, j as int) > cap,
            cap == 2_305_843_009_213,
        decreases n - j,
    {
        let d: i64 = (s[j] - 48) as i64;
        if over {
            proof {
                let prev = digits_val(s@, i1 as int, j as int);
                assert(digits_val(s@, i1 as int, j as int + 1) == prev * 10 + (s@[j as int] - 48));
                assert(prev * 10 + (s@[j as int] - 48) > cap) by (nonlinear_arith)
                    requires prev > cap && cap >= 0 && s@[j as int] - 48 >= 0;
            }
        } else {
            let next: i64 = val * 10 + d;
            if next > cap {
                over = true;
            } else {
                val = next;
            }
            proof {
                assert(digits_val(s@, i1 as int, j as int + 1)
                    == digits_val(s@, i1 as int, j as int) * 10 + (s@[j as int] - 48));
            }
        }
        j = j + 1;
    }
    proof {
        lemma_digits_end_run(s@, i1 as int, j as int);
    }
    if j == i1 {
        return None;
    }
    // the optional fraction
    let mut end: usize = j;
    let mut fr: i64 = 0;
    if j < n && s[j] == 46 {
        let k0: usize = j + 1;
        let mut k: usize = k0;
        let mut fv: i64 = 0;
        let mut toolong: bool = false;
        while k < n && 48 <= s[k] && s[k] <= 57
            invariant
                k0 <= k <= n,
                n == s@.len(),
                forall|m: int| k0 <= m < k ==> is_digit(#[trigger] s@[m]),
                !toolong ==> (k - k0 <= 6 && fv == digits_val(s@, k0 as int, k as int)
                    && 0 <= fv < pow10((k - k0) as int)),
                toolong ==> k - k0 >= 7,
            decreases n - k,
        {
            proof {
                assert(digits_val(s@, k0 as int, k as int + 1)
                    == digits_val(s@, k0 as int, k as int) * 10 + (s@[k as int] - 48));
                lemma_pow10_6();
            }
            if toolong {
            } else if k - k0 == 6 {
                toolong = true;
            } else {
                proof {
                    assert(pow10((k - k0) as int + 1) == 10 * pow10((k - k0) as int));
                    assert(fv * 10 + (s@[k as int] - 48) < 10 * pow10((k - k0) as int))
                        by (nonlinear_arith)
                        requires 0 <= fv < pow10((k - k0) as int) && s@[k as int] <= 57;
                    assert(pow10((k - k0) as int) <= 100_000) by {
                        lemma_pow10_6();
                        lemma_pow10_mono((k - k0) as int, 5);
                    }
                }
                fv = fv * 10 + (s[k] - 48) as i64;
            }
            k = k + 1;
        }
        proof {
            lemma_digits_end_run(s@, k0 as int, k as int);
        }
        if toolong || k == k0 {
            return None;
        }
        proof {
            lemma_pow10_6();
            lemma_pow10_add((k - k0) as int, 6 - (k - k0) as int);
        }
        let scale_up: u64 = pow10_exec(6 - (k - k0) as u32);
        proof {
            assert(fv * (scale_up as int) < 1_000_000 && 0 <= fv * (scale_up as int))
                by (nonlinear_arith)
                requires 0 <= fv < pow10((k - k0) as int)
                    && scale_up == pow10(6 - (k - k0) as int) && scale_up >= 1
                    && pow10((k - k0) as int) * pow10(6 - (k - k0) as int) == 1_000_000;
        }
        fr = fv * (scale_up as i64);
        end = k;
        proof {
            assert(fr == digits_val(s@, k0 as int, k as int) * pow10(
                6 - ((k as int) - (j as int) - 1)));
        }
    }
    // combine, apply the sign, and hold the value to the grid
    if over {
        proof {
            let q = digits_val(s@, i1 as int, j as int);
            let raw = q * (SCALE as int) + (if j < s@.len() && s@[j as int] == 46 {
                digits_val(s@, j as int + 1, digits_end(s@, j as int + 1))
                    * pow10(6 - (digits_end(s@, j as int + 1) - (j as int) - 1))
            } else { 0int });
            assert(q * (SCALE as int) > COORD_LIMIT) by (nonlinear_arith)
                requires q > 2_305_843_009_213 && SCALE == 1_000_000
                    && COORD_LIMIT == 0x2000_0000_0000_0000;
        }
        return None;
    }
    let raw: i64 = val * SCALE + fr;
    proof {
        assert(val * (SCALE as int) <= 2_305_843_009_213i64 * 1_000_000) by (nonlinear_arith)
            requires 0 <= val <= 2_305_843_009_213 && SCALE == 1_000_000;
        assert(0 <= val * (SCALE as int)) by (nonlinear_arith)
            requires 0 <= val;
    }
    let v: i64 = if neg {
        -raw
    } else {
        raw
    };
    if v < -COORD_LIMIT || v > COORD_LIMIT {
        return None;
    }
    Some((v, end))
}

/// Read one `[x,y]` pair: the point and the position after it.
pub fn parse_point_at(s: &[u8], i: usize) -> (r: Option<(Vector, usize)>)
    requires
        i <= s@.len(),
    ensures
        r matches Some(pe) ==> parse_point(s@, i as int) == Some((pe.0, pe.1 as int))
            && i < pe.1 <= s@.len() && vec_in_range(pe.0),
        r is None ==> parse_point(s@, i as int) is None,
{
    let n: usize = s.len();
    let a: usize = ws_to(s, i);
    if !(a < n && s[a] == 91) {
        return None;
    }
    let w1: usize = ws_to(s, a + 1);
    let first = parse_number_at(s, w1);
    match first {
        None => None,
        Some((x, e1)) => {
            let c: usize = ws_to(s, e1);
            if !(c < n && s[c] == 44) {
                return None;
            }
            let w2: usize = ws_to(s, c + 1);
            let second = parse_number_at(s, w2);
            match second {
                None => None,
                Some((y, e2)) => {
                    let d: usize = ws_to(s, e2);
                    if d < n && s[d] == 93 {
                        Some((Vector { x, y }, d + 1))
                    } else {
                        None
                    }
                },
            }
        },
    }
}

/// Read one shape: its points and the position after it.
pub fn parse_shape_at(s: &[u8], i: usize) -> (r: Option<(Vec<Vector>, usize)>)
    requires
        i <= s@.len(),
    ensures
        r matches Some(pe) ==> parse_shape(s@, i as int) == Some((pe.0@, pe.1 as int))
            && i < pe.1 <= s@.len() && pts_in_range(pe.0@),
        r is None ==> parse_shape(s@, i as int) is None,
{
    let n: usize = s.len();
    let a: usize = ws_to(s, i);
    if !(a < n && s[a] == 91) {
        return None;
    }
    let b: usize = ws_to(s, a + 1);
    if b < n && s[b] == 93 {
        let empty: Vec<Vector> = Vec::new();
        proof {
            assert(empty@ =~= Seq::<Vector>::empty());
        }
        return Some((empty, b + 1));
    }
    let first = parse_point_at(s, a + 1);
    match first {
        None => None,
        Some((p0, e0)) => {
            let mut acc: Vec<Vector> = Vec::new();
            acc.push(p0);
            proof {
                assert(acc@ =~= seq![p0]);
            }
            let mut cur: usize = e0;
            loop
                invariant
                    i < cur <= n,
                    n == s@.len(),
                    pts_in_range(acc@),
                    parse_shape(s@, i as int) == parse_shape_rest(s@, cur as int, acc@),
                decreases n - cur,
            {
                let c: usize = ws_to(s, cur);
                if c < n && s[c] == 93 {
                    return Some((acc, c + 1));
                }
                if !(c < n && s[c] == 44) {
                    return None;
                }
                let next = parse_point_at(s, c + 1);
                match next {
                    None => {
                        return None;
                    },
                    Some((p, e)) => {
                        let ghost before = acc@;
                        acc.push(p);
                        proof {
                            assert(acc@ =~= before.push(p));
                        }
                        cur = e;
                    },
                }
            }
        },
    }
}

} // verus!
