//! Drift tolerances, read from the `tolerances` section of a manifest, and
//! the decimal values they are written with (`10%`, `2px`, `1dp`).

use vstd::prelude::*;

use crate::schema::Micro;
use crate::text::{
    append_chars, append_str, chars_of, first_index_from, is_ascii_digit, is_digit,
    lemma_first_index_from_props, find_char_from, string_of, subvec, trim, trim_chars,
};

verus! {

/// Allowed drift between two captures, every field in millionths of its unit.
#[derive(Debug)]
pub struct Tolerances {
    /// Position and size drift, in percent of the viewport width.
    pub spatial_pct: Micro,
    /// Font size drift, in percent of the larger size.
    pub text_size_pct: Micro,
    /// Colour distance (CIEDE2000).
    pub color_delta_e: Micro,
    pub text_weight: WeightTolerance,
    pub icon_size_pct: Micro,
    pub card_size_pct: Micro,
    /// Corner radius drift, in px.
    pub corner_radius_px: Micro,
    /// Border width drift, in px.
    pub border_width_px: Micro,
}

#[derive(Debug, Clone, Copy, PartialEq, Eq)]
pub enum WeightTolerance {
    Exact,
}

impl Default for Tolerances {
    fn default() -> (r: Self)
        ensures
            r.spatial_pct == 10_000_000,
            r.text_size_pct == 5_000_000,
            r.color_delta_e == 3_000_000,
            r.text_weight == WeightTolerance::Exact,
            r.icon_size_pct == 5_000_000,
            r.card_size_pct == 10_000_000,
            r.corner_radius_px == 2_000_000,
            r.border_width_px == 1_000_000,
    {
        Tolerances {
            spatial_pct: 10_000_000,
            text_size_pct: 5_000_000,
            color_delta_e: 3_000_000,
            text_weight: WeightTolerance::Exact,
            icon_size_pct: 5_000_000,
            card_size_pct: 10_000_000,
            corner_radius_px: 2_000_000,
            border_width_px: 1_000_000,
        }
    }
}

/// The `tolerances` section as written in the manifest.
#[derive(Debug)]
pub struct RawTolerances {
    pub spatial: Option<String>,
    pub text_size: Option<String>,
    /// Colour distance, in millionths.
    pub color: Option<Micro>,
    pub text_weight: Option<String>,
    pub icon_size: Option<String>,
    pub card_size: Option<String>,
    pub corner_radius: Option<String>,
    pub border_width: Option<String>,
}

// ---------------------------------------------------------------------------
// Decimal values
// ---------------------------------------------------------------------------

pub open spec fn all_digits(s: Seq<char>) -> bool {
    forall|k: int| 0 <= k < s.len() ==> is_digit(#[trigger] s[k])
}

/// Value of a string of decimal digits.
pub open spec fn digits_value(s: Seq<char>) -> nat
    decreases s.len(),
{
    if s.len() == 0 {
        0
    } else {
        digits_value(s.drop_last()) * 10 + ((s.last() as u32) - ('0' as u32)) as nat
    }
}

pub open spec fn clamp_i64(v: int) -> int {
    if v > i64::MAX {
        i64::MAX as int
    } else if v < i64::MIN {
        i64::MIN as int
    } else {
        v
    }
}

/// `s` spells the word whose small and capital forms are `lo` and `up`,
/// each letter in either case.
pub open spec fn spells(s: Seq<char>, lo: Seq<char>, up: Seq<char>) -> bool {
    &&& s.len() == lo.len()
    &&& lo.len() == up.len()
    &&& forall|k: int| 0 <= k < s.len() ==> #[trigger] s[k] == lo[k] || s[k] == up[k]
}

/// Position of the first exponent mark (`e` or `E`).
pub open spec fn first_exp_mark(s: Seq<char>) -> Option<int> {
    match (first_index_from(s, 'e', 0), first_index_from(s, 'E', 0)) {
        (Some(a), Some(b)) => Some(if a < b { a } else { b }),
        (Some(a), None) => Some(a),
        (None, Some(b)) => Some(b),
        (None, None) => None,
    }
}

/// A mantissa `digits[.digits]` (at least one digit in all): its digits,
/// and how many of them follow the point.
pub open spec fn mantissa_digits(m: Seq<char>) -> Option<(Seq<char>, nat)> {
    match first_index_from(m, '.', 0) {
        None => if m.len() > 0 && all_digits(m) {
            Some((m, 0))
        } else {
            None
        },
        Some(p) => {
            let w = m.subrange(0, p);
            let f = m.subrange(p + 1, m.len() as int);
            if all_digits(w) && all_digits(f) && (w.len() > 0 || f.len() > 0) {
                Some((w + f, f.len()))
            } else {
                None
            }
        },
    }
}

/// An exponent `[+-]digits`.
pub open spec fn exponent_value(x: Seq<char>) -> Option<int> {
    let signed = x.len() > 0 && (x[0] == '-' || x[0] == '+');
    let body = if signed { x.drop_first() } else { x };
    if body.len() > 0 && all_digits(body) {
        Some(if x.len() > 0 && x[0] == '-' { -(digits_value(body) as int) } else { digits_value(body) as int })
    } else {
        None
    }
}

pub open spec fn zero_chars(n: nat) -> Seq<char> {
    Seq::new(n, |i: int| '0')
}

/// The digits `g` moved `s` places: `s` zeros appended, or the last `-s`
/// digits dropped.
pub open spec fn shifted(g: Seq<char>, s: int) -> Seq<char> {
    if s >= 0 {
        g + zero_chars(s as nat)
    } else if g.len() + s > 0 {
        g.subrange(0, g.len() + s)
    } else {
        Seq::empty()
    }
}

/// The number whose digits are `g`, with `l` of them after the point, times
/// `10^e`, in millionths cut toward zero, held within `i64`.
pub open spec fn scaled_micro(neg: bool, g: Seq<char>, l: nat, e: int) -> int {
    let v = digits_value(shifted(g, e + 6 - l)) as int;
    clamp_i64(if neg { -v } else { v })
}

/// A number as `f64` parsing reads it, in millionths: `[+-]` then a
/// mantissa `digits[.digits]` (at least one digit) with an optional
/// exponent `e[+-]digits`, cut toward zero past the sixth decimal and held
/// within `i64`; `inf` and `infinity` (any case) give the largest or, with
/// `-`, the least value, and `nan` the least value, which no drift is
/// within (as no comparison with NaN holds); `None` for any other text.
pub open spec fn parse_decimal(s: Seq<char>) -> Option<int> {
    let signed = s.len() > 0 && (s[0] == '-' || s[0] == '+');
    let neg = s.len() > 0 && s[0] == '-';
    let body = if signed { s.drop_first() } else { s };
    if spells(body, "inf"@, "INF"@) || spells(body, "infinity"@, "INFINITY"@) {
        Some(if neg { i64::MIN as int } else { i64::MAX as int })
    } else if spells(body, "nan"@, "NAN"@) {
        Some(i64::MIN as int)
    } else {
        finite_decimal(neg, body)
    }
}

/// A finite number without its sign: a mantissa and an optional exponent.
pub open spec fn finite_decimal(neg: bool, body: Seq<char>) -> Option<int> {
    match first_exp_mark(body) {
        None => match mantissa_digits(body) {
            Some((g, l)) => Some(scaled_micro(neg, g, l, 0)),
            None => None,
        },
        Some(q) => match (
            mantissa_digits(body.subrange(0, q)),
            exponent_value(body.subrange(q + 1, body.len() as int)),
        ) {
            (Some((g, l)), Some(e)) => Some(scaled_micro(neg, g, l, e)),
            _ => None,
        },
    }
}

/// `s` with every trailing copy of `suffix` removed.
pub open spec fn trim_end_matches(s: Seq<char>, suffix: Seq<char>) -> Seq<char>
    decreases s.len(),
{
    if suffix.len() > 0 && s.len() >= suffix.len() && s.subrange(
        s.len() - suffix.len(),
        s.len() as int,
    ) == suffix {
        trim_end_matches(s.subrange(0, s.len() - suffix.len()), suffix)
    } else {
        s
    }
}

/// The text a percentage is read from: trimmed, trailing `%` removed.
pub open spec fn pct_text(s: Seq<char>) -> Seq<char> {
    trim_end_matches(trim(s), seq!['%'])
}

/// The text a pixel value is read from: trimmed, trailing `px` then
/// trailing `dp` removed.
pub open spec fn px_text(s: Seq<char>) -> Seq<char> {
    trim_end_matches(trim_end_matches(trim(s), seq!['p', 'x']), seq!['d', 'p'])
}

pub open spec fn invalid_msg(kind: Seq<char>, field: Seq<char>, text: Seq<char>) -> Seq<char> {
    "invalid "@ + kind + " for "@ + field + ": "@ + text
}

/// `parse_pct`: a percentage in millionths, or the message naming the field.
pub open spec fn pct_result(s: Seq<char>, field: Seq<char>) -> Result<int, Seq<char>> {
    match parse_decimal(pct_text(s)) {
        Some(v) => Ok(v),
        None => Err(invalid_msg("percentage"@, field, pct_text(s))),
    }
}

/// `parse_px`: a pixel value in millionths, or the message naming the field.
pub open spec fn px_result(s: Seq<char>, field: Seq<char>) -> Result<int, Seq<char>> {
    match parse_decimal(px_text(s)) {
        Some(v) => Ok(v),
        None => Err(invalid_msg("pixel value"@, field, px_text(s))),
    }
}

/// Above every value of `i64`: a larger magnitude is held at the bound.
const VALUE_CAP: u128 = 10_000_000_000_000_000_000;

/// Above every length of text: a larger exponent moves every digit out.
const EXP_CAP: u128 = 100_000_000_000_000_000_000;

fn digit_value(c: char) -> (r: u128)
    requires
        is_digit(c),
    ensures
        r == (c as u32) - ('0' as u32),
        r < 10,
{
    ((c as u32) - ('0' as u32)) as u128
}

spec fn min_cap(v: int, cap: int) -> int {
    if v < cap {
        v
    } else {
        cap
    }
}

/// Value of a digit string, held at `cap`.
fn capped_digits_value(s: &Vec<char>, lo: usize, hi: usize, cap: u128) -> (r: u128)
    requires
        lo <= hi <= s.len(),
        all_digits(s@.subrange(lo as int, hi as int)),
        0 < cap <= EXP_CAP,
    ensures
        r == min_cap(digits_value(s@.subrange(lo as int, hi as int)) as int, cap as int),
{
    let mut acc: u128 = 0;
    let mut i = lo;
    while i < hi
        invariant
            lo <= i <= hi,
            hi <= s.len(),
            0 < cap <= EXP_CAP,
            all_digits(s@.subrange(lo as int, hi as int)),
            acc == min_cap(digits_value(s@.subrange(lo as int, i as int)) as int, cap as int),
        decreases hi - i,
    {
        assert(s@.subrange(lo as int, hi as int)[i - lo] == s@[i as int]);
        let d = digit_value(s[i]);
        let ghost prev = digits_value(s@.subrange(lo as int, i as int)) as int;
        assert(s@.subrange(lo as int, i + 1).drop_last() =~= s@.subrange(lo as int, i as int));
        assert(digits_value(s@.subrange(lo as int, i + 1)) == prev * 10 + d);
        let next = acc * 10 + d;
        assert(min_cap(prev * 10 + d, cap as int) == (if next < cap { next as int } else { cap as int })) by (nonlinear_arith)
            requires
                acc == min_cap(prev, cap as int),
                prev >= 0,
                cap > 0,
                0 <= d < 10,
                next == acc * 10 + d,
        {
        }
        acc = if next < cap { next } else { cap };
        i = i + 1;
    }
    acc
}

fn digits_only(s: &Vec<char>, lo: usize, hi: usize) -> (r: bool)
    requires
        lo <= hi <= s.len(),
    ensures
        r == all_digits(s@.subrange(lo as int, hi as int)),
{
    let mut i = lo;
    while i < hi
        invariant
            lo <= i <= hi,
            hi <= s.len(),
            forall|k: int| lo <= k < i ==> is_digit(#[trigger] s@[k]),
        decreases hi - i,
    {
        if !is_ascii_digit(s[i]) {
            assert(s@.subrange(lo as int, hi as int)[i - lo] == s@[i as int]);
            return false;
        }
        i = i + 1;
    }
    assert forall|k: int| 0 <= k < hi - lo implies is_digit(#[trigger] s@.subrange(lo as int, hi as int)[k]) by {
        assert(s@.subrange(lo as int, hi as int)[k] == s@[lo + k]);
    }
    true
}

pub open spec fn pow10(n: nat) -> nat
    decreases n,
{
    if n == 0 {
        1
    } else {
        pow10((n - 1) as nat) * 10
    }
}

proof fn lemma_pow10_pos(n: nat)
    ensures
        pow10(n) >= 1,
    decreases n,
{
    if n > 0 {
        lemma_pow10_pos((n - 1) as nat);
    }
}

proof fn lemma_pow10_grows(a: nat, b: nat)
    requires
        a <= b,
    ensures
        1 <= pow10(a) <= pow10(b),
    decreases b,
{
    lemma_pow10_pos(a);
    if b > a {
        lemma_pow10_grows(a, (b - 1) as nat);
    }
}

proof fn lemma_pow10_big(n: nat)
    requires
        n >= 19,
    ensures
        pow10(n) >= VALUE_CAP,
    decreases n,
{
    if n > 19 {
        lemma_pow10_big((n - 1) as nat);
    } else {
        reveal_with_fuel(pow10, 20);
    }
}

proof fn lemma_zeros_value(g: Seq<char>, n: nat)
    ensures
        digits_value(g + zero_chars(n)) == digits_value(g) * pow10(n),
    decreases n,
{
    if n == 0 {
        assert(g + zero_chars(0) =~= g);
        assert(pow10(0) == 1);
        assert(digits_value(g) * 1 == digits_value(g));
    } else {
        lemma_zeros_value(g, (n - 1) as nat);
        let x = g + zero_chars(n);
        assert(x.drop_last() =~= g + zero_chars((n - 1) as nat));
        assert(x[x.len() - 1] == zero_chars(n)[n - 1]);
        assert(x.last() == '0');
        assert(digits_value(x) == digits_value(x.drop_last()) * 10 + ((x.last() as u32) - ('0' as u32)) as nat);
        assert(digits_value(x) == digits_value(x.drop_last()) * 10);
        assert(digits_value(x.drop_last()) == digits_value(g) * pow10((n - 1) as nat));
        assert(pow10(n) == pow10((n - 1) as nat) * 10);
        assert(digits_value(g) * pow10((n - 1) as nat) * 10 == digits_value(g) * pow10(n)) by (nonlinear_arith)
            requires
                pow10(n) == pow10((n - 1) as nat) * 10,
        ;
    }
}

proof fn lemma_big_exponents(g: Seq<char>, l: nat, e: int, c: int)
    requires
        all_digits(g),
        g.len() <= usize::MAX,
        l <= usize::MAX,
        (e >= EXP_CAP && c == EXP_CAP) || (e <= -(EXP_CAP as int) && c == -(EXP_CAP as int)),
    ensures
        digits_value(shifted(g, e + 6 - l)) == 0 <==> digits_value(shifted(g, c + 6 - l)) == 0,
        digits_value(shifted(g, e + 6 - l)) != 0 ==> digits_value(shifted(g, e + 6 - l)) >= VALUE_CAP
            && digits_value(shifted(g, c + 6 - l)) >= VALUE_CAP,
{
    if e >= EXP_CAP {
        let s1 = e + 6 - l;
        let s2 = c + 6 - l;
        lemma_zeros_value(g, s1 as nat);
        lemma_zeros_value(g, s2 as nat);
        lemma_pow10_big(s1 as nat);
        lemma_pow10_big(s2 as nat);
        assert(digits_value(g) * pow10(s1 as nat) >= pow10(s1 as nat) || digits_value(g) == 0) by (nonlinear_arith);
        assert(digits_value(g) * pow10(s2 as nat) >= pow10(s2 as nat) || digits_value(g) == 0) by (nonlinear_arith);
        assert(digits_value(g) == 0 ==> digits_value(g) * pow10(s1 as nat) == 0);
        assert(digits_value(g) == 0 ==> digits_value(g) * pow10(s2 as nat) == 0);
        assert(digits_value(g) * pow10(s1 as nat) == 0 ==> digits_value(g) == 0) by (nonlinear_arith)
            requires
                pow10(s1 as nat) >= VALUE_CAP,
        ;
    } else {
        assert(shifted(g, e + 6 - l) =~= Seq::<char>::empty());
        assert(shifted(g, c + 6 - l) =~= Seq::<char>::empty());
    }
}

/// The number whose digits are `g` (`l` after the point) times `10^e`, in
/// millionths, held within `i64`; an exponent beyond `EXP_CAP` is given as
/// `±EXP_CAP`.
fn scaled_exec(neg: bool, g: &Vec<char>, l: usize, e: i128) -> (r: i64)
    requires
        all_digits(g@),
        -(EXP_CAP as int) <= e <= EXP_CAP,
    ensures
        r == scaled_micro(neg, g@, l as nat, e as int),
{
    let s: i128 = e + 6 - (l as i128);
    let mag: u128;
    if s >= 0 {
        let d = capped_digits_value(g, 0, g.len(), VALUE_CAP);
        assert(g@.subrange(0, g@.len() as int) =~= g@);
        let ghost dv = digits_value(g@) as int;
        let mut acc = d;
        let mut j: i128 = 0;
        assert(pow10(0) == 1);
        assert(dv * pow10(0) == dv);
        while j < s && acc != 0 && acc < VALUE_CAP
            invariant
                0 <= j <= s,
                dv == digits_value(g@) as int,
                acc == min_cap(dv * pow10(j as nat), VALUE_CAP as int),
            decreases s - j,
        {
            proof {
                assert(pow10((j + 1) as nat) == pow10(j as nat) * 10);
                assert(dv * pow10((j + 1) as nat) == (dv * pow10(j as nat)) * 10) by (nonlinear_arith)
                    requires
                        pow10((j + 1) as nat) == pow10(j as nat) * 10,
                ;
            }
            acc = if acc * 10 < VALUE_CAP { acc * 10 } else { VALUE_CAP };
            j = j + 1;
        }
        proof {
            lemma_zeros_value(g@, s as nat);
            lemma_pow10_grows(j as nat, s as nat);
            if acc == 0 {
                assert(dv * pow10(j as nat) == 0);
                assert(dv == 0) by (nonlinear_arith)
                    requires
                        dv * pow10(j as nat) == 0,
                        pow10(j as nat) >= 1,
                ;
            } else if acc >= VALUE_CAP {
                assert(dv * pow10(s as nat) >= dv * pow10(j as nat)) by (nonlinear_arith)
                    requires
                        dv >= 0,
                        pow10(s as nat) >= pow10(j as nat),
                ;
            }
            assert(shifted(g@, s as int) == g@ + zero_chars(s as nat));
            let v = dv * pow10(s as nat);
            assert(digits_value(shifted(g@, s as int)) == v);
            if j == s {
                assert(acc == min_cap(v, VALUE_CAP as int));
            } else if acc == 0 {
                assert(dv * pow10(j as nat) == 0);
                assert(dv == 0) by (nonlinear_arith)
                    requires
                        dv * pow10(j as nat) == 0,
                        pow10(j as nat) >= 1,
                ;
                assert(v == 0) by (nonlinear_arith)
                    requires
                        dv == 0,
                        v == dv * pow10(s as nat),
                ;
            } else {
                assert(acc >= VALUE_CAP);
                assert(dv * pow10(j as nat) >= VALUE_CAP);
                assert(v >= VALUE_CAP);
                assert(acc == VALUE_CAP);
            }
        }
        mag = acc;
        assert(mag == min_cap(digits_value(shifted(g@, s as int)) as int, VALUE_CAP as int));
    } else {
        let k: i128 = (g.len() as i128) + s;
        if k > 0 {
            assert(all_digits(g@.subrange(0, k as int))) by {
                assert forall|i: int| 0 <= i < k implies is_digit(#[trigger] g@.subrange(0, k as int)[i]) by {
                    assert(g@.subrange(0, k as int)[i] == g@[i]);
                }
            }
            mag = capped_digits_value(g, 0, k as usize, VALUE_CAP);
            assert(shifted(g@, s as int) == g@.subrange(0, k as int));
        } else {
            mag = 0;
            assert(shifted(g@, s as int) =~= Seq::<char>::empty());
            assert(digits_value(Seq::<char>::empty()) == 0);
        }
        assert(mag == min_cap(digits_value(shifted(g@, s as int)) as int, VALUE_CAP as int));
    }
    let limit: u128 = 9_223_372_036_854_775_807;
    if neg {
        if mag > limit {
            i64::MIN
        } else {
            -(mag as i64)
        }
    } else {
        if mag > limit {
            i64::MAX
        } else {
            mag as i64
        }
    }
}

/// `v` spells the word whose small and capital forms are `lo` and `up`.
fn spells_exec(v: &Vec<char>, lo: &str, up: &str) -> (r: bool)
    ensures
        r == spells(v@, lo@, up@),
{
    let l = chars_of(lo);
    let u = chars_of(up);
    if v.len() != l.len() || l.len() != u.len() {
        return false;
    }
    let mut k: usize = 0;
    while k < v.len()
        invariant
            k <= v.len(),
            v.len() == l.len(),
            l.len() == u.len(),
            l@ == lo@,
            u@ == up@,
            forall|j: int| 0 <= j < k ==> #[trigger] v@[j] == l@[j] || v@[j] == u@[j],
        decreases v.len() - k,
    {
        if v[k] != l[k] && v[k] != u[k] {
            return false;
        }
        k = k + 1;
    }
    true
}

fn mantissa_exec(m: &Vec<char>) -> (r: Option<(Vec<char>, usize)>)
    ensures
        match mantissa_digits(m@) {
            Some((g, l)) => r matches Some((gv, lv)) && gv@ == g && lv as nat == l,
            None => r is None,
        },
{
    match find_char_from(m, '.', 0) {
        None => {
            assert(m@.subrange(0, m.len() as int) =~= m@);
            if m.len() > 0 && digits_only(m, 0, m.len()) {
                Some((subvec(m, 0, m.len()), 0))
            } else {
                None
            }
        },
        Some(p) => {
            proof {
                lemma_first_index_from_props(m@, '.', 0);
            }
            if digits_only(m, 0, p) && digits_only(m, p + 1, m.len()) && (p > 0 || p + 1 < m.len()) {
                let mut g = subvec(m, 0, p);
                let f = subvec(m, p + 1, m.len());
                append_chars(&mut g, &f);
                Some((g, m.len() - p - 1))
            } else {
                None
            }
        },
    }
}

spec fn clamp_exp(e: int) -> int {
    if e > EXP_CAP {
        EXP_CAP as int
    } else if e < -(EXP_CAP as int) {
        -(EXP_CAP as int)
    } else {
        e
    }
}

fn exponent_exec(x: &Vec<char>) -> (r: Option<i128>)
    ensures
        match exponent_value(x@) {
            Some(e) => r matches Some(c) && c == clamp_exp(e),
            None => r is None,
        },
{
    let signed = x.len() > 0 && (x[0] == '-' || x[0] == '+');
    let neg = x.len() > 0 && x[0] == '-';
    let lo: usize = if signed { 1 } else { 0 };
    assert(signed ==> x@.subrange(1, x.len() as int) =~= x@.drop_first());
    assert(!signed ==> x@.subrange(0, x.len() as int) =~= x@);
    if x.len() > lo && digits_only(x, lo, x.len()) {
        let v = capped_digits_value(x, lo, x.len(), EXP_CAP);
        if neg {
            Some(-(v as i128))
        } else {
            Some(v as i128)
        }
    } else {
        None
    }
}

/// A number in millionths as `f64` parsing reads it, or `None` when the
/// text is not one.
pub fn parse_decimal_micro(s: &Vec<char>) -> (r: Option<Micro>)
    ensures
        r matches Some(v) ==> parse_decimal(s@) == Some(v as int),
        r is None ==> parse_decimal(s@) is None,
{
    let signed = s.len() > 0 && (s[0] == '-' || s[0] == '+');
    let neg = s.len() > 0 && s[0] == '-';
    let body = if signed {
        subvec(s, 1, s.len())
    } else {
        subvec(s, 0, s.len())
    };
    assert(signed ==> body@ =~= s@.drop_first());
    assert(!signed ==> body@ =~= s@);
    if spells_exec(&body, "inf", "INF") || spells_exec(&body, "infinity", "INFINITY") {
        return Some(if neg { i64::MIN } else { i64::MAX });
    }
    if spells_exec(&body, "nan", "NAN") {
        return Some(i64::MIN);
    }
    finite_exec(neg, &body)
}

fn finite_exec(neg: bool, body: &Vec<char>) -> (r: Option<Micro>)
    ensures
        r matches Some(v) ==> finite_decimal(neg, body@) == Some(v as int),
        r is None ==> finite_decimal(neg, body@) is None,
{
    let lower = find_char_from(body, 'e', 0);
    let upper = find_char_from(body, 'E', 0);
    let mark: Option<usize> = match (lower, upper) {
        (Some(a), Some(b)) => Some(if a < b { a } else { b }),
        (Some(a), None) => Some(a),
        (None, Some(b)) => Some(b),
        (None, None) => None,
    };
    assert(mark matches Some(q) ==> first_exp_mark(body@) == Some(q as int));
    assert(mark is None ==> first_exp_mark(body@) is None);
    match mark {
        None => match mantissa_exec(body) {
            Some((g, l)) => Some(scaled_exec(neg, &g, l, 0)),
            None => None,
        },
        Some(q) => {
            proof {
                lemma_first_index_from_props(body@, 'e', 0);
                lemma_first_index_from_props(body@, 'E', 0);
            }
            assert(q < body.len());
            let m = subvec(body, 0, q);
            let x = subvec(body, q + 1, body.len());
            match (mantissa_exec(&m), exponent_exec(&x)) {
                (Some((g, l)), Some(c)) => {
                    proof {
                        let e = exponent_value(x@)->0;
                        if e != c as int {
                            assert(g.len() == g@.len());
                            lemma_big_exponents(g@, l as nat, e, c as int);
                        }
                    }
                    Some(scaled_exec(neg, &g, l, c))
                },
                _ => None,
            }
        },
    }
}

/// `s` with every trailing `c` removed.
fn trim_end_char(v: &Vec<char>, c: char) -> (r: Vec<char>)
    ensures
        r@ == trim_end_matches(v@, seq![c]),
{
    let mut j = v.len();
    assert(v@.subrange(0, v.len() as int) =~= v@);
    while j > 0 && v[j - 1] == c
        invariant
            j <= v.len(),
            trim_end_matches(v@.subrange(0, j as int), seq![c]) == trim_end_matches(v@, seq![c]),
        decreases j,
    {
        assert(v@.subrange(0, j as int).subrange(j - 1, j as int) =~= seq![c]);
        assert(v@.subrange(0, j as int).subrange(0, j - 1) =~= v@.subrange(0, j - 1));
        j = j - 1;
    }
    proof {
        assert(v@.subrange(0, v.len() as int) =~= v@);
        let t = v@.subrange(0, j as int);
        if j > 0 {
            assert(t.subrange(j - 1, j as int)[0] == v@[j - 1]);
            assert(t.subrange(j - 1, j as int) != seq![c]);
        }
        assert(trim_end_matches(t, seq![c]) == t);
    }
    subvec(v, 0, j)
}

/// `s` with every trailing copy of the two-character `suffix` removed.
#[verifier::spinoff_prover]
fn trim_end_pair(v: &Vec<char>, a: char, b: char) -> (r: Vec<char>)
    ensures
        r@ == trim_end_matches(v@, seq![a, b]),
{
    let mut j = v.len();
    assert(v@.subrange(0, v.len() as int) =~= v@);
    while j >= 2 && v[j - 2] == a && v[j - 1] == b
        invariant
            j <= v.len(),
            trim_end_matches(v@.subrange(0, j as int), seq![a, b]) == trim_end_matches(v@, seq![a, b]),
        decreases j,
    {
        assert(v@.subrange(0, j as int).subrange(j - 2, j as int) =~= seq![a, b]);
        assert(v@.subrange(0, j as int).subrange(0, j - 2) =~= v@.subrange(0, j - 2));
        j = j - 2;
    }
    proof {
        assert(v@.subrange(0, v.len() as int) =~= v@);
        if j >= 2 {
            let t = v@.subrange(0, j as int);
            if t.subrange(j - 2, j as int) == seq![a, b] {
                assert(t.subrange(j - 2, j as int)[0] == v@[j - 2]);
                assert(t.subrange(j - 2, j as int)[1] == v@[j - 1]);
            }
        }
    }
    subvec(v, 0, j)
}

fn invalid(kind: &str, field: &str, text: &Vec<char>) -> (r: String)
    ensures
        r@ == invalid_msg(kind@, field@, text@),
{
    let mut m: Vec<char> = Vec::new();
    append_str(&mut m, "invalid ");
    append_str(&mut m, kind);
    append_str(&mut m, " for ");
    append_str(&mut m, field);
    append_str(&mut m, ": ");
    append_chars(&mut m, text);
    assert(m@ =~= invalid_msg(kind@, field@, text@));
    string_of(&m)
}

/// Reads a percentage such as `10%`.
pub fn parse_pct(s: &str, field: &str) -> (r: Result<Micro, String>)
    ensures
        r matches Ok(v) ==> pct_result(s@, field@) == Ok::<int, Seq<char>>(v as int),
        r matches Err(e) ==> pct_result(s@, field@) == Err::<int, Seq<char>>(e@),
{
    let chars = chars_of(s);
    let t = trim_chars(&chars);
    let text = trim_end_char(&t, '%');
    match parse_decimal_micro(&text) {
        Some(v) => Ok(v),
        None => Err(invalid("percentage", field, &text)),
    }
}

/// Reads a pixel value such as `2px` or `1dp`.
pub fn parse_px(s: &str, field: &str) -> (r: Result<Micro, String>)
    ensures
        r matches Ok(v) ==> px_result(s@, field@) == Ok::<int, Seq<char>>(v as int),
        r matches Err(e) ==> px_result(s@, field@) == Err::<int, Seq<char>>(e@),
{
    let chars = chars_of(s);
    let t = trim_chars(&chars);
    let a = trim_end_pair(&t, 'p', 'x');
    let text = trim_end_pair(&a, 'd', 'p');
    match parse_decimal_micro(&text) {
        Some(v) => Ok(v),
        None => Err(invalid("pixel value", field, &text)),
    }
}

pub open spec fn opt_pct(s: Option<String>, field: Seq<char>, default: int) -> Result<int, Seq<char>> {
    match s {
        Some(x) => pct_result(x@, field),
        None => Ok(default),
    }
}

pub open spec fn opt_px(s: Option<String>, field: Seq<char>, default: int) -> Result<int, Seq<char>> {
    match s {
        Some(x) => px_result(x@, field),
        None => Ok(default),
    }
}

/// The first error among the fields, in the order spatial, text_size,
/// icon_size, card_size, corner_radius, border_width.
pub open spec fn raw_error(raw: RawTolerances) -> Option<Seq<char>> {
    let spatial = opt_pct(raw.spatial, "spatial"@, 10_000_000);
    let text = opt_pct(raw.text_size, "text_size"@, 5_000_000);
    let icon = opt_pct(raw.icon_size, "icon_size"@, 5_000_000);
    let card = opt_pct(raw.card_size, "card_size"@, 10_000_000);
    let corner = opt_px(raw.corner_radius, "corner_radius"@, 2_000_000);
    let border = opt_px(raw.border_width, "border_width"@, 1_000_000);
    if spatial is Err {
        Some(spatial->Err_0)
    } else if text is Err {
        Some(text->Err_0)
    } else if icon is Err {
        Some(icon->Err_0)
    } else if card is Err {
        Some(card->Err_0)
    } else if corner is Err {
        Some(corner->Err_0)
    } else if border is Err {
        Some(border->Err_0)
    } else {
        None
    }
}

/// The tolerances a raw section gives when it holds no error: each present
/// field read, each absent one at its default.
pub open spec fn raw_values(raw: RawTolerances, t: Tolerances) -> bool {
    &&& opt_pct(raw.spatial, "spatial"@, 10_000_000) == Ok::<int, Seq<char>>(t.spatial_pct as int)
    &&& opt_pct(raw.text_size, "text_size"@, 5_000_000) == Ok::<int, Seq<char>>(t.text_size_pct as int)
    &&& t.color_delta_e == (match raw.color {
        Some(c) => c,
        None => 3_000_000,
    })
    &&& t.text_weight == WeightTolerance::Exact
    &&& opt_pct(raw.icon_size, "icon_size"@, 5_000_000) == Ok::<int, Seq<char>>(t.icon_size_pct as int)
    &&& opt_pct(raw.card_size, "card_size"@, 10_000_000) == Ok::<int, Seq<char>>(t.card_size_pct as int)
    &&& opt_px(raw.corner_radius, "corner_radius"@, 2_000_000) == Ok::<int, Seq<char>>(
        t.corner_radius_px as int,
    )
    &&& opt_px(raw.border_width, "border_width"@, 1_000_000) == Ok::<int, Seq<char>>(
        t.border_width_px as int,
    )
}

/// The default tolerances.
pub open spec fn is_default(t: Tolerances) -> bool {
    &&& t.spatial_pct == 10_000_000
    &&& t.text_size_pct == 5_000_000
    &&& t.color_delta_e == 3_000_000
    &&& t.text_weight == WeightTolerance::Exact
    &&& t.icon_size_pct == 5_000_000
    &&& t.card_size_pct == 10_000_000
    &&& t.corner_radius_px == 2_000_000
    &&& t.border_width_px == 1_000_000
}

fn read_pct(s: &Option<String>, field: &str, default: Micro) -> (r: Result<Micro, String>)
    ensures
        r matches Ok(v) ==> opt_pct(*s, field@, default as int) == Ok::<int, Seq<char>>(v as int),
        r matches Err(e) ==> opt_pct(*s, field@, default as int) == Err::<int, Seq<char>>(e@),
{
    match s {
        Some(x) => parse_pct(x.as_str(), field),
        None => Ok(default),
    }
}

fn read_px(s: &Option<String>, field: &str, default: Micro) -> (r: Result<Micro, String>)
    ensures
        r matches Ok(v) ==> opt_px(*s, field@, default as int) == Ok::<int, Seq<char>>(v as int),
        r matches Err(e) ==> opt_px(*s, field@, default as int) == Err::<int, Seq<char>>(e@),
{
    match s {
        Some(x) => parse_px(x.as_str(), field),
        None => Ok(default),
    }
}

impl Tolerances {
    /// Tolerances from a manifest's `tolerances` section: the defaults when
    /// the section is absent, otherwise each present field read over its
    /// default. The first field that cannot be read gives the error.
    pub fn from_raw(raw: Option<RawTolerances>) -> (r: Result<Tolerances, String>)
        ensures
            raw is None ==> (r matches Ok(t) && is_default(t)),
            raw matches Some(rw) ==> match raw_error(rw) {
                Some(e) => (r matches Err(m) && m@ == e),
                None => (r matches Ok(t) && raw_values(rw, t)),
            },
    {
        let raw = match raw {
            Some(t) => t,
            None => return Ok(Tolerances::default()),
        };
        let spatial_pct = match read_pct(&raw.spatial, "spatial", 10_000_000) {
            Ok(v) => v,
            Err(e) => return Err(e),
        };
        let text_size_pct = match read_pct(&raw.text_size, "text_size", 5_000_000) {
            Ok(v) => v,
            Err(e) => return Err(e),
        };
        let color_delta_e = match raw.color {
            Some(c) => c,
            None => 3_000_000,
        };
        let icon_size_pct = match read_pct(&raw.icon_size, "icon_size", 5_000_000) {
            Ok(v) => v,
            Err(e) => return Err(e),
        };
        let card_size_pct = match read_pct(&raw.card_size, "card_size", 10_000_000) {
            Ok(v) => v,
            Err(e) => return Err(e),
        };
        let corner_radius_px = match read_px(&raw.corner_radius, "corner_radius", 2_000_000) {
            Ok(v) => v,
            Err(e) => return Err(e),
        };
        let border_width_px = match read_px(&raw.border_width, "border_width", 1_000_000) {
            Ok(v) => v,
            Err(e) => return Err(e),
        };
        Ok(Tolerances {
            spatial_pct,
            text_size_pct,
            color_delta_e,
            text_weight: WeightTolerance::Exact,
            icon_size_pct,
            card_size_pct,
            corner_radius_px,
            border_width_px,
        })
    }
}

/// A manifest section that reads keeps every absent field at its default.
pub proof fn law_absent_fields_default(raw: RawTolerances, t: Tolerances)
    requires
        raw_values(raw, t),
    ensures
        raw.spatial is None ==> t.spatial_pct == 10_000_000,
        raw.text_size is None ==> t.text_size_pct == 5_000_000,
        raw.color is None ==> t.color_delta_e == 3_000_000,
        raw.icon_size is None ==> t.icon_size_pct == 5_000_000,
        raw.card_size is None ==> t.card_size_pct == 10_000_000,
        raw.corner_radius is None ==> t.corner_radius_px == 2_000_000,
        raw.border_width is None ==> t.border_width_px == 1_000_000,
        t.text_weight == WeightTolerance::Exact,
{
}

/// A section fails exactly when one of its fields cannot be read; a
/// spatial value that is no number fails with `invalid percentage for
/// spatial: ` and the text read, and a corner radius that is no number,
/// when every field before it reads, with `invalid pixel value for
/// corner_radius: ` and the text read.
pub proof fn law_manifest_errors(raw: RawTolerances)
    ensures
        raw_error(raw) is None <==> (opt_pct(raw.spatial, "spatial"@, 10_000_000) is Ok && opt_pct(
            raw.text_size,
            "text_size"@,
            5_000_000,
        ) is Ok && opt_pct(raw.icon_size, "icon_size"@, 5_000_000) is Ok && opt_pct(
            raw.card_size,
            "card_size"@,
            10_000_000,
        ) is Ok && opt_px(raw.corner_radius, "corner_radius"@, 2_000_000) is Ok && opt_px(
            raw.border_width,
            "border_width"@,
            1_000_000,
        ) is Ok),
        (raw.spatial is Some && parse_decimal(pct_text(raw.spatial->0@)) is None) ==> raw_error(raw) == Some(
            invalid_msg("percentage"@, "spatial"@, pct_text(raw.spatial->0@)),
        ),
        (opt_pct(raw.spatial, "spatial"@, 10_000_000) is Ok && opt_pct(raw.text_size, "text_size"@, 5_000_000) is Ok
            && opt_pct(raw.icon_size, "icon_size"@, 5_000_000) is Ok && opt_pct(raw.card_size, "card_size"@, 10_000_000)
            is Ok && raw.corner_radius is Some && parse_decimal(px_text(raw.corner_radius->0@)) is None) ==> raw_error(
            raw,
        ) == Some(invalid_msg("pixel value"@, "corner_radius"@, px_text(raw.corner_radius->0@))),
{
}

} // verus!
