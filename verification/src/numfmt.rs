//! Decimal text of whole numbers, of millionth-based decimals and of ratios
//! rounded to one decimal place, as the reports print them.

use vstd::prelude::*;

verus! {

pub open spec fn digit_char(d: int) -> char {
    if d == 0 {
        '0'
    } else if d == 1 {
        '1'
    } else if d == 2 {
        '2'
    } else if d == 3 {
        '3'
    } else if d == 4 {
        '4'
    } else if d == 5 {
        '5'
    } else if d == 6 {
        '6'
    } else if d == 7 {
        '7'
    } else if d == 8 {
        '8'
    } else {
        '9'
    }
}

/// Decimal digits of a natural number, without leading zeros.
pub open spec fn nat_str(n: nat) -> Seq<char>
    decreases n,
{
    if n < 10 {
        seq![digit_char(n as int)]
    } else {
        nat_str(n / 10).push(digit_char((n % 10) as int))
    }
}

/// Decimal text of an integer, with a leading `-` when negative.
pub open spec fn int_str(n: int) -> Seq<char> {
    if n < 0 {
        seq!['-'] + nat_str((-n) as nat)
    } else {
        nat_str(n as nat)
    }
}

/// The last `w` decimal digits of `n`, zero-padded.
pub open spec fn padded(n: nat, w: nat) -> Seq<char>
    decreases w,
{
    if w == 0 {
        Seq::empty()
    } else {
        padded(n / 10, (w - 1) as nat).push(digit_char((n % 10) as int))
    }
}

/// `s` without its trailing zeros.
pub open spec fn drop_trailing_zeros(s: Seq<char>) -> Seq<char>
    decreases s.len(),
{
    if s.len() > 0 && s.last() == '0' {
        drop_trailing_zeros(s.drop_last())
    } else {
        s
    }
}

/// Shortest decimal text of `m` millionths: the whole part, then, when the
/// fraction is not zero, a point and the fraction without trailing zeros
/// (`13150000` is `13.15`, `14000000` is `14`).
pub open spec fn micro_str(m: int) -> Seq<char> {
    let a = if m < 0 { -m } else { m };
    let sign = if m < 0 { seq!['-'] } else { Seq::empty() };
    let whole = nat_str((a / 1_000_000) as nat);
    let frac = (a % 1_000_000) as nat;
    if frac == 0 {
        sign + whole
    } else {
        sign + whole + seq!['.'] + drop_trailing_zeros(padded(frac, 6))
    }
}

/// Number of halvings that bring `x` below 2 (the floor of its binary
/// logarithm, 0 for 0 and 1).
pub open spec fn ilog2(x: nat) -> nat
    decreases x,
{
    if x < 2 {
        0
    } else {
        1 + ilog2(x / 2)
    }
}

/// `2^c mod 5`, for any integer exponent `c` (the residues repeat every
/// four exponents).
pub open spec fn pow2_mod5(c: int) -> int {
    let r = c % 4;
    if r == 0 {
        1
    } else if r == 1 {
        2
    } else if r == 2 {
        4
    } else {
        3
    }
}

/// Whether the value `t / 20` (`t` odd), a point half way between two
/// tenths, prints rounded up. When it is a multiple of 1/4 it is exactly a
/// double and the tie goes to the even tenth. Otherwise it is not a double:
/// its nearest double, with a 53-bit mantissa `M = round(t·2^c / 20)`, lies
/// above it exactly when `t·2^(c-2) mod 5` is 3 or 4, where `c` puts
/// `t·2^c / 20` in `[2^52, 2^53)`.
pub open spec fn tie_rounds_up(t: nat) -> bool {
    if t % 5 == 0 {
        ((t as int - 1) / 2) % 2 == 1
    } else {
        let p: int = if t >= 5 {
            ilog2(t / 5) as int
        } else if t >= 3 {
            -1
        } else {
            -3
        };
        ((t % 5) as int * pow2_mod5(52 - p)) % 5 >= 3
    }
}

/// `num / den` printed with exactly one decimal, as the reports print a
/// floating-point ratio: the value taken as its nearest double and rounded
/// to the nearest tenth, a double exactly half way going to the even tenth;
/// a negative value keeps its sign even when it rounds to zero. (For
/// `20·|num| < 2^52` the nearest double of `num / den` falls on the same
/// side of every half-tenth as the ratio itself, so only exact half-tenths
/// need the double.)
pub open spec fn tenths_str(num: int, den: int) -> Seq<char> {
    let a = if num < 0 { -num } else { num };
    let b = if den < 0 { -den } else { den };
    let neg = num != 0 && ((num < 0) != (den < 0));
    let n = (10 * a) / b;
    let rem = (10 * a) % b;
    let q = if 2 * rem < b {
        n
    } else if 2 * rem > b {
        n + 1
    } else if tie_rounds_up((2 * n + 1) as nat) {
        n + 1
    } else {
        n
    };
    let sign = if neg { seq!['-'] } else { Seq::empty() };
    sign + nat_str((q / 10) as nat) + seq!['.', digit_char(q % 10)]
}

fn digit_of(d: u128) -> (c: char)
    requires
        d < 10,
    ensures
        c == digit_char(d as int),
{
    if d == 0 {
        '0'
    } else if d == 1 {
        '1'
    } else if d == 2 {
        '2'
    } else if d == 3 {
        '3'
    } else if d == 4 {
        '4'
    } else if d == 5 {
        '5'
    } else if d == 6 {
        '6'
    } else if d == 7 {
        '7'
    } else if d == 8 {
        '8'
    } else {
        '9'
    }
}

/// Decimal digits of `n`.
pub fn fmt_nat(n: u128) -> (r: Vec<char>)
    ensures
        r@ == nat_str(n as nat),
    decreases n,
{
    if n < 10 {
        let mut v = Vec::new();
        v.push(digit_of(n));
        assert(v@ =~= seq![digit_char(n as int)]);
        v
    } else {
        let mut v = fmt_nat(n / 10);
        v.push(digit_of(n % 10));
        v
    }
}

/// Decimal text of `n`.
pub fn fmt_int(n: i64) -> (r: Vec<char>)
    ensures
        r@ == int_str(n as int),
{
    if n < 0 {
        let mag: u64 = if n == i64::MIN {
            9223372036854775808u64
        } else {
            (-n) as u64
        };
        let mut v = Vec::new();
        v.push('-');
        let d = fmt_nat(mag as u128);
        crate::text::append_chars(&mut v, &d);
        assert(v@ =~= seq!['-'] + nat_str((-(n as int)) as nat));
        v
    } else {
        fmt_nat(n as u128)
    }
}

fn fmt_padded(n: u128, w: u64) -> (r: Vec<char>)
    ensures
        r@ == padded(n as nat, w as nat),
    decreases w,
{
    if w == 0 {
        Vec::new()
    } else {
        let mut v = fmt_padded(n / 10, w - 1);
        v.push(digit_of(n % 10));
        v
    }
}

fn drop_zeros(v: &mut Vec<char>)
    ensures
        final(v)@ == drop_trailing_zeros(old(v)@),
    decreases old(v)@.len(),
{
    if v.len() > 0 && v[v.len() - 1] == '0' {
        let ghost before = v@;
        v.pop();
        assert(v@ =~= before.drop_last());
        drop_zeros(v);
    }
}

/// Shortest decimal text of `m` millionths.
pub fn fmt_micro(m: i64) -> (r: Vec<char>)
    ensures
        r@ == micro_str(m as int),
{
    let a: u64 = if m < 0 {
        if m == i64::MIN {
            9223372036854775808u64
        } else {
            (-m) as u64
        }
    } else {
        m as u64
    };
    let mut v: Vec<char> = Vec::new();
    if m < 0 {
        v.push('-');
    }
    let whole = fmt_nat((a / 1_000_000) as u128);
    crate::text::append_chars(&mut v, &whole);
    let frac = a % 1_000_000;
    if frac != 0 {
        v.push('.');
        let mut f = fmt_padded(frac as u128, 6);
        drop_zeros(&mut f);
        crate::text::append_chars(&mut v, &f);
    }
    let ghost sign: Seq<char> = if m < 0 { seq!['-'] } else { Seq::empty() };
    assert(v@ =~= micro_str(m as int));
    v
}

fn ilog2_exec(x: u128) -> (r: u32)
    ensures
        r == ilog2(x as nat),
        r <= 128,
{
    proof {
        lemma_ilog2_bound(x as nat);
    }
    let mut y = x;
    let mut k: u32 = 0;
    while y >= 2
        invariant
            ilog2(x as nat) == k + ilog2(y as nat),
            k + ilog2(y as nat) <= 128,
        decreases y,
    {
        proof {
            lemma_ilog2_bound(y as nat);
        }
        y = y / 2;
        k = k + 1;
    }
    k
}

proof fn lemma_ilog2_bound(x: nat)
    requires
        x <= u128::MAX,
    ensures
        ilog2(x) <= 127,
        x >= 2 ==> ilog2(x) == 1 + ilog2(x / 2),
{
    vstd::arithmetic::power2::lemma2_to64_rest();
    vstd::arithmetic::power2::lemma_pow2_adds(64, 64);
    assert(vstd::arithmetic::power2::pow2(128) == 0x1_0000_0000_0000_0000int * 0x1_0000_0000_0000_0000int);
    lemma_ilog2_pow(x, 128);
}

proof fn lemma_ilog2_pow(x: nat, k: nat)
    requires
        x < vstd::arithmetic::power2::pow2(k),
        k >= 1,
    ensures
        ilog2(x) < k,
    decreases k,
{
    vstd::arithmetic::power2::lemma_pow2_unfold(k);
    if x >= 2 {
        assert(k >= 2) by {
            if k == 1 {
                vstd::arithmetic::power2::lemma2_to64();
            }
        }
        lemma_ilog2_pow(x / 2, (k - 1) as nat);
    }
}

fn tie_rounds_up_exec(t: u128) -> (r: bool)
    requires
        t % 2 == 1,
    ensures
        r == tie_rounds_up(t as nat),
{
    if t % 5 == 0 {
        ((t - 1) / 2) % 2 == 1
    } else {
        let cm: u32 = if t >= 5 {
            let p = ilog2_exec(t / 5);
            (52 + 128 - p) % 4
        } else if t >= 3 {
            1
        } else {
            3
        };
        let pm: u128 = if cm == 0 {
            1
        } else if cm == 1 {
            2
        } else if cm == 2 {
            4
        } else {
            3
        };
        proof {
            if t >= 5 {
                let p = ilog2((t / 5) as nat) as int;
                assert((52 + 128 - p) % 4 == (52 - p) % 4) by (nonlinear_arith)
                    requires
                        0 <= p <= 128,
                ;
            }
        }
        ((t % 5) * pm) % 5 >= 3
    }
}

/// `num / den` printed with one decimal.
pub fn fmt_tenths(num: i128, den: i128) -> (r: Vec<char>)
    requires
        den != 0,
        -0x1_0000_0000_0000_0000_0000_0000 < num < 0x1_0000_0000_0000_0000_0000_0000,
        -0x1_0000_0000_0000_0000_0000_0000 < den < 0x1_0000_0000_0000_0000_0000_0000,
    ensures
        r@ == tenths_str(num as int, den as int),
{
    let a: i128 = if num < 0 { -num } else { num };
    let b: i128 = if den < 0 { -den } else { den };
    let neg = num != 0 && ((num < 0) != (den < 0));
    let n: i128 = (10 * a) / b;
    let rem: i128 = (10 * a) % b;
    assert(0 <= n <= 10 * a && 0 <= rem < b) by (nonlinear_arith)
        requires
            a >= 0,
            b >= 1,
            n as int == (10 * a as int) / (b as int),
            rem as int == (10 * a as int) % (b as int),
    ;
    let q: i128 = if 2 * rem < b {
        n
    } else if 2 * rem > b {
        n + 1
    } else if tie_rounds_up_exec((2 * n + 1) as u128) {
        n + 1
    } else {
        n
    };
    let mut v: Vec<char> = Vec::new();
    if neg {
        v.push('-');
    }
    let whole = fmt_nat((q / 10) as u128);
    crate::text::append_chars(&mut v, &whole);
    v.push('.');
    v.push(digit_of((q % 10) as u128));
    let ghost sign: Seq<char> = if neg { seq!['-'] } else { Seq::empty() };
    assert(v@ =~= tenths_str(num as int, den as int));
    v
}

} // verus!
