use vstd::prelude::*;
use crate::decimal::{pow10, lemma_pow10_mono, lemma_pow10_pos, lemma_pow10_add};
use crate::error::ErrorKind;
use crate::roots::Root;
use crate::text::push_char;

verus! {

/// The micro sign.
pub const MICRO: char = '\u{b5}';

/// The power of ten that an SI prefix character stands for; the blank stands for none.
pub open spec fn prefix_exp(c: char) -> Option<int> {
    if c == 'Y' { Some(24) }
    else if c == 'Z' { Some(21) }
    else if c == 'E' { Some(18) }
    else if c == 'P' { Some(15) }
    else if c == 'T' { Some(12) }
    else if c == 'G' { Some(9) }
    else if c == 'M' { Some(6) }
    else if c == 'k' { Some(3) }
    else if c == 'h' { Some(2) }
    else if c == ' ' { Some(0) }
    else if c == 'd' { Some(-1) }
    else if c == 'c' { Some(-2) }
    else if c == 'm' { Some(-3) }
    else if c == MICRO { Some(-6) }
    else if c == 'n' { Some(-9) }
    else if c == 'p' { Some(-12) }
    else if c == 'f' { Some(-15) }
    else if c == 'a' { Some(-18) }
    else if c == 'z' { Some(-21) }
    else if c == 'y' { Some(-24) }
    else { None }
}

/// The SI prefix character of a power of ten.
pub open spec fn magnitude_char(m: int) -> Option<char> {
    if m == 24 { Some('Y') }
    else if m == 21 { Some('Z') }
    else if m == 18 { Some('E') }
    else if m == 15 { Some('P') }
    else if m == 12 { Some('T') }
    else if m == 9 { Some('G') }
    else if m == 6 { Some('M') }
    else if m == 3 { Some('k') }
    else if m == 2 { Some('h') }
    else if m == 0 { Some(' ') }
    else if m == -1 { Some('d') }
    else if m == -2 { Some('c') }
    else if m == -3 { Some('m') }
    else if m == -6 { Some(MICRO) }
    else if m == -9 { Some('n') }
    else if m == -12 { Some('p') }
    else if m == -15 { Some('f') }
    else if m == -18 { Some('a') }
    else if m == -21 { Some('z') }
    else if m == -24 { Some('y') }
    else { None }
}

/// The two tables are inverse to each other.
pub proof fn lemma_prefix_bijection(c: char, m: int)
    ensures
        prefix_exp(c) == Some(m) <==> magnitude_char(m) == Some(c),
{
}

/// The power of ten of an SI prefix character.
pub fn match_prefix(prefix: &char) -> (r: Result<i64, ErrorKind>)
    ensures
        match prefix_exp(*prefix) {
            Some(e) => r == Ok::<i64, ErrorKind>(e as i64),
            None => r == Err::<i64, ErrorKind>(ErrorKind::BadPrefix),
        },
{
    let c = *prefix;
    let e: i64 = if c == 'Y' { 24 }
        else if c == 'Z' { 21 }
        else if c == 'E' { 18 }
        else if c == 'P' { 15 }
        else if c == 'T' { 12 }
        else if c == 'G' { 9 }
        else if c == 'M' { 6 }
        else if c == 'k' { 3 }
        else if c == 'h' { 2 }
        else if c == ' ' { 0 }
        else if c == 'd' { -1 }
        else if c == 'c' { -2 }
        else if c == 'm' { -3 }
        else if c == MICRO { -6 }
        else if c == 'n' { -9 }
        else if c == 'p' { -12 }
        else if c == 'f' { -15 }
        else if c == 'a' { -18 }
        else if c == 'z' { -21 }
        else if c == 'y' { -24 }
        else { return Err(ErrorKind::BadPrefix) };
    Ok(e)
}

/// The SI prefix character of a power of ten.
pub fn match_magnitude(mag: i64) -> (r: Result<char, ErrorKind>)
    ensures
        match magnitude_char(mag as int) {
            Some(c) => r == Ok::<char, ErrorKind>(c),
            None => r == Err::<char, ErrorKind>(ErrorKind::BadMagnitude),
        },
{
    let c = if mag == 24 { 'Y' }
        else if mag == 21 { 'Z' }
        else if mag == 18 { 'E' }
        else if mag == 15 { 'P' }
        else if mag == 12 { 'T' }
        else if mag == 9 { 'G' }
        else if mag == 6 { 'M' }
        else if mag == 3 { 'k' }
        else if mag == 2 { 'h' }
        else if mag == 0 { ' ' }
        else if mag == -1 { 'd' }
        else if mag == -2 { 'c' }
        else if mag == -3 { 'm' }
        else if mag == -6 { MICRO }
        else if mag == -9 { 'n' }
        else if mag == -12 { 'p' }
        else if mag == -15 { 'f' }
        else if mag == -18 { 'a' }
        else if mag == -21 { 'z' }
        else if mag == -24 { 'y' }
        else { return Err(ErrorKind::BadMagnitude) };
    Ok(c)
}

} // verus!

verus! {

/// The power of ten of a unit's own prefix: its first character, where a base
/// symbol follows it and it is an SI prefix; else none.
pub open spec fn unit_exp(u: Seq<char>) -> int {
    if u.len() >= 2 && prefix_exp(u[0]) is Some {
        prefix_exp(u[0]).unwrap()
    } else {
        0
    }
}

/// Bound on the numerator and denominator of a quantity that `get_uncert_unit` takes.
pub const SQ_LIMIT: u128 = 0x1_0000_0000_0000_0000_0000_0000;

/// Numerator of the square of `v` divided by ten to the power `mag`.
pub open spec fn scaled_num(v: Root, mag: int) -> int {
    if mag < 0 {
        v.num * pow10((-2 * mag) as nat)
    } else {
        v.num as int
    }
}

/// Denominator of the square of `v` divided by ten to the power `mag`.
pub open spec fn scaled_den(v: Root, mag: int) -> int {
    if mag > 0 {
        v.den * pow10((2 * mag) as nat)
    } else {
        v.den as int
    }
}

/// The quantity whose square is `a / b` lies in `[10, 10000)`.
pub open spec fn in_band(a: int, b: int) -> bool {
    100 * b <= a && a < 100000000 * b
}

/// `n` is the square root of `a / b`, rounded half away from zero.
pub open spec fn rounds_to(n: int, a: int, b: int) -> bool {
    (2 * n - 1) * (2 * n - 1) * b <= 4 * a && 4 * a < (2 * n + 1) * (2 * n + 1) * b
}

/// `mag` is a multiple of three that brings `v` into `[10, 10000)`.
pub open spec fn band_at(v: Root, mag: int) -> bool {
    mag % 3 == 0 && in_band(scaled_num(v, mag), scaled_den(v, mag))
}

/// `v`, divided by ten to the power `mag`, lies in `[10, 10000)` and rounds to `n`.
pub open spec fn normalized(v: Root, mag: int, n: int) -> bool {
    band_at(v, mag) && rounds_to(n, scaled_num(v, mag), scaled_den(v, mag))
}

proof fn lemma_pow10_ge(n: nat)
    ensures
        pow10(n) >= n + 1,
    decreases n,
{
    if n > 0 {
        lemma_pow10_ge((n - 1) as nat);
    }
}

proof fn lemma_times_million(x: int, n: nat)
    ensures
        x * pow10(n) * 1000000 == x * pow10(n + 6),
{
    lemma_pow10_add(n, 6);
    reveal_with_fuel(pow10, 7);
    assert(x * pow10(n) * 1000000 == x * (pow10(n) * 1000000)) by (nonlinear_arith);
}

proof fn lemma_common_factor(a: int, b: int, k: int, n: int)
    requires
        k >= 1,
    ensures
        in_band(a * k, b * k) == in_band(a, b),
        rounds_to(n, a * k, b * k) == rounds_to(n, a, b),
{
    let p = (2 * n - 1) * (2 * n - 1);
    let q = (2 * n + 1) * (2 * n + 1);
    lemma_scale_le(100 * b, a, k);
    lemma_scale_lt(a, 100000000 * b, k);
    lemma_scale_le(p * b, 4 * a, k);
    lemma_scale_lt(4 * a, q * b, k);
    assert(100 * (b * k) == (100 * b) * k) by (nonlinear_arith);
    assert(100000000 * (b * k) == (100000000 * b) * k) by (nonlinear_arith);
    assert(p * (b * k) == (p * b) * k) by (nonlinear_arith);
    assert(q * (b * k) == (q * b) * k) by (nonlinear_arith);
    assert(4 * (a * k) == (4 * a) * k) by (nonlinear_arith);
}

proof fn lemma_scale_le(x: int, y: int, k: int)
    requires
        k >= 1,
    ensures
        (x * k <= y * k) == (x <= y),
{
    assert((x * k <= y * k) == (x <= y)) by (nonlinear_arith)
        requires
            k >= 1,
    ;
}

proof fn lemma_scale_lt(x: int, y: int, k: int)
    requires
        k >= 1,
    ensures
        (x * k < y * k) == (x < y),
{
    assert((x * k < y * k) == (x < y)) by (nonlinear_arith)
        requires
            k >= 1,
    ;
}

/// Brings a positive quantity into `[10, 10000)` by steps of a thousand, with the
/// guard band of the rounding to two significant figures, and names the prefix
/// that the unit of measure then takes: the mantissa, rounded half away from
/// zero, and that prefix.
pub fn get_uncert_unit(value: Root, meas_unit: String) -> (r: Result<(u64, String), ErrorKind>)
    requires
        value.wf(),
        1 <= value.num <= SQ_LIMIT,
        value.den <= SQ_LIMIT,
    ensures
        r.is_ok() ==> r.unwrap().1@.len() == 1 && prefix_exp(r.unwrap().1@[0]) is Some
            && normalized(
            value,
            prefix_exp(r.unwrap().1@[0]).unwrap() - unit_exp(meas_unit@),
            r.unwrap().0 as int,
        ),
        r.is_err() ==> r == Err::<(u64, String), ErrorKind>(ErrorKind::BadMagnitude) && exists|
            mag: int,
        | band_at(value, mag) && magnitude_char(unit_exp(meas_unit@) + mag) is None,
{
    let len = meas_unit.as_str().unicode_len();
    let pe: i64 = if len >= 2 {
        match match_prefix(&meas_unit.as_str().get_char(0)) {
            Ok(e) => e,
            Err(_) => 0,
        }
    } else {
        0
    };
    assert(pe == unit_exp(meas_unit@));
    let mut a: u128 = value.num;
    let mut b: u128 = value.den;
    let mut mag: i128 = 0;
    let ghost mut up: nat = 0;
    let ghost mut down: nat = 0;
    proof {
        reveal_with_fuel(pow10, 1);
    }
    while a > 98109025 * b
        invariant
            value.wf(),
            a == value.num,
            1 <= a <= SQ_LIMIT,
            1 <= b <= SQ_LIMIT,
            b == value.den * pow10(2 * up),
            up % 3 == 0,
            up <= b,
            mag == up,
        decreases a - b,
    {
        proof {
            lemma_times_million(value.den as int, 2 * up);
            lemma_pow10_ge(2 * up + 6);
            lemma_pow10_pos(2 * up + 6);
            assert(value.den * pow10(2 * up + 6) >= pow10(2 * up + 6)) by (nonlinear_arith)
                requires
                    value.den >= 1,
                    pow10(2 * up + 6) >= 1,
            ;
        }
        b = b * 1000000;
        mag = mag + 3;
        proof {
            up = up + 3;
        }
    }
    while a < 100 * b
        invariant
            value.wf(),
            value.num >= 1,
            1 <= a,
            a < 100000000 * b,
            1 <= b <= SQ_LIMIT,
            b == value.den * pow10(2 * up),
            a == value.num * pow10(2 * down),
            up % 3 == 0,
            down % 3 == 0,
            up <= SQ_LIMIT,
            down <= a,
            mag == up - down,
        decreases if a < 100 * b {
            100 * b - a
        } else {
            0
        },
    {
        proof {
            lemma_times_million(value.num as int, 2 * down);
            lemma_pow10_ge(2 * down + 6);
            lemma_pow10_pos(2 * down + 6);
            assert(value.num * pow10(2 * down + 6) >= pow10(2 * down + 6)) by (nonlinear_arith)
                requires
                    value.num >= 1,
                    pow10(2 * down + 6) >= 1,
            ;
        }
        a = a * 1000000;
        mag = mag - 3;
        proof {
            down = down + 3;
        }
    }
    let mut n: u128 = 10;
    assert((2 * n - 1) * (2 * n - 1) * b <= 4 * a) by (nonlinear_arith)
        requires
            n == 10,
            100 * b <= a,
    ;
    loop
        invariant
            10 <= n <= 10000,
            (2 * n - 1) * (2 * n - 1) * b <= 4 * a,
            100 * b <= a < 100000000 * b,
            1 <= b <= SQ_LIMIT,
        ensures
            10 <= n <= 10000,
            rounds_to(n as int, a as int, b as int),
            100 * b <= a < 100000000 * b,
        decreases 10000 - n,
    {
        assert((2 * n + 1) * (2 * n + 1) * b <= 400040001 * b) by (nonlinear_arith)
            requires
                10 <= n <= 10000,
                b >= 1,
        ;
        assert((2 * n + 1) * (2 * n + 1) <= 400040001) by (nonlinear_arith)
            requires
                10 <= n <= 10000,
        ;
        let q = (2 * n + 1) * (2 * n + 1) * b;
        if q > 4 * a {
            break;
        }
        assert(n < 10000) by (nonlinear_arith)
            requires
                (2 * n + 1) * (2 * n + 1) * b <= 4 * a,
                a < 100000000 * b,
                b >= 1,
                n >= 10,
        ;
        n = n + 1;
    }
    let ghost k: int = if up <= down { pow10(2 * up) } else { pow10(2 * down) };
    proof {
        let m = mag as int;
        lemma_pow10_pos(2 * up);
        lemma_pow10_pos(2 * down);
        if up <= down {
            lemma_pow10_add((2 * (down - up)) as nat, 2 * up);
            assert(2 * (down - up) + 2 * up == 2 * down);
            assert(a == scaled_num(value, m) * k) by (nonlinear_arith)
                requires
                    a == value.num * pow10(2 * down),
                    pow10(2 * down) == pow10((2 * (down - up)) as nat) * k,
                    scaled_num(value, m) == if up == down {
                        value.num as int
                    } else {
                        value.num * pow10((2 * (down - up)) as nat)
                    },
                    up == down ==> k == pow10(2 * down),
            ;
            assert(b == scaled_den(value, m) * k);
        } else {
            lemma_pow10_add((2 * (up - down)) as nat, 2 * down);
            assert(2 * (up - down) + 2 * down == 2 * up);
            assert(b == scaled_den(value, m) * k) by (nonlinear_arith)
                requires
                    b == value.den * pow10(2 * up),
                    pow10(2 * up) == pow10((2 * (up - down)) as nat) * k,
                    scaled_den(value, m) == value.den * pow10((2 * (up - down)) as nat),
            ;
            assert(a == scaled_num(value, m) * k);
        }
        lemma_common_factor(scaled_num(value, m), scaled_den(value, m), k, n as int);
        assert(m % 3 == 0);
        assert(in_band(a as int, b as int));
        assert(rounds_to(n as int, a as int, b as int));
        assert(band_at(value, m));
        assert(normalized(value, m, n as int));
    }
    let diff: i128 = pe as i128 + mag;
    if diff < -24 || diff > 24 {
        return Err(ErrorKind::BadMagnitude);
    }
    let c = match match_magnitude(diff as i64) {
        Ok(c) => c,
        Err(e) => {
            return Err(e);
        },
    };
    proof {
        lemma_prefix_bijection(c, diff as int);
    }
    let mut s = String::new();
    push_char(&mut s, c);
    assert(s@[0] == c);
    Ok((n as u64, s))
}

} // verus!

verus! {

proof fn lemma_rounds_to_whole(n: int, k: int)
    requires
        n >= 1,
        rounds_to(k, n * n, 1),
    ensures
        k == n,
{
    if k > n {
        assert((2 * k - 1) * (2 * k - 1) > 4 * (n * n)) by (nonlinear_arith)
            requires
                k > n,
                n >= 1,
        ;
    } else if k < n {
        if k >= 0 {
            assert((2 * k + 1) * (2 * k + 1) <= 4 * (n * n)) by (nonlinear_arith)
                requires
                    0 <= k < n,
            ;
        } else {
            assert((2 * k - 1) * (2 * k - 1) > 4 * (n * n)) by (nonlinear_arith)
                requires
                    k < 0,
                    n >= 1,
                    (2 * k + 1) * (2 * k + 1) > 4 * (n * n),
            ;
        }
    }
}

/// Normalizing a whole mantissa `n` that already lies in `[10, 9905)`, under a unit
/// whose prefix is `p`, gives back `n` and `p`: whatever result meets the contract
/// of `get_uncert_unit` for that input is `(n, p)`.
pub proof fn lemma_normalize_idempotent(
    n: int,
    p: char,
    base: Seq<char>,
    out_n: int,
    out_prefix: char,
)
    requires
        10 <= n < 9905,
        prefix_exp(p) is Some,
        base.len() >= 1,
        prefix_exp(out_prefix) is Some,
        normalized(
            Root { num: (n * n) as u128, den: 1 },
            prefix_exp(out_prefix).unwrap() - unit_exp(seq![p] + base),
            out_n,
        ),
    ensures
        out_n == n,
        out_prefix == p,
{
    let v = Root { num: (n * n) as u128, den: 1 };
    let u = seq![p] + base;
    assert(u[0] == p);
    assert(unit_exp(u) == prefix_exp(p).unwrap());
    let mag = prefix_exp(out_prefix).unwrap() - unit_exp(u);
    assert(n * n < 100000000) by (nonlinear_arith)
        requires
            10 <= n < 9905,
    ;
    assert(n * n >= 100) by (nonlinear_arith)
        requires
            10 <= n,
    ;
    assert(v.num == n * n);
    reveal_with_fuel(pow10, 7);
    if mag > 0 {
        lemma_pow10_mono(6, (2 * mag) as nat);
        assert(scaled_den(v, mag) >= 1000000);
    } else if mag < 0 {
        lemma_pow10_mono(6, (-2 * mag) as nat);
        assert(scaled_num(v, mag) >= (n * n) * 1000000) by (nonlinear_arith)
            requires
                scaled_num(v, mag) == (n * n) * pow10((-2 * mag) as nat),
                pow10((-2 * mag) as nat) >= 1000000,
                n * n >= 100,
        ;
    }
    assert(mag == 0);
    lemma_rounds_to_whole(n, out_n);
    lemma_prefix_bijection(out_prefix, prefix_exp(p).unwrap());
    lemma_prefix_bijection(p, prefix_exp(p).unwrap());
}

} // verus!
