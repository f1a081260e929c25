use vstd::prelude::*;
use crate::decimal::{pow10, pow10_u128, Decimal, MAX_SCALE, lemma_pow10_pos, lemma_pow10_mono};
use crate::error::ErrorKind;
use crate::prefix::{magnitude_char, match_magnitude, match_prefix, prefix_exp};
use crate::text::{dec_text, fixed_digits, push_char, to_fixed_text, to_text, chars_to_string};

verus! {

/// The digits of a rounded mantissa cut to two significant figures: four digits
/// `abcd` become `a.b`, three digits `abc` become `0.ab`, fewer stay as they are.
pub open spec fn sig2_text(t: Seq<char>) -> Seq<char> {
    if t.len() == 4 {
        seq![t[0], '.', t[1]]
    } else if t.len() == 3 {
        seq!['0', '.', t[0], t[1]]
    } else {
        t
    }
}

/// What `get_2_sig_fig` gives for the mantissa `n` under the prefix `unit`: the cut
/// digits, and the prefix one SI step up wherever the cut moved the decimal point.
pub open spec fn sig2_result(n: nat, unit: Seq<char>) -> Result<(Seq<char>, Seq<char>), ErrorKind> {
    let t = dec_text(n);
    if t.len() == 3 || t.len() == 4 {
        if unit.len() == 0 || prefix_exp(unit[0]) is None {
            Err(ErrorKind::BadPrefix)
        } else {
            match magnitude_char(prefix_exp(unit[0]).unwrap() + 3) {
                Some(c) => Ok((sig2_text(t), seq![c])),
                None => Err(ErrorKind::BadMagnitude),
            }
        }
    } else {
        Ok((t, unit))
    }
}

/// Writes a rounded uncertainty mantissa to two significant figures, with the SI
/// prefix it then carries.
pub fn get_2_sig_fig(mantissa: u64, unit: String) -> (r: Result<(String, String), ErrorKind>)
    ensures
        match r {
            Ok(p) => sig2_result(mantissa as nat, unit@) == Ok::<(Seq<char>, Seq<char>), ErrorKind>(
                (p.0@, p.1@),
            ),
            Err(e) => sig2_result(mantissa as nat, unit@) == Err::<(Seq<char>, Seq<char>), ErrorKind>(
                e,
            ),
        },
{
    let t = to_text(mantissa as u128);
    let len = t.as_str().unicode_len();
    if len != 3 && len != 4 {
        return Ok((t, unit));
    }
    if unit.as_str().unicode_len() == 0 {
        return Err(ErrorKind::BadPrefix);
    }
    let e = match match_prefix(&unit.as_str().get_char(0)) {
        Ok(e) => e,
        Err(k) => {
            return Err(k);
        },
    };
    let c = match match_magnitude(e + 3) {
        Ok(c) => c,
        Err(k) => {
            return Err(k);
        },
    };
    let t0 = t.as_str().get_char(0);
    let t1 = t.as_str().get_char(1);
    let mut v: Vec<char> = Vec::new();
    if len == 3 {
        v.push('0');
        v.push('.');
        v.push(t0);
        v.push(t1);
    } else {
        v.push(t0);
        v.push('.');
        v.push(t1);
    }
    let digits = chars_to_string(&v);
    assert(digits@ =~= sig2_text(t@));
    let mut p = String::new();
    push_char(&mut p, c);
    assert(p@ =~= seq![c]);
    Ok((digits, p))
}

} // verus!

verus! {

/// `d` is the number of decimal places of a resolution of `r` tenths to the power
/// `t`: the fewest places that show it.
pub open spec fn is_places(d: int, r: int, t: int) -> bool {
    &&& 0 <= d <= t
    &&& r * pow10(d as nat) >= pow10(t as nat)
    &&& d == 0 || r * pow10((d - 1) as nat) < pow10(t as nat)
}

pub proof fn lemma_places_unique(d1: int, d2: int, r: int, t: int)
    requires
        r >= 1,
        is_places(d1, r, t),
        is_places(d2, r, t),
    ensures
        d1 == d2,
{
    if d1 < d2 {
        lemma_pow10_mono(d1 as nat, (d2 - 1) as nat);
        assert(r * pow10(d1 as nat) <= r * pow10((d2 - 1) as nat)) by (nonlinear_arith)
            requires
                r >= 1,
                pow10(d1 as nat) <= pow10((d2 - 1) as nat),
        ;
    } else if d2 < d1 {
        lemma_pow10_mono(d2 as nat, (d1 - 1) as nat);
        assert(r * pow10(d2 as nat) <= r * pow10((d1 - 1) as nat)) by (nonlinear_arith)
            requires
                r >= 1,
                pow10(d2 as nat) <= pow10((d1 - 1) as nat),
        ;
    }
}

/// The number of decimal places of a resolution of `r` tenths to the power `t`.
pub open spec fn places_of(r: int, t: int) -> int {
    choose|d: int| is_places(d, r, t)
}

/// The text of the central value `value` at the resolution `res`.
pub open spec fn central_spec(value: Decimal, res: Decimal) -> Seq<char> {
    let m = if value.mantissa < 0 { -value.mantissa } else { value.mantissa as int };
    let (s, r, t) = (value.scale as nat, res.mantissa as nat, res.scale as nat);
    let d = places_of(r as int, t as int);
    fixed_text(
        value.mantissa < 0,
        ((central_steps(m as nat, s, r, t) * r) / pow10((t - d) as nat)) as nat,
        d as nat,
    )
}

/// The central value's intermediate quantities fit.
pub open spec fn central_ok(value: Decimal, res: Decimal) -> bool {
    let m = if value.mantissa < 0 { -value.mantissa } else { value.mantissa as int };
    central_fits(m as nat, value.scale as nat, res.mantissa as nat, res.scale as nat)
}

/// The central value in units of the resolution: `|m| / 10^s` over `r / 10^t` is
/// first truncated to tenths, then rounded half away from zero.
pub open spec fn central_steps(m: nat, s: nat, r: nat, t: nat) -> int {
    let tenths = (10 * m * pow10(t)) / (r * pow10(s));
    (tenths + 5) / 10
}

/// The text of a non-negative number of `w` units of ten to the power minus `d`,
/// signed where `neg`, with exactly `d` decimal places.
pub open spec fn fixed_text(neg: bool, w: nat, d: nat) -> Seq<char> {
    let sign = if neg && w > 0 { seq!['-'] } else { Seq::empty() };
    let frac = if d > 0 { seq!['.'] + fixed_digits(w, d) } else { Seq::empty() };
    sign + dec_text(w / pow10(d) as nat) + frac
}

/// The intermediate quantities of the central value stay within 128 bits.
pub open spec fn central_fits(m: nat, s: nat, r: nat, t: nat) -> bool {
    &&& 10 * m * pow10(t) <= u128::MAX
    &&& r * pow10(s) <= u128::MAX
    &&& central_steps(m, s, r, t) * r <= u128::MAX
}

} // verus!

verus! {

/// The number of decimal places of the resolution `r` tenths to the power `t`.
fn resolution_places(r: u128, t: u32) -> (d: u32)
    requires
        r >= 1,
        t <= MAX_SCALE,
    ensures
        is_places(d as int, r as int, t as int),
{
    let pt = pow10_u128(t);
    proof {
        lemma_pow10_pos(t as nat);
    }
    let mut d: u32 = 0;
    let mut p: u128 = r;
    proof {
        reveal_with_fuel(pow10, 1);
        crate::decimal::lemma_pow10_mono(t as nat, 30);
        reveal_with_fuel(pow10, 31);
    }
    while p < pt
        invariant
            d <= t,
            p as int == r * pow10(d as nat),
            pt as int == pow10(t as nat),
            r >= 1,
            t <= 30,
            pow10(t as nat) >= 1,
            pt <= 1000000000000000000000000000000,
            d == 0 || r * pow10((d - 1) as nat) < pow10(t as nat),
        decreases t - d,
    {
        if d == t {
            assert(r * pow10(t as nat) >= pow10(t as nat)) by (nonlinear_arith)
                requires
                    r >= 1,
                    pow10(t as nat) >= 1,
            ;
        }
        assert(r * pow10((d + 1) as nat) == 10 * (r * pow10(d as nat))) by (nonlinear_arith)
            requires
                pow10((d + 1) as nat) == 10 * pow10(d as nat),
        ;
        p = p * 10;
        d = d + 1;
    }
    d
}

/// The text of `w` units of ten to the power minus `d`, signed where `neg`.
fn render_fixed(neg: bool, big: u128, d: u32) -> (out: String)
    requires
        d <= MAX_SCALE,
    ensures
        out@ == fixed_text(neg, big as nat, d as nat),
{
    let pd = pow10_u128(d);
    proof {
        lemma_pow10_pos(d as nat);
    }
    let ip = to_text(big / pd);
    let mut out = String::new();
    if neg && big > 0 {
        push_char(&mut out, '-');
    }
    out.append(ip.as_str());
    if d > 0 {
        push_char(&mut out, '.');
        let fd = chars_to_string(&to_fixed_text(big, d));
        out.append(fd.as_str());
    }
    assert(out@ =~= fixed_text(neg, big as nat, d as nat));
    out
}

/// Writes `value` as a multiple of the resolution `res`: truncated to a tenth of
/// the resolution, then rounded half away from zero to the resolution, shown with
/// as many decimal places as the resolution needs, zeros padded.
pub fn central_text(value: Decimal, res: Decimal) -> (r: Result<String, ErrorKind>)
    requires
        value.wf(),
        res.wf(),
        res.mantissa > 0,
    ensures
        r.is_ok() <==> central_ok(value, res),
        r.is_ok() ==> r.unwrap()@ == central_spec(value, res),
        r.is_err() ==> r == Err::<String, ErrorKind>(ErrorKind::OutOfRange),
{
    let neg = value.mantissa < 0;
    let m: u128 = if neg { (-value.mantissa) as u128 } else { value.mantissa as u128 };
    let r: u128 = res.mantissa as u128;
    let s = value.scale;
    let t = res.scale;
    let pt = pow10_u128(t);
    let ps = pow10_u128(s);
    proof {
        lemma_pow10_pos(t as nat);
        lemma_pow10_pos(s as nat);
    }
    assert(10 * m * pt >= 10 * m) by (nonlinear_arith)
        requires
            pt >= 1,
    ;
    let m10 = match m.checked_mul(10) {
        Some(x) => x,
        None => {
            return Err(ErrorKind::OutOfRange);
        },
    };
    let a = match m10.checked_mul(pt) {
        Some(x) => x,
        None => {
            return Err(ErrorKind::OutOfRange);
        },
    };
    let b = match r.checked_mul(ps) {
        Some(x) => x,
        None => {
            return Err(ErrorKind::OutOfRange);
        },
    };
    assert(b >= 1) by (nonlinear_arith)
        requires
            b == r * ps,
            r >= 1,
            ps >= 1,
    ;
    let tenths = a / b;
    let n = tenths / 10 + if tenths % 10 >= 5 { 1 } else { 0 };
    assert(n == central_steps(m as nat, s as nat, r as nat, t as nat));
    let w = match n.checked_mul(r) {
        Some(x) => x,
        None => {
            return Err(ErrorKind::OutOfRange);
        },
    };
    let d = resolution_places(r, t);
    let pe = pow10_u128(t - d);
    proof {
        lemma_pow10_pos((t - d) as nat);
    }
    let big = w / pe;
    assert(big as int == (central_steps(m as nat, s as nat, r as nat, t as nat) * r) / pow10(
        (t - d) as nat,
    ));
    let out = render_fixed(neg, big, d);
    assert(m as int == if value.mantissa < 0 { -value.mantissa } else { value.mantissa as int });
    proof {
        lemma_places_unique(d as int, places_of(r as int, t as int), r as int, t as int);
    }
    assert(is_places(d as int, r as int, t as int) && out@ == fixed_text(
        value.mantissa < 0,
        ((central_steps(m as nat, s as nat, r as nat, t as nat) * r) / pow10((t - d) as nat)) as nat,
        d as nat,
    ));
    Ok(out)
}

} // verus!
