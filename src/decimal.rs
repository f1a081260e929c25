use vstd::prelude::*;
use crate::error::ErrorKind;
use crate::text::{all_digits, digits_val, find_either, first_of, parse_digits, lemma_digits_nonneg};

verus! {

/// The largest number of decimal places a `Decimal` carries.
pub const MAX_SCALE: u32 = 30;

pub open spec fn pow10(n: nat) -> int
    decreases n,
{
    if n == 0 {
        1
    } else {
        10 * pow10((n - 1) as nat)
    }
}

pub proof fn lemma_pow10_pos(n: nat)
    ensures
        pow10(n) >= 1,
    decreases n,
{
    if n > 0 {
        lemma_pow10_pos((n - 1) as nat);
    }
}

pub proof fn lemma_pow10_mono(m: nat, n: nat)
    requires
        m <= n,
    ensures
        pow10(m) <= pow10(n),
    decreases n,
{
    if m < n {
        lemma_pow10_mono(m, (n - 1) as nat);
        lemma_pow10_pos((n - 1) as nat);
    }
}

pub proof fn lemma_pow10_add(m: nat, n: nat)
    ensures
        pow10(m + n) == pow10(m) * pow10(n),
    decreases n,
{
    if n > 0 {
        lemma_pow10_add(m, (n - 1) as nat);
        assert(pow10(m + n) == 10 * pow10((m + n - 1) as nat));
        assert(pow10(m) * (10 * pow10((n - 1) as nat)) == 10 * (pow10(m) * pow10((n - 1) as nat)))
            by (nonlinear_arith);
    }
}

/// Ten to the power `n`, for the powers that fit.
pub fn pow10_u128(n: u32) -> (r: u128)
    requires
        n <= 38,
    ensures
        r as int == pow10(n as nat),
{
    proof {
        lemma_pow10_mono(n as nat, 38);
        reveal_with_fuel(pow10, 39);
        assert(pow10(38) == 100000000000000000000000000000000000000);
    }
    let mut r: u128 = 1;
    let mut i: u32 = 0;
    while i < n
        invariant
            i <= n <= 38,
            r as int == pow10(i as nat),
            pow10(n as nat) <= 100000000000000000000000000000000000000,
        decreases n - i,
    {
        proof {
            lemma_pow10_mono((i + 1) as nat, n as nat);
        }
        r = r * 10;
        i = i + 1;
    }
    r
}

/// A decimal number: `mantissa` times ten to the power minus `scale`.
#[derive(Debug, Clone, Copy, PartialEq, Eq, Structural)]
pub struct Decimal {
    pub mantissa: i128,
    pub scale: u32,
}

impl Decimal {
    pub open spec fn wf(self) -> bool {
        self.scale <= MAX_SCALE && self.mantissa > i128::MIN
    }
}

/// Length of the leading sign of a number, if any.
pub open spec fn sign_len(s: Seq<char>) -> int {
    if s.len() > 0 && (s[0] == '-' || s[0] == '+') {
        1
    } else {
        0
    }
}

pub open spec fn is_negative(s: Seq<char>) -> bool {
    s.len() > 0 && s[0] == '-'
}

/// Index of the exponent mark of a number, or its length.
pub open spec fn exp_pos(s: Seq<char>) -> int {
    sign_len(s) + first_of(s.subrange(sign_len(s), s.len() as int), 'e', 'E')
}

/// Index of the decimal point of a number, or the index of its exponent mark.
pub open spec fn dot_pos(s: Seq<char>) -> int {
    sign_len(s) + first_of(s.subrange(sign_len(s), exp_pos(s)), '.', '.')
}

pub open spec fn int_digits(s: Seq<char>) -> Seq<char> {
    s.subrange(sign_len(s), dot_pos(s))
}

pub open spec fn frac_digits(s: Seq<char>) -> Seq<char> {
    if dot_pos(s) < exp_pos(s) {
        s.subrange(dot_pos(s) + 1, exp_pos(s))
    } else {
        Seq::empty()
    }
}

/// The exponent after the mark, sign included, or empty.
pub open spec fn exp_text(s: Seq<char>) -> Seq<char> {
    if exp_pos(s) < s.len() {
        s.subrange(exp_pos(s) + 1, s.len() as int)
    } else {
        Seq::empty()
    }
}

pub open spec fn exp_digits(s: Seq<char>) -> Seq<char> {
    let t = exp_text(s);
    t.subrange(sign_len(t), t.len() as int)
}

pub open spec fn exp_value(s: Seq<char>) -> int {
    if is_negative(exp_text(s)) {
        -digits_val(exp_digits(s))
    } else {
        digits_val(exp_digits(s))
    }
}

/// `s` writes a number: `[+-]digits[.digits][(e|E)[+-]digits]`, with at least one
/// digit before the exponent.
pub open spec fn is_number_text(s: Seq<char>) -> bool {
    &&& all_digits(int_digits(s))
    &&& all_digits(frac_digits(s))
    &&& int_digits(s).len() + frac_digits(s).len() > 0
    &&& exp_pos(s) < s.len() ==> exp_digits(s).len() > 0 && all_digits(exp_digits(s))
}

/// The digits of a number, read as one integer, sign left out.
pub open spec fn number_digits(s: Seq<char>) -> int {
    digits_val(int_digits(s)) * pow10(frac_digits(s).len()) + digits_val(frac_digits(s))
}

/// The number of decimal places that the written number has.
pub open spec fn number_places(s: Seq<char>) -> int {
    frac_digits(s).len() - exp_value(s)
}

pub open spec fn mantissa_at(m: int, k: int) -> int {
    if k >= 0 {
        m
    } else {
        m * pow10((-k) as nat)
    }
}

pub open spec fn scale_at(k: int) -> int {
    if k >= 0 {
        k
    } else {
        0
    }
}

/// A written number that a `Decimal` holds exactly.
pub open spec fn number_in_range(s: Seq<char>) -> bool {
    &&& frac_digits(s).len() <= MAX_SCALE
    &&& digits_val(exp_digits(s)) <= MAX_SCALE
    &&& scale_at(number_places(s)) <= MAX_SCALE
    &&& mantissa_at(number_digits(s), number_places(s)) <= i128::MAX
}

pub open spec fn decimal_matches(d: Decimal, s: Seq<char>) -> bool {
    &&& d.mantissa as int == if is_negative(s) {
        -mantissa_at(number_digits(s), number_places(s))
    } else {
        mantissa_at(number_digits(s), number_places(s))
    }
    &&& d.scale as int == scale_at(number_places(s))
}

pub proof fn lemma_digits_below_pow10(s: Seq<char>)
    requires
        all_digits(s),
    ensures
        0 <= digits_val(s) < pow10(s.len()),
    decreases s.len(),
{
    if s.len() > 0 {
        lemma_digits_below_pow10(s.drop_last());
    }
}

pub proof fn lemma_mantissa_at_ge(m: int, k: int)
    requires
        m >= 0,
    ensures
        mantissa_at(m, k) >= m,
{
    if k < 0 {
        lemma_pow10_pos((-k) as nat);
        assert(m * pow10((-k) as nat) >= m) by (nonlinear_arith)
            requires
                pow10((-k) as nat) >= 1,
                m >= 0,
        ;
    }
}

/// `s` writes a number that a `Decimal` holds exactly.
pub open spec fn number_ok(s: Seq<char>) -> bool {
    is_number_text(s) && number_in_range(s)
}

/// The `Decimal` that `s` writes, where `number_ok(s)`.
pub open spec fn decimal_of(s: Seq<char>) -> Decimal {
    Decimal {
        mantissa: (if is_negative(s) {
            -mantissa_at(number_digits(s), number_places(s))
        } else {
            mantissa_at(number_digits(s), number_places(s))
        }) as i128,
        scale: scale_at(number_places(s)) as u32,
    }
}

/// Reads a decimal number such as `-1.25`, `3` or `2e-3`.
pub fn parse_decimal(s: &str) -> (r: Result<Decimal, ErrorKind>)
    ensures
        r.is_ok() <==> is_number_text(s@) && number_in_range(s@),
        r.is_ok() ==> decimal_matches(r.unwrap(), s@) && r.unwrap().wf() && r.unwrap()
            == decimal_of(s@),
        r.is_err() ==> r == Err::<Decimal, ErrorKind>(ErrorKind::BadNumber),
{
    let ghost v = s@;
    let n = s.unicode_len();
    let mut b: usize = 0;
    let mut neg = false;
    if n > 0 {
        let c = s.get_char(0);
        if c == '-' || c == '+' {
            b = 1;
            neg = c == '-';
        }
    }
    let e = find_either(s, b, n, 'e', 'E');
    let d = find_either(s, b, e, '.', '.');
    assert(b == sign_len(v) && neg == is_negative(v));
    assert(e == exp_pos(v));
    assert(d == dot_pos(v));
    let (fs, fe) = if d < e { (d + 1, e) } else { (e, e) };
    assert(v.subrange(fs as int, fe as int) =~= frac_digits(v));
    assert(v.subrange(b as int, d as int) =~= int_digits(v));
    let ip = match parse_digits(s, b, d) {
        Some(x) => x,
        None => {
            proof {
                if all_digits(int_digits(v)) {
                    if all_digits(frac_digits(v)) {
                        lemma_digits_nonneg(frac_digits(v));
                        lemma_pow10_pos(frac_digits(v).len());
                        assert(digits_val(int_digits(v)) * pow10(frac_digits(v).len())
                            >= digits_val(int_digits(v))) by (nonlinear_arith)
                            requires pow10(frac_digits(v).len()) >= 1, digits_val(int_digits(v)) >= 0;
                        lemma_mantissa_at_ge(number_digits(v), number_places(v));
                    }
                }
            }
            return Err(ErrorKind::BadNumber);
        },
    };
    let flen = fe - fs;
    if flen > 30 {
        return Err(ErrorKind::BadNumber);
    }
    let fv = match parse_digits(s, fs, fe) {
        Some(x) => x,
        None => {
            proof {
                if all_digits(frac_digits(v)) {
                    lemma_pow10_mono(flen as nat, 30);
                    lemma_digits_below_pow10(frac_digits(v));
                    reveal_with_fuel(pow10, 31);
                    assert(digits_val(frac_digits(v)) <= u128::MAX);
                }
            }
            return Err(ErrorKind::BadNumber);
        },
    };
    if d - b + flen == 0 {
        return Err(ErrorKind::BadNumber);
    }
    let (eneg, ev) = match parse_exponent(s, e) {
        Some(x) => x,
        None => {
            return Err(ErrorKind::BadNumber);
        },
    };
    let p = pow10_u128(flen as u32);
    proof {
        lemma_digits_nonneg(frac_digits(v));
        lemma_digits_nonneg(int_digits(v));
        lemma_mantissa_at_ge(number_digits(v), number_places(v));
    }
    let um = match ip.checked_mul(p) {
        Some(x) => match x.checked_add(fv) {
            Some(y) => y,
            None => {
                return Err(ErrorKind::BadNumber);
            },
        },
        None => {
            assert(number_digits(v) >= ip * p) by (nonlinear_arith)
                requires
                    number_digits(v) == ip * p + fv,
                    fv >= 0,
            ;
            return Err(ErrorKind::BadNumber);
        },
    };
    let k: i64 = if eneg {
        flen as i64 + ev as i64
    } else {
        flen as i64 - ev as i64
    };
    place(neg, um, k)
}

/// Reads the exponent that starts at the mark `e` (or its absence, where `e` is the
/// end): its sign and its digits.
fn parse_exponent(s: &str, e: usize) -> (r: Option<(bool, u128)>)
    requires
        e as int == exp_pos(s@),
        e <= s@.len(),
    ensures
        r.is_some() <==> (e < s@.len() ==> exp_digits(s@).len() > 0 && all_digits(exp_digits(s@)))
            && digits_val(exp_digits(s@)) <= MAX_SCALE,
        r.is_some() ==> r.unwrap().0 == is_negative(exp_text(s@)) && r.unwrap().1 as int
            == digits_val(exp_digits(s@)),
{
    let ghost v = s@;
    let n = s.unicode_len();
    if e == n {
        assert(exp_digits(v) =~= Seq::<char>::empty());
        assert(exp_text(v) =~= Seq::<char>::empty());
        return Some((false, 0));
    }
    let es = e + 1;
    let ghost et = exp_text(v);
    assert(et =~= v.subrange(es as int, n as int));
    let mut ds = es;
    let mut eneg = false;
    if es < n {
        let c = s.get_char(es);
        if c == '-' || c == '+' {
            ds = es + 1;
            eneg = c == '-';
        }
    }
    assert(ds - es == sign_len(et) && eneg == is_negative(et));
    assert(v.subrange(ds as int, n as int) =~= exp_digits(v));
    if ds == n {
        return None;
    }
    match parse_digits(s, ds, n) {
        Some(x) => {
            if x > 30 {
                None
            } else {
                Some((eneg, x))
            }
        },
        None => None,
    }
}

/// The decimal with digits `um` and `k` places, negated where `neg`.
fn place(neg: bool, um: u128, k: i64) -> (r: Result<Decimal, ErrorKind>)
    requires
        -30 <= k <= 60,
    ensures
        r.is_ok() <==> scale_at(k as int) <= MAX_SCALE && mantissa_at(um as int, k as int)
            <= i128::MAX,
        r.is_ok() ==> r.unwrap().wf() && r.unwrap().scale as int == scale_at(k as int)
            && r.unwrap().mantissa as int == if neg {
            -mantissa_at(um as int, k as int)
        } else {
            mantissa_at(um as int, k as int)
        },
        r.is_err() ==> r == Err::<Decimal, ErrorKind>(ErrorKind::BadNumber),
{
    let (m, sc): (u128, u32) = if k >= 0 {
        if k > 30 {
            return Err(ErrorKind::BadNumber);
        }
        (um, k as u32)
    } else {
        let p = pow10_u128((-k) as u32);
        match um.checked_mul(p) {
            Some(x) => (x, 0),
            None => {
                return Err(ErrorKind::BadNumber);
            },
        }
    };
    if m > i128::MAX as u128 {
        return Err(ErrorKind::BadNumber);
    }
    let mi = m as i128;
    Ok(Decimal { mantissa: if neg { -mi } else { mi }, scale: sc })
}

} // verus!
