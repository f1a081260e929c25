use vstd::prelude::*;
use crate::decimal::{pow10, pow10_u128, Decimal, lemma_pow10_add, lemma_pow10_mono, lemma_pow10_pos};
use crate::error::ErrorKind;
use crate::prefix::SQ_LIMIT;

verus! {

/// `r` squared, scaled by `q`, reaches `t`: `r >= sqrt(t / q)`.
pub open spec fn covers(r: int, q: int, t: int) -> bool {
    r * r * q >= t
}

/// `r` is the ceiling of `sqrt(t / q)`.
pub open spec fn is_ceil_root(r: int, q: int, t: int) -> bool {
    &&& r >= 0
    &&& covers(r, q, t)
    &&& r == 0 || !covers(r - 1, q, t)
}

fn covers_exec(r: u128, q: u128, t: u128) -> (b: bool)
    requires
        q >= 1,
    ensures
        b == covers(r as int, q as int, t as int),
{
    match r.checked_mul(r) {
        Some(x) => match x.checked_mul(q) {
            Some(y) => y >= t,
            None => true,
        },
        None => {
            assert(r * r * q >= r * r) by (nonlinear_arith)
                requires
                    q >= 1,
            ;
            true
        },
    }
}

/// The least `r` with `r * r * q >= t`, that is the ceiling of `sqrt(t / q)`.
pub fn ceil_root(t: u128, q: u128) -> (r: u128)
    requires
        q >= 1,
    ensures
        is_ceil_root(r as int, q as int, t as int),
        r <= 0x1_0000_0000_0000_0000,
{
    let mut lo: u128 = 0;
    let mut hi: u128 = 0x1_0000_0000_0000_0000;
    assert(covers(hi as int, q as int, t as int)) by {
        assert(hi * hi * q >= hi * hi) by (nonlinear_arith)
            requires
                q >= 1,
        ;
    }
    while lo < hi
        invariant
            q >= 1,
            lo <= hi <= 0x1_0000_0000_0000_0000,
            covers(hi as int, q as int, t as int),
            lo == 0 || !covers(lo - 1, q as int, t as int),
            hi == 0 || lo < hi || !covers(hi - 1, q as int, t as int),
        decreases hi - lo,
    {
        let mid = lo + (hi - lo) / 2;
        if covers_exec(mid, q, t) {
            hi = mid;
        } else {
            lo = mid + 1;
        }
    }
    hi
}

/// A non-negative quantity held exactly by its square, `num / den`.
#[derive(Debug, Clone, Copy, PartialEq, Eq, Structural)]
pub struct Root {
    pub num: u128,
    pub den: u128,
}

impl Root {
    pub open spec fn wf(self) -> bool {
        self.den >= 1
    }

    /// The absolute value of `d`, held by its square `m^2 / 10^(2 s)`, where both
    /// parts stay within `SQ_LIMIT`.
    pub fn of_decimal(d: Decimal) -> (r: Result<Root, ErrorKind>)
        requires
            d.wf(),
        ensures
            r.is_ok() <==> d.mantissa * d.mantissa <= SQ_LIMIT && pow10(2 * d.scale as nat)
                <= SQ_LIMIT,
            r.is_ok() ==> r.unwrap().num == d.mantissa * d.mantissa && r.unwrap().den == pow10(
                2 * d.scale as nat,
            ) && r.unwrap().wf(),
            r.is_err() ==> r == Err::<Root, ErrorKind>(ErrorKind::OutOfRange),
    {
        let a: u128 = if d.mantissa < 0 { (-d.mantissa) as u128 } else { d.mantissa as u128 };
        assert(a * a == d.mantissa * d.mantissa) by (nonlinear_arith)
            requires
                a == d.mantissa || a == -d.mantissa,
        ;
        let num = match a.checked_mul(a) {
            Some(x) => x,
            None => {
                return Err(ErrorKind::OutOfRange);
            },
        };
        if num > SQ_LIMIT {
            return Err(ErrorKind::OutOfRange);
        }
        proof {
            lemma_pow10_add(d.scale as nat, d.scale as nat);
            lemma_pow10_pos(d.scale as nat);
            lemma_pow10_mono(d.scale as nat, 30);
            reveal_with_fuel(pow10, 31);
        }
        let p = pow10_u128(d.scale);
        let den = match p.checked_mul(p) {
            Some(x) => x,
            None => {
                return Err(ErrorKind::OutOfRange);
            },
        };
        if den > SQ_LIMIT {
            return Err(ErrorKind::OutOfRange);
        }
        assert(den >= 1) by (nonlinear_arith)
            requires
                den == p * p,
                p >= 1,
        ;
        Ok(Root { num, den })
    }
}

} // verus!
