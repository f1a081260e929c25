use vstd::prelude::*;
use crate::decimal::{pow10, pow10_u128, Decimal, MAX_SCALE, lemma_pow10_pos};
use crate::error::ErrorKind;
use crate::roots::{ceil_root, is_ceil_root};

verus! {

/// The largest scale among `ds`.
pub open spec fn max_scale(ds: Seq<Decimal>) -> nat
    decreases ds.len(),
{
    if ds.len() == 0 {
        0
    } else {
        let m = max_scale(ds.drop_last());
        if ds.last().scale > m {
            ds.last().scale as nat
        } else {
            m
        }
    }
}

/// `d` written with `s` decimal places: its mantissa at that scale.
pub open spec fn at_scale(d: Decimal, s: nat) -> int {
    d.mantissa * pow10((s - d.scale) as nat)
}

/// The sum of `ds` at scale `s`.
pub open spec fn total_at(ds: Seq<Decimal>, s: nat) -> int
    decreases ds.len(),
{
    if ds.len() == 0 {
        0
    } else {
        total_at(ds.drop_last(), s) + at_scale(ds.last(), s)
    }
}

/// The sum over `ds` of `(n * y - total)^2`, where `y` is a reading at scale `s`:
/// `n^2` times the sum of squared deviations from the mean, at scale `2 s`.
pub open spec fn dev_sq_at(ds: Seq<Decimal>, s: nat, n: int, total: int) -> int
    decreases ds.len(),
{
    if ds.len() == 0 {
        0
    } else {
        let e = n * at_scale(ds.last(), s) - total;
        dev_sq_at(ds.drop_last(), s, n, total) + e * e
    }
}

/// Numerator of the sample variance, scaled by `10^20`: with `n` readings `y_i` at
/// scale `s` and their sum `T`, the variance is
/// `sum (n y_i - T)^2 / (n^2 (n - 1) 10^(2 s))`.
pub open spec fn variance_num(ds: Seq<Decimal>) -> int {
    let s = max_scale(ds);
    dev_sq_at(ds, s, ds.len() as int, total_at(ds, s)) * pow10(20)
}

/// Denominator of the sample variance.
pub open spec fn variance_den(ds: Seq<Decimal>) -> int {
    let n = ds.len() as int;
    n * n * (n - 1) * pow10(2 * max_scale(ds))
}

/// `r` is the sample standard deviation of `ds` in units of `10^-10`, rounded up:
/// the ceiling of `10^10 * sqrt(variance)`.
pub open spec fn is_std_dev(r: int, ds: Seq<Decimal>) -> bool {
    is_ceil_root(r, variance_den(ds), variance_num(ds))
}

pub open spec fn all_wf(ds: Seq<Decimal>) -> bool {
    forall|i: int| 0 <= i < ds.len() ==> (#[trigger] ds[i]).wf()
}

pub proof fn lemma_max_scale(ds: Seq<Decimal>)
    requires
        all_wf(ds),
    ensures
        max_scale(ds) <= MAX_SCALE,
        forall|i: int| 0 <= i < ds.len() ==> (#[trigger] ds[i]).scale <= max_scale(ds),
    decreases ds.len(),
{
    if ds.len() > 0 {
        let p = ds.drop_last();
        assert forall|i: int| 0 <= i < p.len() implies (#[trigger] p[i]).wf() by {
            assert(p[i] == ds[i]);
        }
        lemma_max_scale(p);
        assert forall|i: int| 0 <= i < ds.len() implies (#[trigger] ds[i]).scale <= max_scale(
            ds,
        ) by {
            if i < p.len() {
                assert(p[i] == ds[i]);
            }
        }
    }
}

pub open spec fn abs(x: int) -> int {
    if x < 0 {
        -x
    } else {
        x
    }
}

/// The sum of the magnitudes of `ds` at scale `s`.
pub open spec fn abs_total_at(ds: Seq<Decimal>, s: nat) -> int
    decreases ds.len(),
{
    if ds.len() == 0 {
        0
    } else {
        abs_total_at(ds.drop_last(), s) + abs(at_scale(ds.last(), s))
    }
}

/// The readings are within the range of the exact computation: their magnitudes,
/// summed, times one more than their number, fit in an `i128`, and the numerator
/// and denominator of the variance fit in a `u128`.
pub open spec fn std_dev_in_range(ds: Seq<Decimal>) -> bool {
    let s = max_scale(ds);
    &&& (ds.len() + 1) * abs_total_at(ds, s) <= i128::MAX
    &&& variance_num(ds) <= u128::MAX
    &&& variance_den(ds) <= u128::MAX
}

proof fn lemma_abs_prefix(ds: Seq<Decimal>, i: int, s: nat)
    requires
        0 <= i <= ds.len(),
    ensures
        0 <= abs_total_at(ds.subrange(0, i), s) <= abs_total_at(ds, s),
    decreases ds.len() - i,
{
    if i < ds.len() {
        lemma_abs_prefix(ds, i + 1, s);
        assert(ds.subrange(0, i + 1).drop_last() =~= ds.subrange(0, i));
        lemma_abs_nonneg(ds.subrange(0, i), s);
    } else {
        assert(ds.subrange(0, i) =~= ds);
        lemma_abs_nonneg(ds, s);
    }
}

proof fn lemma_abs_nonneg(ds: Seq<Decimal>, s: nat)
    ensures
        abs_total_at(ds, s) >= 0,
    decreases ds.len(),
{
    if ds.len() > 0 {
        lemma_abs_nonneg(ds.drop_last(), s);
    }
}

proof fn lemma_dev_prefix(ds: Seq<Decimal>, i: int, s: nat, n: int, t: int)
    requires
        0 <= i <= ds.len(),
    ensures
        0 <= dev_sq_at(ds.subrange(0, i), s, n, t) <= dev_sq_at(ds, s, n, t),
    decreases ds.len() - i,
{
    if i < ds.len() {
        lemma_dev_prefix(ds, i + 1, s, n, t);
        assert(ds.subrange(0, i + 1).drop_last() =~= ds.subrange(0, i));
        let e = n * at_scale(ds[i], s) - t;
        assert(e * e >= 0) by (nonlinear_arith);
        lemma_dev_nonneg(ds.subrange(0, i), s, n, t);
    } else {
        assert(ds.subrange(0, i) =~= ds);
        lemma_dev_nonneg(ds, s, n, t);
    }
}

proof fn lemma_dev_nonneg(ds: Seq<Decimal>, s: nat, n: int, t: int)
    ensures
        dev_sq_at(ds, s, n, t) >= 0,
    decreases ds.len(),
{
    if ds.len() > 0 {
        lemma_dev_nonneg(ds.drop_last(), s, n, t);
        let e = n * at_scale(ds.last(), s) - t;
        assert(e * e >= 0) by (nonlinear_arith);
    }
}

/// The sample standard deviation of `readings`, rounded up to ten decimal places.
pub fn std_dev(readings: &Vec<Decimal>) -> (r: Result<Decimal, ErrorKind>)
    requires
        all_wf(readings@),
    ensures
        readings@.len() < 2 <==> r == Err::<Decimal, ErrorKind>(ErrorKind::TooFewSamples),
        r.is_ok() <==> readings@.len() >= 2 && std_dev_in_range(readings@),
        r.is_ok() ==> r.unwrap().scale == 10 && r.unwrap().wf() && is_std_dev(
            r.unwrap().mantissa as int,
            readings@,
        ),
        r.is_err() ==> r == Err::<Decimal, ErrorKind>(ErrorKind::TooFewSamples) || r == Err::<
            Decimal,
            ErrorKind,
        >(ErrorKind::OutOfRange),
{
    let ghost ds = readings@;
    let n = readings.len();
    if n < 2 {
        return Err(ErrorKind::TooFewSamples);
    }
    proof {
        lemma_max_scale(ds);
    }
    let mut s: u32 = 0;
    let mut i: usize = 0;
    while i < n
        invariant
            i <= n == ds.len(),
            ds == readings@,
            s as nat == max_scale(ds.subrange(0, i as int)),
        decreases n - i,
    {
        assert(ds.subrange(0, i + 1).drop_last() =~= ds.subrange(0, i as int));
        if readings[i].scale > s {
            s = readings[i].scale;
        }
        i = i + 1;
    }
    assert(ds.subrange(0, n as int) =~= ds);
    let ghost sn = s as nat;
    let ghost whole_abs = abs_total_at(ds, sn);
    let mut ys: Vec<i128> = Vec::new();
    let mut total: i128 = 0;
    let mut at: u128 = 0;
    i = 0;
    while i < n
        invariant
            i <= n == ds.len(),
            n >= 2,
            ds == readings@,
            all_wf(ds),
            s as nat == max_scale(ds),
            sn == s as nat,
            whole_abs == abs_total_at(ds, sn),
            s <= MAX_SCALE,
            forall|j: int| 0 <= j < ds.len() ==> (#[trigger] ds[j]).scale <= s,
            ys@.len() == i,
            forall|j: int| 0 <= j < i ==> ys@[j] as int == #[trigger] at_scale(ds[j], s as nat),
            forall|j: int| 0 <= j < i ==> abs(#[trigger] ys@[j] as int) <= at,
            total as int == total_at(ds.subrange(0, i as int), s as nat),
            at as int == abs_total_at(ds.subrange(0, i as int), s as nat),
            abs(total as int) <= at <= i128::MAX,
        decreases n - i,
    {
        let d = readings[i];
        assert(ds[i as int].wf());
        proof {
            crate::decimal::lemma_pow10_mono((s - d.scale) as nat, 30);
            reveal_with_fuel(pow10, 31);
            lemma_abs_prefix(ds, i + 1, sn);
            assert(ds.subrange(0, i + 1).drop_last() =~= ds.subrange(0, i as int));
            lemma_abs_nonneg(ds.subrange(0, i as int), sn);
            assert(whole_abs * (n + 1) >= whole_abs) by (nonlinear_arith)
                requires
                    whole_abs >= 0,
            ;
        }
        let p = pow10_u128(s - d.scale) as i128;
        assert(p as int == pow10((s - d.scale) as nat));
        let y = match d.mantissa.checked_mul(p) {
            Some(y) => y,
            None => {
                assert(abs(d.mantissa * p) > i128::MAX);
                return Err(ErrorKind::OutOfRange);
            },
        };
        assert(y == at_scale(ds[i as int], s as nat));
        if y == i128::MIN {
            return Err(ErrorKind::OutOfRange);
        }
        let ay: u128 = if y < 0 { (-y) as u128 } else { y as u128 };
        let next = match at.checked_add(ay) {
            Some(x) => x,
            None => {
                return Err(ErrorKind::OutOfRange);
            },
        };
        if next > i128::MAX as u128 {
            return Err(ErrorKind::OutOfRange);
        }
        at = next;
        total = total + y;
        ys.push(y);
        assert(ys@[i as int] as int == at_scale(ds[i as int], s as nat));
        i = i + 1;
    }
    assert(ds.subrange(0, n as int) =~= ds);
    let nn = n as i128;
    let bound = match ((n as u128) + 1).checked_mul(at) {
        Some(x) => x,
        None => {
            return Err(ErrorKind::OutOfRange);
        },
    };
    if bound > i128::MAX as u128 {
        return Err(ErrorKind::OutOfRange);
    }
    let ghost t0 = total as int;
    let mut dev: u128 = 0;
    i = 0;
    while i < n
        invariant
            i <= n == ds.len(),
            n >= 2,
            ds == readings@,
            n <= usize::MAX,
            nn == n,
            ys@.len() == n,
            forall|j: int| 0 <= j < n ==> ys@[j] as int == #[trigger] at_scale(ds[j], s as nat),
            forall|j: int| 0 <= j < n ==> abs(#[trigger] ys@[j] as int) <= at,
            abs(total as int) <= at,
            (n + 1) * at <= i128::MAX,
            t0 == total,
            sn == s as nat,
            s as nat == max_scale(ds),
            total as int == total_at(ds, s as nat),
            dev as int == dev_sq_at(ds.subrange(0, i as int), s as nat, n as int, total as int),
        decreases n - i,
    {
        let yi = ys[i];
        assert(abs(yi as int) <= at);
        assert(abs(nn * yi - total) <= (n + 1) * at) by (nonlinear_arith)
            requires
                abs(yi as int) <= at,
                abs(total as int) <= at,
                nn == n,
                n >= 2,
        ;
        assert(abs(nn * yi) <= n * at) by (nonlinear_arith)
            requires
                abs(yi as int) <= at,
                nn == n,
                n >= 2,
        ;
        assert(n * at + at == (n + 1) * at) by (nonlinear_arith);
        let e = nn * yi - total;
        let a: u128 = if e < 0 { (-e) as u128 } else { e as u128 };
        assert(a * a == e * e) by (nonlinear_arith)
            requires
                a == e || a == -e,
        ;
        proof {
            lemma_dev_prefix(ds, i + 1, sn, n as int, t0);
            let p1 = ds.subrange(0, i + 1);
            assert(p1.drop_last() =~= ds.subrange(0, i as int));
            assert(p1.last() == ds[i as int]);
            assert(yi as int == at_scale(ds[i as int], sn));
            assert(dev_sq_at(p1, sn, n as int, t0) == dev_sq_at(ds.subrange(0, i as int), sn, n as int, t0)
                + e * e);
            assert(variance_num(ds) == dev_sq_at(ds, sn, n as int, t0) * pow10(20));
            lemma_dev_nonneg(ds.subrange(0, i as int), sn, n as int, t0);
            lemma_dev_nonneg(ds, sn, n as int, t0);
            reveal_with_fuel(pow10, 21);
            lemma_pow10_pos(20);
            let dv = dev_sq_at(ds, sn, n as int, t0);
            assert(dv * pow10(20) >= dv) by (nonlinear_arith)
                requires
                    dv >= 0,
                    pow10(20) >= 1,
            ;
        }
        let sq = match a.checked_mul(a) {
            Some(x) => x,
            None => {
                return Err(ErrorKind::OutOfRange);
            },
        };
        dev = match dev.checked_add(sq) {
            Some(x) => x,
            None => {
                return Err(ErrorKind::OutOfRange);
            },
        };
        i = i + 1;
    }
    assert(ds.subrange(0, n as int) =~= ds);
    let un = n as u128;
    let ps = pow10_u128(s);
    proof {
        crate::decimal::lemma_pow10_add(s as nat, s as nat);
        lemma_pow10_pos(s as nat);
        reveal_with_fuel(pow10, 21);
    }
    assert(un * un * (un - 1) * ps * ps == variance_den(ds)) by (nonlinear_arith)
        requires
            ps * ps == pow10(2 * max_scale(ds)),
            un == ds.len(),
            ps == pow10(s as nat),
            s == max_scale(ds),
    ;
    assert(un * un >= 1 && un * un * (un - 1) >= un * un && un * un * (un - 1) * ps >= un * un
        * (un - 1) && un * un * (un - 1) * ps * ps >= un * un * (un - 1) * ps) by (nonlinear_arith)
        requires
            un >= 2,
            ps >= 1,
    ;
    let q = match un.checked_mul(un) {
        Some(x) => match x.checked_mul(un - 1) {
            Some(x) => match x.checked_mul(ps) {
                Some(x) => match x.checked_mul(ps) {
                    Some(x) => x,
                    None => {
                        return Err(ErrorKind::OutOfRange);
                    },
                },
                None => {
                    return Err(ErrorKind::OutOfRange);
                },
            },
            None => {
                return Err(ErrorKind::OutOfRange);
            },
        },
        None => {
            return Err(ErrorKind::OutOfRange);
        },
    };
    let t = match dev.checked_mul(100000000000000000000) {
        Some(x) => x,
        None => {
            return Err(ErrorKind::OutOfRange);
        },
    };
    assert(t as int == variance_num(ds));
    let r = ceil_root(t, q);
    Ok(Decimal { mantissa: r as i128, scale: 10 })
}

} // verus!

verus! {

proof fn lemma_total_fold(ds: Seq<Decimal>, s: nat)
    ensures
        total_at(ds, s) == ds.fold_left(0int, |acc: int, d: Decimal| acc + at_scale(d, s)),
    decreases ds.len(),
{
    if ds.len() > 0 {
        lemma_total_fold(ds.drop_last(), s);
    }
}

proof fn lemma_dev_fold(ds: Seq<Decimal>, s: nat, n: int, total: int)
    ensures
        dev_sq_at(ds, s, n, total) == ds.fold_left(
            0int,
            |acc: int, d: Decimal| acc + (n * at_scale(d, s) - total) * (n * at_scale(d, s) - total),
        ),
    decreases ds.len(),
{
    if ds.len() > 0 {
        lemma_dev_fold(ds.drop_last(), s, n, total);
    }
}

proof fn lemma_max_fold(ds: Seq<Decimal>)
    ensures
        max_scale(ds) == ds.fold_left(
            0nat,
            |acc: nat, d: Decimal| if d.scale > acc { d.scale as nat } else { acc },
        ),
    decreases ds.len(),
{
    if ds.len() > 0 {
        lemma_max_fold(ds.drop_last());
    }
}

/// The sample standard deviation does not depend on the order of the readings.
pub proof fn lemma_std_dev_order_free(a: Seq<Decimal>, b: Seq<Decimal>, r: int)
    requires
        a.to_multiset() == b.to_multiset(),
    ensures
        is_std_dev(r, a) == is_std_dev(r, b),
{
    broadcast use vstd::seq_lib::group_to_multiset_ensures;

    assert(a.len() == b.len()) by {
        assert(a.to_multiset().len() == a.len());
        assert(b.to_multiset().len() == b.len());
    }
    let fm = |acc: nat, d: Decimal| if d.scale > acc { d.scale as nat } else { acc };
    lemma_max_fold(a);
    lemma_max_fold(b);
    vstd::seq_lib::lemma_fold_left_permutation(a, b, fm, 0nat);
    let s = max_scale(a);
    let ft = |acc: int, d: Decimal| acc + at_scale(d, s);
    lemma_total_fold(a, s);
    lemma_total_fold(b, s);
    vstd::seq_lib::lemma_fold_left_permutation(a, b, ft, 0int);
    let n = a.len() as int;
    let t = total_at(a, s);
    let fd = |acc: int, d: Decimal| acc + (n * at_scale(d, s) - t) * (n * at_scale(d, s) - t);
    lemma_dev_fold(a, s, n, t);
    lemma_dev_fold(b, s, n, t);
    vstd::seq_lib::lemma_fold_left_permutation(a, b, fd, 0int);
}

} // verus!
