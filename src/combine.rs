use vstd::prelude::*;
use crate::component::{divisor_sq, Component, Distribution};
use crate::decimal::{pow10, pow10_u128, Decimal, lemma_pow10_add, lemma_pow10_mono, lemma_pow10_pos};
use crate::error::ErrorKind;
use crate::prefix::SQ_LIMIT;
use crate::roots::Root;
use crate::stats::{all_wf, at_scale, lemma_max_scale, max_scale};

verus! {

/// A statement of uncertainty: before combination its components, after it the
/// expanded uncertainty's rounded mantissa and SI prefix.
#[derive(Debug, Clone)]
pub struct Uncert {
    pub estimate: Option<Decimal>,
    pub unit: Option<String>,
    pub comps: Vec<Component>,
}

pub open spec fn estimates(cs: Seq<Component>) -> Seq<Decimal> {
    cs.map_values(|c: Component| c.evaluation.value())
}

/// The common scale at which the components are combined.
pub open spec fn rss_scale(cs: Seq<Component>) -> nat {
    max_scale(estimates(cs))
}

/// The squared standard uncertainty of `c`, `(value * sensitivity / divisor)^2`,
/// times `180 * 10^(2 s)`; 180 is a multiple of every squared divisor.
pub open spec fn comp_term(c: Component, s: nat) -> int {
    let y = at_scale(c.evaluation.value(), s);
    y * y * (c.sensitivity * c.sensitivity) * (180int / divisor_sq(c.distribution))
}

/// The sum of the squared standard uncertainties, times `180 * 10^(2 s)`.
pub open spec fn sum_terms(cs: Seq<Component>, s: nat) -> int
    decreases cs.len(),
{
    if cs.len() == 0 {
        0
    } else {
        sum_terms(cs.drop_last(), s) + comp_term(cs.last(), s)
    }
}

/// The denominator of the sum of squared standard uncertainties at scale `s`.
pub open spec fn rss_den(s: nat) -> int {
    180 * pow10(2 * s)
}

pub open spec fn comps_wf(cs: Seq<Component>) -> bool {
    forall|i: int| 0 <= i < cs.len() ==> (#[trigger] cs[i]).wf()
}

proof fn lemma_weight(d: Distribution)
    ensures
        180int / divisor_sq(d) >= 20,
{
    match d {
        Distribution::Normal1 => assert(180int / 1 == 180),
        Distribution::Normal2 => assert(180int / 4 == 45),
        Distribution::Normal3 => assert(180int / 9 == 20),
        Distribution::UShaped => assert(180int / 2 == 90),
        Distribution::Rectangular => assert(180int / 3 == 60),
        Distribution::Quadratic => assert(180int / 5 == 36),
        Distribution::Triangular => assert(180int / 6 == 30),
    }
}

proof fn lemma_comp_term_nonneg(c: Component, s: nat)
    ensures
        comp_term(c, s) >= 0,
{
    let y = at_scale(c.evaluation.value(), s);
    let k = c.sensitivity as int;
    let w = 180int / divisor_sq(c.distribution);
    lemma_weight(c.distribution);
    assert(y * y * (k * k) * w >= 0) by (nonlinear_arith)
        requires
            w >= 20,
    ;
}

/// The sum over a prefix of the components lies between zero and the whole sum.
proof fn lemma_sum_terms_prefix(cs: Seq<Component>, i: int, s: nat)
    requires
        0 <= i <= cs.len(),
    ensures
        0 <= sum_terms(cs.subrange(0, i), s) <= sum_terms(cs, s),
    decreases cs.len() - i,
{
    if i < cs.len() {
        lemma_sum_terms_prefix(cs, i + 1, s);
        let p = cs.subrange(0, i + 1);
        assert(p.drop_last() =~= cs.subrange(0, i));
        lemma_comp_term_nonneg(p.last(), s);
        lemma_sum_terms_nonneg(cs.subrange(0, i), s);
    } else {
        assert(cs.subrange(0, i) =~= cs);
        lemma_sum_terms_nonneg(cs, s);
    }
}

proof fn lemma_sum_terms_nonneg(cs: Seq<Component>, s: nat)
    ensures
        sum_terms(cs, s) >= 0,
    decreases cs.len(),
{
    if cs.len() > 0 {
        lemma_sum_terms_nonneg(cs.drop_last(), s);
        lemma_comp_term_nonneg(cs.last(), s);
    }
}

/// The scaled squared standard uncertainty of `c`, where it fits in 128 bits.
fn comp_term_exec(c: &Component, s: u32) -> (r: Option<u128>)
    requires
        c.wf(),
        c.evaluation.value().scale <= s <= 30,
    ensures
        r is Some <==> comp_term(*c, s as nat) <= u128::MAX,
        r is Some ==> r.unwrap() as int == comp_term(*c, s as nat),
{
    let d = c.get_estimate();
    let k = c.sensitivity as u128;
    let w = (180 / c.get_divisor()) as u128;
    proof {
        lemma_pow10_mono((s - d.scale) as nat, 30);
        lemma_pow10_pos((s - d.scale) as nat);
        reveal_with_fuel(pow10, 31);
    }
    let p = pow10_u128(s - d.scale);
    let a: u128 = if d.mantissa < 0 { (-d.mantissa) as u128 } else { d.mantissa as u128 };
    let ghost y = at_scale(d, s as nat);
    assert(y * y == (a * p) * (a * p)) by (nonlinear_arith)
        requires
            y == d.mantissa * p,
            a == d.mantissa || a == -d.mantissa,
    ;
    let ghost term = comp_term(*c, s as nat);
    assert(term == (a * p) * (a * p) * (k * k) * w);
    if a == 0 || k == 0 {
        assert(term == 0) by (nonlinear_arith)
            requires
                term == (a * p) * (a * p) * (k * k) * w,
                a == 0 || k == 0,
        ;
        return Some(0);
    }
    proof {
        lemma_weight(c.distribution);
    }
    let ghost yy = a * p;
    assert(yy >= 1 && yy * yy >= yy && k * k >= 1 && yy * yy * (k * k) >= yy * yy
        && yy * yy * (k * k) * w >= yy * yy * (k * k)) by (nonlinear_arith)
        requires
            a >= 1,
            p >= 1,
            k >= 1,
            w >= 1,
            yy == a * p,
    ;
    assert(k * k <= 0xffff_ffff * 0xffff_ffff) by (nonlinear_arith)
        requires
            k <= 0xffff_ffff,
    ;
    let y = match a.checked_mul(p) {
        Some(y) => y,
        None => {
            return None;
        },
    };
    let y2 = match y.checked_mul(y) {
        Some(x) => x,
        None => {
            return None;
        },
    };
    match y2.checked_mul(k * k) {
        Some(x) => x.checked_mul(w),
        None => None,
    }
}

impl Uncert {
    /// A statement with no components and no estimate yet.
    pub fn new() -> (r: Uncert)
        ensures
            r.estimate is None,
            r.unit is None,
            r.comps@.len() == 0,
    {
        Uncert { estimate: None, unit: None, comps: Vec::new() }
    }

    /// The expanded uncertainty (coverage factor 2) of the components, combined as
    /// the root of the sum of squares of their standard uncertainties; held
    /// exactly by its square: `4 * sum_terms / rss_den`.
    pub fn rss(&self) -> (r: Result<Root, ErrorKind>)
        requires
            comps_wf(self.comps@),
        ensures
            r.is_ok() <==> 4 * sum_terms(self.comps@, rss_scale(self.comps@)) <= SQ_LIMIT && rss_den(
                rss_scale(self.comps@),
            ) <= SQ_LIMIT,
            r.is_ok() ==> r.unwrap().num == 4 * sum_terms(self.comps@, rss_scale(self.comps@))
                && r.unwrap().den == rss_den(rss_scale(self.comps@)) && r.unwrap().wf()
                && r.unwrap().num <= SQ_LIMIT && r.unwrap().den <= SQ_LIMIT,
            r.is_err() ==> r == Err::<Root, ErrorKind>(ErrorKind::OutOfRange),
    {
        let ghost cs = self.comps@;
        let ghost es = estimates(cs);
        let n = self.comps.len();
        let mut s: u32 = 0;
        let mut i: usize = 0;
        while i < n
            invariant
                i <= n == cs.len(),
                cs == self.comps@,
                es == estimates(cs),
                s as nat == max_scale(es.subrange(0, i as int)),
            decreases n - i,
        {
            assert(es.subrange(0, i + 1).drop_last() =~= es.subrange(0, i as int));
            let d = self.comps[i].get_estimate();
            if d.scale > s {
                s = d.scale;
            }
            i = i + 1;
        }
        assert(es.subrange(0, n as int) =~= es);
        assert(all_wf(es)) by {
            assert forall|j: int| 0 <= j < es.len() implies (#[trigger] es[j]).wf() by {
                assert(cs[j].wf());
            }
        }
        proof {
            lemma_max_scale(es);
        }
        let mut sum: u128 = 0;
        i = 0;
        while i < n
            invariant
                i <= n == cs.len(),
                cs == self.comps@,
                es == estimates(cs),
                comps_wf(cs),
                s as nat == rss_scale(cs),
                s <= 30,
                forall|j: int| 0 <= j < es.len() ==> (#[trigger] es[j]).scale <= s,
                sum as int == sum_terms(cs.subrange(0, i as int), s as nat),
            decreases n - i,
        {
            let c = &self.comps[i];
            assert(es[i as int] == c.evaluation.value());
            let t = match comp_term_exec(c, s) {
                Some(t) => t,
                None => {
                    proof {
                        lemma_sum_terms_prefix(cs, i + 1, s as nat);
                        assert(cs.subrange(0, i + 1).drop_last() =~= cs.subrange(0, i as int));
                        lemma_sum_terms_prefix(cs, i as int, s as nat);
                    }
                    return Err(ErrorKind::OutOfRange);
                },
            };
            assert(cs.subrange(0, i + 1).drop_last() =~= cs.subrange(0, i as int));
            sum = match sum.checked_add(t) {
                Some(x) => x,
                None => {
                    proof {
                        lemma_sum_terms_prefix(cs, i + 1, s as nat);
                    }
                    return Err(ErrorKind::OutOfRange);
                },
            };
            i = i + 1;
        }
        assert(cs.subrange(0, n as int) =~= cs);
        if sum > SQ_LIMIT / 4 {
            return Err(ErrorKind::OutOfRange);
        }
        let ps = pow10_u128(s);
        proof {
            lemma_pow10_add(s as nat, s as nat);
            lemma_pow10_pos(s as nat);
        }
        let den = match ps.checked_mul(ps) {
            Some(x) => match x.checked_mul(180) {
                Some(x) => x,
                None => {
                    return Err(ErrorKind::OutOfRange);
                },
            },
            None => {
                assert(180 * (ps * ps) >= ps * ps);
                return Err(ErrorKind::OutOfRange);
            },
        };
        if den > SQ_LIMIT {
            return Err(ErrorKind::OutOfRange);
        }
        assert(den >= 1) by (nonlinear_arith)
            requires
                den == ps * ps * 180,
                ps >= 1,
        ;
        Ok(Root { num: 4 * sum, den })
    }
}

} // verus!

verus! {

proof fn lemma_comp_term_rescale(c: Component, s: nat, j: nat)
    requires
        c.evaluation.value().scale <= s,
    ensures
        comp_term(c, s + j) == pow10(2 * j) * comp_term(c, s),
{
    let d = c.evaluation.value();
    let e = (s - d.scale) as nat;
    lemma_pow10_add(e, j);
    lemma_pow10_add(j, j);
    assert((s + j - d.scale) as nat == e + j);
    let y = at_scale(d, s);
    let y2 = at_scale(d, s + j);
    assert(y2 == y * pow10(j)) by (nonlinear_arith)
        requires
            y2 == d.mantissa * pow10(e + j),
            y == d.mantissa * pow10(e),
            pow10(e + j) == pow10(e) * pow10(j),
    ;
    let k = (c.sensitivity * c.sensitivity) * (180int / divisor_sq(c.distribution));
    assert(y2 * y2 * (c.sensitivity * c.sensitivity) * (180int / divisor_sq(c.distribution))
        == pow10(2 * j) * (y * y * (c.sensitivity * c.sensitivity) * (180int / divisor_sq(
        c.distribution,
    )))) by (nonlinear_arith)
        requires
            y2 == y * pow10(j),
            pow10(2 * j) == pow10(j) * pow10(j),
            2 * j == j + j,
    ;
}

proof fn lemma_sum_terms_rescale(cs: Seq<Component>, s: nat, j: nat)
    requires
        forall|i: int| 0 <= i < cs.len() ==> (#[trigger] cs[i]).evaluation.value().scale <= s,
    ensures
        sum_terms(cs, s + j) == pow10(2 * j) * sum_terms(cs, s),
    decreases cs.len(),
{
    if cs.len() > 0 {
        let p = cs.drop_last();
        assert forall|i: int| 0 <= i < p.len() implies (#[trigger] p[i]).evaluation.value().scale
            <= s by {
            assert(p[i] == cs[i]);
        }
        lemma_sum_terms_rescale(p, s, j);
        assert(cs.last() == cs[cs.len() - 1]);
        lemma_comp_term_rescale(cs.last(), s, j);
        assert(pow10(2 * j) * sum_terms(p, s) + pow10(2 * j) * comp_term(cs.last(), s) == pow10(
            2 * j,
        ) * (sum_terms(p, s) + comp_term(cs.last(), s))) by (nonlinear_arith);
    }
}

/// Halving the expanded uncertainty gives back the combined standard uncertainty:
/// for the result `e` of `Uncert::rss` on `cs`, the square of `e / 2`, that is
/// `e.num / (4 e.den)`, equals the sum of squared standard uncertainties
/// `sum_terms(cs, s) / rss_den(s)` at every common scale `s` the components allow.
pub proof fn lemma_rss_round_trip(cs: Seq<Component>, e: Root, s: nat)
    requires
        comps_wf(cs),
        s >= rss_scale(cs),
        e.num == 4 * sum_terms(cs, rss_scale(cs)),
        e.den == rss_den(rss_scale(cs)),
    ensures
        e.num * rss_den(s) == 4 * sum_terms(cs, s) * e.den,
{
    let s0 = rss_scale(cs);
    let j = (s - s0) as nat;
    let es = estimates(cs);
    assert(all_wf(es)) by {
        assert forall|i: int| 0 <= i < es.len() implies (#[trigger] es[i]).wf() by {
            assert(cs[i].wf());
        }
    }
    lemma_max_scale(es);
    assert forall|i: int| 0 <= i < cs.len() implies (#[trigger] cs[i]).evaluation.value().scale
        <= s0 by {
        assert(es[i] == cs[i].evaluation.value());
    }
    lemma_sum_terms_rescale(cs, s0, j);
    lemma_pow10_add(2 * s0, 2 * j);
    assert(2 * s == 2 * s0 + 2 * j);
    let p = pow10(2 * j);
    assert(4 * sum_terms(cs, s0) * (180 * (pow10(2 * s0) * p)) == 4 * (p * sum_terms(cs, s0))
        * (180 * pow10(2 * s0))) by (nonlinear_arith);
}

} // verus!

verus! {

proof fn lemma_sum_terms_fold(cs: Seq<Component>, s: nat)
    ensures
        sum_terms(cs, s) == cs.fold_left(0int, |acc: int, c: Component| acc + comp_term(c, s)),
    decreases cs.len(),
{
    if cs.len() > 0 {
        lemma_sum_terms_fold(cs.drop_last(), s);
    }
}

proof fn lemma_rss_scale_fold(cs: Seq<Component>)
    ensures
        rss_scale(cs) == cs.fold_left(
            0nat,
            |acc: nat, c: Component| if c.evaluation.value().scale > acc {
                c.evaluation.value().scale as nat
            } else {
                acc
            },
        ),
    decreases cs.len(),
{
    if cs.len() > 0 {
        assert(estimates(cs).drop_last() =~= estimates(cs.drop_last()));
        lemma_rss_scale_fold(cs.drop_last());
    }
}

/// The combination does not depend on the order of the components: the common
/// scale and the sum of squared standard uncertainties are the same.
pub proof fn lemma_rss_order_free(a: Seq<Component>, b: Seq<Component>)
    requires
        a.to_multiset() == b.to_multiset(),
    ensures
        rss_scale(a) == rss_scale(b),
        sum_terms(a, rss_scale(a)) == sum_terms(b, rss_scale(b)),
{
    let fm = |acc: nat, c: Component| if c.evaluation.value().scale > acc {
        c.evaluation.value().scale as nat
    } else {
        acc
    };
    lemma_rss_scale_fold(a);
    lemma_rss_scale_fold(b);
    vstd::seq_lib::lemma_fold_left_permutation(a, b, fm, 0nat);
    let s = rss_scale(a);
    let ft = |acc: int, c: Component| acc + comp_term(c, s);
    lemma_sum_terms_fold(a, s);
    lemma_sum_terms_fold(b, s);
    vstd::seq_lib::lemma_fold_left_permutation(a, b, ft, 0int);
}

} // verus!
