use vstd::prelude::*;
use crate::decimal::{decimal_of, number_ok, parse_decimal, Decimal};
use crate::error::ErrorKind;
use crate::records::{split_fields, split_on, views};
use crate::stats::{all_wf, is_std_dev, std_dev, std_dev_in_range};
use crate::text::{all_digits, digits_val, parse_digits};

verus! {

/// The main contributor of an uncertainty component.
#[derive(Debug, Clone, Copy, PartialEq, Eq, Structural)]
pub enum Source {
    Method,
    Standard,
    UnitUnderTest,
    Environment,
}

/// How a component's value was obtained, and the value.
#[derive(Debug, Clone, Copy, PartialEq, Eq, Structural)]
pub enum Evaluation {
    /// Computed from repeated readings: their sample standard deviation.
    A(Decimal),
    /// Asserted directly.
    B(Decimal),
}

impl Evaluation {
    pub open spec fn value(self) -> Decimal {
        match self {
            Evaluation::A(d) => d,
            Evaluation::B(d) => d,
        }
    }
}

/// The probability distribution of a component, which sets its divisor.
#[derive(Debug, Clone, Copy, PartialEq, Eq, Structural)]
pub enum Distribution {
    /// Normal, divisor 1.
    Normal1,
    /// Normal, divisor 2.
    Normal2,
    /// Normal, divisor 3.
    Normal3,
    /// U-shaped, divisor the square root of 2.
    UShaped,
    /// Rectangular, divisor the square root of 3.
    Rectangular,
    /// Quadratic, divisor the square root of 5.
    Quadratic,
    /// Triangular, divisor the square root of 6.
    Triangular,
}

/// The square of the divisor of a distribution.
pub open spec fn divisor_sq(d: Distribution) -> int {
    match d {
        Distribution::Normal1 => 1,
        Distribution::Normal2 => 4,
        Distribution::Normal3 => 9,
        Distribution::UShaped => 2,
        Distribution::Rectangular => 3,
        Distribution::Quadratic => 5,
        Distribution::Triangular => 6,
    }
}

/// One contribution to the uncertainty of a measurement.
#[derive(Debug, Clone)]
pub struct Component {
    pub evaluation: Evaluation,
    pub source: Source,
    pub distribution: Distribution,
    pub sensitivity: u32,
    pub description: String,
    pub ref_str: Option<String>,
    pub ref_url: Option<String>,
}

impl Component {
    pub open spec fn wf(self) -> bool {
        self.evaluation.value().wf()
    }

    /// The value of the component's evaluation.
    pub fn get_estimate(&self) -> (r: Decimal)
        ensures
            r == self.evaluation.value(),
    {
        match self.evaluation {
            Evaluation::A(d) => d,
            Evaluation::B(d) => d,
        }
    }

    /// The square of the divisor of the component's distribution: 1, 4 and 9 for
    /// the normal ones, 2, 3, 5 and 6 for the U-shaped, rectangular, quadratic and
    /// triangular ones.
    pub fn get_divisor(&self) -> (r: u32)
        ensures
            r as int == divisor_sq(self.distribution),
    {
        match self.distribution {
            Distribution::Normal1 => 1,
            Distribution::Normal2 => 4,
            Distribution::Normal3 => 9,
            Distribution::UShaped => 2,
            Distribution::Rectangular => 3,
            Distribution::Quadratic => 5,
            Distribution::Triangular => 6,
        }
    }
}

/// The source that a one-letter code names.
pub open spec fn source_of(f: Seq<char>) -> Option<Source> {
    if f == seq!['s'] {
        Some(Source::Standard)
    } else if f == seq!['u'] {
        Some(Source::UnitUnderTest)
    } else if f == seq!['m'] {
        Some(Source::Method)
    } else if f == seq!['e'] {
        Some(Source::Environment)
    } else {
        None
    }
}

/// The distribution that a code names.
pub open spec fn distribution_of(f: Seq<char>) -> Option<Distribution> {
    if f == seq!['n', '1'] {
        Some(Distribution::Normal1)
    } else if f == seq!['n', '2'] {
        Some(Distribution::Normal2)
    } else if f == seq!['n', '3'] {
        Some(Distribution::Normal3)
    } else if f == seq!['u'] {
        Some(Distribution::UShaped)
    } else if f == seq!['r'] {
        Some(Distribution::Rectangular)
    } else if f == seq!['q'] {
        Some(Distribution::Quadratic)
    } else if f == seq!['t'] {
        Some(Distribution::Triangular)
    } else {
        None
    }
}

fn parse_source(f: &String) -> (r: Result<Source, ErrorKind>)
    ensures
        match source_of(f@) {
            Some(s) => r == Ok::<Source, ErrorKind>(s),
            None => r == Err::<Source, ErrorKind>(ErrorKind::BadSource),
        },
{
    let t = f.as_str();
    if t.unicode_len() == 1 {
        let c = t.get_char(0);
        assert(f@ =~= seq![c]);
        if c == 's' {
            return Ok(Source::Standard);
        } else if c == 'u' {
            return Ok(Source::UnitUnderTest);
        } else if c == 'm' {
            return Ok(Source::Method);
        } else if c == 'e' {
            return Ok(Source::Environment);
        }
    }
    Err(ErrorKind::BadSource)
}

fn parse_distribution(f: &String) -> (r: Result<Distribution, ErrorKind>)
    ensures
        match distribution_of(f@) {
            Some(d) => r == Ok::<Distribution, ErrorKind>(d),
            None => r == Err::<Distribution, ErrorKind>(ErrorKind::BadDistribution),
        },
{
    let t = f.as_str();
    let n = t.unicode_len();
    if n == 1 {
        let c = t.get_char(0);
        assert(f@ =~= seq![c]);
        if c == 'u' {
            return Ok(Distribution::UShaped);
        } else if c == 'r' {
            return Ok(Distribution::Rectangular);
        } else if c == 'q' {
            return Ok(Distribution::Quadratic);
        } else if c == 't' {
            return Ok(Distribution::Triangular);
        }
    } else if n == 2 {
        let c0 = t.get_char(0);
        let c1 = t.get_char(1);
        assert(f@ =~= seq![c0, c1]);
        if c0 == 'n' {
            if c1 == '1' {
                return Ok(Distribution::Normal1);
            } else if c1 == '2' {
                return Ok(Distribution::Normal2);
            } else if c1 == '3' {
                return Ok(Distribution::Normal3);
            }
        }
    }
    Err(ErrorKind::BadDistribution)
}

/// `f` writes an unsigned 32-bit number in decimal digits.
pub open spec fn u32_ok(f: Seq<char>) -> bool {
    f.len() > 0 && all_digits(f) && digits_val(f) <= u32::MAX
}

fn parse_u32(f: &String) -> (r: Result<u32, ErrorKind>)
    ensures
        r.is_ok() <==> u32_ok(f@),
        r.is_ok() ==> r.unwrap() as int == digits_val(f@),
        r.is_err() ==> r == Err::<u32, ErrorKind>(ErrorKind::BadNumber),
{
    let t = f.as_str();
    let n = t.unicode_len();
    assert(t@.subrange(0, n as int) =~= f@);
    if n == 0 {
        return Err(ErrorKind::BadNumber);
    }
    match parse_digits(t, 0, n) {
        Some(v) => {
            if v > u32::MAX as u128 {
                Err(ErrorKind::BadNumber)
            } else {
                Ok(v as u32)
            }
        },
        None => Err(ErrorKind::BadNumber),
    }
}

/// The texts of the readings of a Type A field `~r1~r2...`: what follows each `~`.
pub open spec fn reading_texts(f: Seq<char>) -> Seq<Seq<char>> {
    split_on(f, '~').drop_first()
}

pub open spec fn all_numbers(ts: Seq<Seq<char>>) -> bool {
    forall|i: int| 0 <= i < ts.len() ==> number_ok(#[trigger] ts[i])
}

pub open spec fn decimals_of(ts: Seq<Seq<char>>) -> Seq<Decimal> {
    ts.map_values(|t: Seq<char>| decimal_of(t))
}

/// The sample standard deviation of the readings listed in `hld_eval` (`~r1~r2...`),
/// rounded up to ten decimal places.
pub fn std_dev_from_line(hld_eval: String) -> (r: Result<Decimal, ErrorKind>)
    ensures
        ({
            let ts = reading_texts(hld_eval@);
            &&& !all_numbers(ts) ==> r == Err::<Decimal, ErrorKind>(ErrorKind::BadNumber)
            &&& all_numbers(ts) && ts.len() < 2 ==> r == Err::<Decimal, ErrorKind>(
                ErrorKind::TooFewSamples,
            )
            &&& all_numbers(ts) && ts.len() >= 2 ==> if std_dev_in_range(decimals_of(ts)) {
                r.is_ok()
            } else {
                r == Err::<Decimal, ErrorKind>(ErrorKind::OutOfRange)
            }
            &&& r.is_ok() ==> r.unwrap().scale == 10 && r.unwrap().wf() && is_std_dev(
                r.unwrap().mantissa as int,
                decimals_of(ts),
            )
            &&& r.is_err() ==> r == Err::<Decimal, ErrorKind>(ErrorKind::BadNumber) || r == Err::<
                Decimal,
                ErrorKind,
            >(ErrorKind::TooFewSamples) || r == Err::<Decimal, ErrorKind>(ErrorKind::OutOfRange)
        }),
{
    let parts = split_fields(hld_eval.as_str(), '~');
    let ghost ts = reading_texts(hld_eval@);
    proof {
        crate::records::lemma_split_nonempty(hld_eval@, '~');
    }
    let mut readings: Vec<Decimal> = Vec::new();
    let mut i: usize = 1;
    while i < parts.len()
        invariant
            1 <= i <= parts@.len(),
            views(parts@) == split_on(hld_eval@, '~'),
            ts == reading_texts(hld_eval@),
            ts.len() == parts@.len() - 1,
            readings@.len() == i - 1,
            forall|j: int| 0 <= j < i - 1 ==> number_ok(#[trigger] ts[j]),
            forall|j: int| 0 <= j < i - 1 ==> #[trigger] readings@[j] == decimal_of(ts[j]),
            forall|j: int| 0 <= j < i - 1 ==> (#[trigger] readings@[j]).wf(),
        decreases parts@.len() - i,
    {
        assert(ts[i - 1] == parts@[i as int]@);
        let d = match parse_decimal(parts[i].as_str()) {
            Ok(d) => d,
            Err(e) => {
                return Err(e);
            },
        };
        readings.push(d);
        i = i + 1;
    }
    assert(readings@ =~= decimals_of(ts));
    assert(all_wf(readings@));
    std_dev(&readings)
}

} // verus!

verus! {

pub open spec fn is_type_a(f: Seq<char>) -> bool {
    f.len() > 0 && f[0] == '~'
}

/// The error of an evaluation field, if any: a malformed number, too few
/// readings, or readings beyond the range of the exact computation.
pub open spec fn eval_error(f: Seq<char>) -> Option<ErrorKind> {
    if is_type_a(f) {
        if !all_numbers(reading_texts(f)) {
            Some(ErrorKind::BadNumber)
        } else if reading_texts(f).len() < 2 {
            Some(ErrorKind::TooFewSamples)
        } else if !std_dev_in_range(decimals_of(reading_texts(f))) {
            Some(ErrorKind::OutOfRange)
        } else {
            None
        }
    } else if !number_ok(f) {
        Some(ErrorKind::BadNumber)
    } else {
        None
    }
}

/// The first error of a component row, field by field, if any.
pub open spec fn comp_row_error(row: Seq<Seq<char>>) -> Option<ErrorKind> {
    if row.len() < 1 {
        Some(ErrorKind::MissingField)
    } else if eval_error(row[0]) is Some {
        eval_error(row[0])
    } else if row.len() < 2 {
        Some(ErrorKind::MissingField)
    } else if source_of(row[1]) is None {
        Some(ErrorKind::BadSource)
    } else if row.len() < 3 {
        Some(ErrorKind::MissingField)
    } else if distribution_of(row[2]) is None {
        Some(ErrorKind::BadDistribution)
    } else if row.len() < 4 {
        Some(ErrorKind::MissingField)
    } else if !u32_ok(row[3]) {
        Some(ErrorKind::BadNumber)
    } else if row.len() < 5 {
        Some(ErrorKind::MissingField)
    } else {
        None
    }
}

pub open spec fn opt_view(o: Option<String>) -> Option<Seq<char>> {
    match o {
        Some(s) => Some(s@),
        None => None,
    }
}

/// The optional field `i` of a row.
pub open spec fn opt_field(row: Seq<Seq<char>>, i: int) -> Option<Seq<char>> {
    if i < row.len() {
        Some(row[i])
    } else {
        None
    }
}

/// `c` is what the component row `row` describes.
pub open spec fn comp_matches(c: Component, row: Seq<Seq<char>>) -> bool {
    &&& row.len() >= 5
    &&& if is_type_a(row[0]) {
        c.evaluation is A && is_std_dev(
            c.evaluation.value().mantissa as int,
            decimals_of(reading_texts(row[0])),
        ) && c.evaluation.value().scale == 10
    } else {
        c.evaluation == Evaluation::B(decimal_of(row[0]))
    }
    &&& source_of(row[1]) == Some(c.source)
    &&& distribution_of(row[2]) == Some(c.distribution)
    &&& c.sensitivity as int == digits_val(row[3])
    &&& c.description@ == row[4]
    &&& opt_view(c.ref_str) == opt_field(row, 5)
    &&& opt_view(c.ref_url) == opt_field(row, 6)
}

pub(crate) fn opt_field_exec(comp: &Vec<String>, i: usize) -> (r: Option<String>)
    ensures
        opt_view(r) == opt_field(views(comp@), i as int),
{
    if i < comp.len() {
        Some(comp[i].clone())
    } else {
        None
    }
}

/// Reads an uncertainty component row: evaluation (a number, or `~`-separated
/// readings), source code, distribution code, sensitivity, description, and an
/// optional reference label and reference address.
pub fn prs_comp(comp: Vec<String>) -> (r: Result<Component, ErrorKind>)
    ensures
        ({
            let row = views(comp@);
            &&& comp_row_error(row) is Some ==> r == Err::<Component, ErrorKind>(
                comp_row_error(row).unwrap(),
            )
            &&& comp_row_error(row) is None ==> r.is_ok()
            &&& r.is_ok() ==> comp_matches(r.unwrap(), row) && r.unwrap().wf()
        }),
{
    let ghost row = views(comp@);
    if comp.len() < 1 {
        return Err(ErrorKind::MissingField);
    }
    assert(row[0] == comp@[0]@);
    let first = comp[0].as_str();
    let type_a = first.unicode_len() > 0 && first.get_char(0) == '~';
    let evaluation = if type_a {
        match std_dev_from_line(comp[0].clone()) {
            Ok(d) => Evaluation::A(d),
            Err(e) => {
                return Err(e);
            },
        }
    } else {
        match parse_decimal(first) {
            Ok(d) => Evaluation::B(d),
            Err(e) => {
                return Err(e);
            },
        }
    };
    if comp.len() < 2 {
        return Err(ErrorKind::MissingField);
    }
    assert(row[1] == comp@[1]@);
    let source = match parse_source(&comp[1]) {
        Ok(s) => s,
        Err(e) => {
            return Err(e);
        },
    };
    if comp.len() < 3 {
        return Err(ErrorKind::MissingField);
    }
    assert(row[2] == comp@[2]@);
    let distribution = match parse_distribution(&comp[2]) {
        Ok(d) => d,
        Err(e) => {
            return Err(e);
        },
    };
    if comp.len() < 4 {
        return Err(ErrorKind::MissingField);
    }
    assert(row[3] == comp@[3]@);
    let sensitivity = match parse_u32(&comp[3]) {
        Ok(k) => k,
        Err(e) => {
            return Err(e);
        },
    };
    if comp.len() < 5 {
        return Err(ErrorKind::MissingField);
    }
    assert(row[4] == comp@[4]@);
    let description = comp[4].clone();
    let ref_str = opt_field_exec(&comp, 5);
    let ref_url = opt_field_exec(&comp, 6);
    Ok(Component { evaluation, source, distribution, sensitivity, description, ref_str, ref_url })
}

} // verus!
