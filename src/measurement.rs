use vstd::prelude::*;
use crate::combine::{comps_wf, rss_den, rss_scale, sum_terms, Uncert};
use crate::component::{comp_matches, comp_row_error, opt_field, opt_field_exec, opt_view, prs_comp, Component};
use crate::decimal::{decimal_of, number_ok, parse_decimal, pow10, pow10_u128, Decimal, lemma_pow10_mono, lemma_pow10_pos};
use crate::error::ErrorKind;
use crate::format::{central_ok, central_spec, central_text, get_2_sig_fig, sig2_result};
use crate::prefix::{band_at, get_uncert_unit, magnitude_char, normalized, prefix_exp, unit_exp, SQ_LIMIT};
use crate::records::{get_measurement, records_of, views};
use crate::roots::Root;
use crate::text::{is_digit, push_char};

verus! {

/// A measured quantity with its statement of uncertainty.
#[derive(Debug, Clone)]
pub struct Measurement {
    pub value: Decimal,
    pub unit: String,
    pub resolution: Decimal,
    pub uncert: Uncert,
}

impl Measurement {
    pub open spec fn wf(self) -> bool {
        self.value.wf() && self.resolution.wf() && self.resolution.mantissa > 0
    }
}

/// The first error of a header row `!,value,resolution,unit[,estimate[,unit]]`,
/// field by field, if any.
pub open spec fn header_error(row: Seq<Seq<char>>) -> Option<ErrorKind> {
    if row.len() < 2 {
        Some(ErrorKind::MissingField)
    } else if !number_ok(row[1]) {
        Some(ErrorKind::BadNumber)
    } else if row.len() < 3 {
        Some(ErrorKind::MissingField)
    } else if !number_ok(row[2]) || decimal_of(row[2]).mantissa <= 0 {
        Some(ErrorKind::BadNumber)
    } else if row.len() < 4 {
        Some(ErrorKind::MissingField)
    } else if row.len() >= 5 && !number_ok(row[4]) {
        Some(ErrorKind::BadNumber)
    } else {
        None
    }
}

/// `m` is what the header row `row` describes.
pub open spec fn header_matches(m: Measurement, row: Seq<Seq<char>>) -> bool {
    &&& row.len() >= 4
    &&& m.value == decimal_of(row[1])
    &&& m.resolution == decimal_of(row[2])
    &&& m.unit@ == row[3]
    &&& m.uncert.estimate == if row.len() >= 5 {
        Some(decimal_of(row[4]))
    } else {
        None::<Decimal>
    }
    &&& opt_view(m.uncert.unit) == opt_field(row, 5)
    &&& m.uncert.comps@.len() == 0
}

fn parse_field(f: &Vec<String>, i: usize) -> (r: Result<Decimal, ErrorKind>)
    requires
        i < f@.len(),
    ensures
        r.is_ok() <==> number_ok(f@[i as int]@),
        r.is_ok() ==> r.unwrap() == decimal_of(f@[i as int]@) && r.unwrap().wf(),
        r.is_err() ==> r == Err::<Decimal, ErrorKind>(ErrorKind::BadNumber),
{
    parse_decimal(f[i].as_str())
}

/// Reads the measurement header row: value, resolution, unit of measure, and an
/// optional uncertainty estimate with its unit.
pub fn get_meas(f_str_vec: Vec<String>) -> (r: Result<Measurement, ErrorKind>)
    ensures
        match header_error(views(f_str_vec@)) {
            Some(e) => r == Err::<Measurement, ErrorKind>(e),
            None => r.is_ok() && header_matches(r.unwrap(), views(f_str_vec@)) && r.unwrap().wf(),
        },
{
    let ghost row = views(f_str_vec@);
    let f = &f_str_vec;
    if f.len() < 2 {
        return Err(ErrorKind::MissingField);
    }
    let value = match parse_field(f, 1) {
        Ok(d) => d,
        Err(e) => {
            return Err(e);
        },
    };
    if f.len() < 3 {
        return Err(ErrorKind::MissingField);
    }
    let resolution = match parse_field(f, 2) {
        Ok(d) => d,
        Err(e) => {
            return Err(e);
        },
    };
    if resolution.mantissa <= 0 {
        return Err(ErrorKind::BadNumber);
    }
    if f.len() < 4 {
        return Err(ErrorKind::MissingField);
    }
    let unit = f[3].clone();
    let mut uncert = Uncert::new();
    if f.len() >= 5 {
        let est = match parse_field(f, 4) {
            Ok(d) => d,
            Err(e) => {
                return Err(e);
            },
        };
        uncert.estimate = Some(est);
        uncert.unit = opt_field_exec(f, 5);
    }
    Ok(Measurement { value, resolution, unit, uncert })
}

} // verus!

verus! {

/// The first character of a row, where it has one.
pub open spec fn lead(row: Seq<Seq<char>>) -> Option<char> {
    if row.len() > 0 && row[0].len() > 0 {
        Some(row[0][0])
    } else {
        None
    }
}

pub open spec fn is_comment_row(row: Seq<Seq<char>>) -> bool {
    lead(row) == Some('#') || lead(row) == Some('?')
}

pub open spec fn is_header_row(row: Seq<Seq<char>>) -> bool {
    lead(row) == Some('!')
}

pub open spec fn is_comp_row(row: Seq<Seq<char>>) -> bool {
    lead(row) is Some && (is_digit(lead(row).unwrap()) || lead(row) == Some('-') || lead(row)
        == Some('~'))
}

/// Every row starts as a comment, a header or a component does.
pub open spec fn rows_ok(rows: Seq<Seq<Seq<char>>>) -> bool {
    forall|i: int|
        0 <= i < rows.len() ==> is_comment_row(#[trigger] rows[i]) || is_header_row(rows[i])
            || is_comp_row(rows[i])
}

/// The component rows, in order.
pub open spec fn comp_rows(rows: Seq<Seq<Seq<char>>>) -> Seq<Seq<Seq<char>>>
    decreases rows.len(),
{
    if rows.len() == 0 {
        Seq::empty()
    } else if is_comp_row(rows.last()) {
        comp_rows(rows.drop_last()).push(rows.last())
    } else {
        comp_rows(rows.drop_last())
    }
}

/// The last header row, if any.
pub open spec fn last_header(rows: Seq<Seq<Seq<char>>>) -> Option<Seq<Seq<char>>>
    decreases rows.len(),
{
    if rows.len() == 0 {
        None
    } else if is_header_row(rows.last()) {
        Some(rows.last())
    } else {
        last_header(rows.drop_last())
    }
}

/// `cs` are the components that the rows `crs` describe, one for one.
pub open spec fn comps_match(cs: Seq<Component>, crs: Seq<Seq<Seq<char>>>) -> bool {
    &&& cs.len() == crs.len()
    &&& forall|i: int| 0 <= i < cs.len() ==> comp_matches(#[trigger] cs[i], crs[i])
    &&& comps_wf(cs)
}

/// The expanded uncertainty of `cs`, held by its square.
pub open spec fn expanded(cs: Seq<Component>) -> Root {
    Root { num: (4 * sum_terms(cs, rss_scale(cs))) as u128, den: rss_den(rss_scale(cs)) as u128 }
}

/// `m` carries the combined uncertainty of `cs`: its mantissa, rounded, and the SI
/// prefix that the unit of measure takes for it.
pub open spec fn combined_from(m: Measurement, cs: Seq<Component>) -> bool {
    &&& m.uncert.comps@.len() == 0
    &&& m.uncert.estimate is Some
    &&& m.uncert.unit is Some
    &&& ({
        let est = m.uncert.estimate.unwrap();
        let u = m.uncert.unit.unwrap()@;
        &&& est.scale == 0
        &&& u.len() == 1
        &&& prefix_exp(u[0]) is Some
        &&& normalized(expanded(cs), prefix_exp(u[0]).unwrap() - unit_exp(m.unit@), est.mantissa as int)
    })
}

/// Every row is well formed: each starts as a comment, a header or a component
/// does, and each header and component row reads without error.
pub open spec fn rows_valid(rows: Seq<Seq<Seq<char>>>) -> bool {
    &&& rows_ok(rows)
    &&& forall|i: int|
        0 <= i < rows.len() && is_header_row(#[trigger] rows[i]) ==> header_error(rows[i]) is None
    &&& forall|i: int|
        0 <= i < rows.len() && is_comp_row(#[trigger] rows[i]) ==> comp_row_error(rows[i]) is None
}

/// The components `cs` combine to an uncertainty that is in range, not zero, and
/// has an SI prefix under the unit `unit`.
pub open spec fn combinable(cs: Seq<Component>, unit: Seq<char>) -> bool {
    &&& 4 * sum_terms(cs, rss_scale(cs)) <= SQ_LIMIT
    &&& rss_den(rss_scale(cs)) <= SQ_LIMIT
    &&& sum_terms(cs, rss_scale(cs)) != 0
    &&& forall|mag: int|
        band_at(expanded(cs), mag) ==> (#[trigger] magnitude_char(unit_exp(unit) + mag)) is Some
}

impl Measurement {
    /// Reads a measurement description and combines its uncertainty components:
    /// comment rows (`#`, `?`) are skipped, the last header row (`!`) gives the
    /// measurement, component rows (a digit, `-` or `~`) its components.
    pub fn new(file_line: String) -> (r: Result<Measurement, ErrorKind>)
        ensures
            ({
                let rows = records_of(file_line@);
                &&& !rows_ok(rows) ==> r.is_err()
                &&& last_header(rows) is None ==> r.is_err()
                &&& rows_valid(rows) && last_header(rows) is Some && (forall|cs: Seq<Component>|
                    comps_match(cs, comp_rows(rows)) ==> combinable(
                        cs,
                        last_header(rows).unwrap()[3],
                    )) ==> r.is_ok()
                &&& r == Err::<Measurement, ErrorKind>(ErrorKind::BadLineStart) ==> !rows_ok(rows)
                &&& r == Err::<Measurement, ErrorKind>(ErrorKind::MissingHeader) ==> rows_ok(rows)
                    && last_header(rows) is None
                &&& r == Err::<Measurement, ErrorKind>(ErrorKind::ZeroUncertainty) ==> rows_ok(rows)
                    && exists|cs: Seq<Component>|
                    comps_match(cs, comp_rows(rows)) && sum_terms(cs, rss_scale(cs)) == 0
                &&& r.is_ok() ==> {
                    &&& rows_ok(rows)
                    &&& last_header(rows) is Some
                    &&& r.unwrap().value == decimal_of(last_header(rows).unwrap()[1])
                    &&& r.unwrap().resolution == decimal_of(last_header(rows).unwrap()[2])
                    &&& r.unwrap().unit@ == last_header(rows).unwrap()[3]
                    &&& r.unwrap().wf()
                    &&& exists|cs: Seq<Component>|
                        comps_match(cs, comp_rows(rows)) && combined_from(r.unwrap(), cs)
                }
            }),
    {
        let mut rows = get_measurement(file_line);
        let ghost all = records_of(file_line@);
        let ghost orig = rows@;
        let n = rows.len();
        let mut comps: Vec<Component> = Vec::new();
        let mut header: Option<Measurement> = None;
        let mut i: usize = 0;
        while i < n
            invariant
                i <= n == orig.len() == all.len(),
                all == records_of(file_line@),
                forall|j: int| 0 <= j < n ==> views(#[trigger] orig[j]@) == all[j],
                rows@ == orig.subrange(i as int, n as int),
                rows_ok(all.subrange(0, i as int)),
                comps_match(comps@, comp_rows(all.subrange(0, i as int))),
                header is None <==> last_header(all.subrange(0, i as int)) is None,
                header is Some ==> header_matches(
                    header.unwrap(),
                    last_header(all.subrange(0, i as int)).unwrap(),
                ) && header.unwrap().wf(),
            decreases n - i,
        {
            let ghost pre = all.subrange(0, i as int);
            let ghost next = all.subrange(0, i + 1);
            assert(next.drop_last() =~= pre);
            let row = rows.remove(0);
            assert(row == orig[i as int]);
            let ghost rv = views(row@);
            assert(rv == all[i as int] && next.last() == rv);
            let c = if row.len() > 0 && row[0].as_str().unicode_len() > 0 {
                assert(rv[0] == row@[0]@);
                Some(row[0].as_str().get_char(0))
            } else {
                None
            };
            assert(c == lead(rv));
            match c {
                Some(ch) => {
                    if ch == '#' || ch == '?' {
                    } else if ch == '!' {
                        match get_meas(row) {
                            Ok(m) => {
                                header = Some(m);
                            },
                            Err(e) => {
                                assert(!rows_valid(all)) by {
                                    assert(all[i as int] == rv);
                                }
                                return Err(e);
                            },
                        }
                    } else if ('0' <= ch && ch <= '9') || ch == '-' || ch == '~' {
                        match prs_comp(row) {
                            Ok(comp) => {
                                let ghost before = comps@;
                                comps.push(comp);
                                assert(comp_rows(next) == comp_rows(pre).push(rv));
                                assert(comps@ == before.push(comp));
                                assert(comps_match(comps@, comp_rows(next))) by {
                                    assert forall|j: int| 0 <= j < comps@.len() implies comp_matches(
                                        #[trigger] comps@[j],
                                        comp_rows(next)[j],
                                    ) by {
                                        if j < before.len() {
                                            assert(comps@[j] == before[j]);
                                        }
                                    }
                                    assert forall|j: int| 0 <= j < comps@.len() implies (
                                    #[trigger] comps@[j]).wf() by {
                                        if j < before.len() {
                                            assert(comps@[j] == before[j]);
                                        }
                                    }
                                }
                            },
                            Err(e) => {
                                assert(!rows_valid(all)) by {
                                    assert(all[i as int] == rv);
                                }
                                return Err(e);
                            },
                        }
                    } else {
                        assert(!rows_ok(all)) by {
                            assert(all[i as int] == rv);
                        }
                        return Err(ErrorKind::BadLineStart);
                    }
                },
                None => {
                    assert(!rows_ok(all)) by {
                        assert(all[i as int] == rv);
                    }
                    return Err(ErrorKind::BadLineStart);
                },
            }
            assert(rows_ok(next)) by {
                assert forall|j: int| 0 <= j < next.len() implies is_comment_row(#[trigger] next[j])
                    || is_header_row(next[j]) || is_comp_row(next[j]) by {
                    if j < i {
                        assert(next[j] == pre[j]);
                    }
                }
            }
            assert(rows@ =~= orig.subrange(i + 1, n as int));
            i = i + 1;
        }
        assert(all.subrange(0, n as int) =~= all);
        let meas = match header {
            Some(m) => m,
            None => {
                return Err(ErrorKind::MissingHeader);
            },
        };
        let ghost cs = comps@;
        let combined = Uncert { estimate: None, unit: None, comps };
        let root = match combined.rss() {
            Ok(root) => root,
            Err(e) => {
                assert(comps_match(cs, comp_rows(all)) && !combinable(cs, meas.unit@));
                return Err(e);
            },
        };
        assert(root == expanded(cs));
        if root.num == 0 {
            assert(comps_match(cs, comp_rows(all)) && sum_terms(cs, rss_scale(cs)) == 0);
            assert(!combinable(cs, meas.unit@));
            return Err(ErrorKind::ZeroUncertainty);
        }
        let (mantissa, prefix) = match get_uncert_unit(root, meas.unit.clone()) {
            Ok(p) => p,
            Err(e) => {
                assert(!combinable(cs, meas.unit@));
                return Err(e);
            },
        };
        let uncert = Uncert {
            estimate: Some(Decimal { mantissa: mantissa as i128, scale: 0 }),
            unit: Some(prefix),
            comps: Vec::new(),
        };
        let r = Measurement {
            value: meas.value,
            resolution: meas.resolution,
            unit: meas.unit,
            uncert,
        };
        assert(comps_match(cs, comp_rows(all)) && combined_from(r, cs));
        Ok(r)
    }
}

} // verus!

verus! {

/// A decimal rounded half away from zero to a whole number, negatives to zero,
/// capped at the largest `u64`.
pub open spec fn whole_of(d: Decimal) -> int {
    let p = pow10(d.scale as nat);
    let w = if d.mantissa <= 0 {
        0
    } else {
        (d.mantissa as int) / p + if ((d.mantissa as int) % p) * 2 >= p {
            1int
        } else {
            0int
        }
    };
    if w > u64::MAX {
        u64::MAX as int
    } else {
        w
    }
}

fn whole_exec(d: Decimal) -> (r: u64)
    requires
        d.wf(),
    ensures
        r as int == whole_of(d),
{
    if d.mantissa <= 0 {
        return 0;
    }
    proof {
        lemma_pow10_pos(d.scale as nat);
        lemma_pow10_mono(d.scale as nat, 30);
        reveal_with_fuel(pow10, 31);
    }
    let p = pow10_u128(d.scale);
    let m = d.mantissa as u128;
    let w = m / p + if (m % p) * 2 >= p { 1 } else { 0 };
    if w > u64::MAX as u128 {
        u64::MAX
    } else {
        w as u64
    }
}

/// The report line: `<central value> <unit> ±<uncertainty> <prefix><unit>`.
pub open spec fn report_line(
    central: Seq<char>,
    unit: Seq<char>,
    digits: Seq<char>,
    prefix: Seq<char>,
) -> Seq<char> {
    central + seq![' '] + unit + seq![' ', '\u{b1}'] + digits + seq![' '] + prefix + unit
}

fn append_all(out: &mut String, s: &String)
    ensures
        final(out)@ == old(out)@ + s@,
{
    out.append(s.as_str());
}

impl Measurement {
    /// The central value rounded to the resolution, with as many decimal places as
    /// the resolution has.
    pub fn value_string(self) -> (r: Result<String, ErrorKind>)
        requires
            self.wf(),
        ensures
            r.is_ok() <==> central_ok(self.value, self.resolution),
            r.is_ok() ==> r.unwrap()@ == central_spec(self.value, self.resolution),
            r.is_err() ==> r == Err::<String, ErrorKind>(ErrorKind::OutOfRange),
    {
        central_text(self.value, self.resolution)
    }

    /// The report line of a measurement whose uncertainty has been combined.
    pub fn printout(self) -> (r: Result<String, ErrorKind>)
        requires
            self.wf(),
            self.uncert.estimate is Some,
            self.uncert.estimate.unwrap().wf(),
            self.uncert.unit is Some,
        ensures
            ({
                let sig = sig2_result(
                    whole_of(self.uncert.estimate.unwrap()) as nat,
                    self.uncert.unit.unwrap()@,
                );
                &&& r.is_ok() <==> central_ok(self.value, self.resolution) && sig is Ok
                &&& r.is_ok() ==> r.unwrap()@ == report_line(
                    central_spec(self.value, self.resolution),
                    self.unit@,
                    sig.unwrap().0,
                    sig.unwrap().1,
                )
                &&& !central_ok(self.value, self.resolution) ==> r == Err::<String, ErrorKind>(
                    ErrorKind::OutOfRange,
                )
                &&& central_ok(self.value, self.resolution) && sig is Err ==> r == Err::<
                    String,
                    ErrorKind,
                >(sig->Err_0)
            }),
    {
        let est = match self.uncert.estimate {
            Some(e) => e,
            None => {
                return Err(ErrorKind::MissingField);
            },
        };
        let prefix_unit = match self.uncert.unit {
            Some(u) => u,
            None => {
                return Err(ErrorKind::MissingField);
            },
        };
        let central = match central_text(self.value, self.resolution) {
            Ok(c) => c,
            Err(e) => {
                return Err(e);
            },
        };
        let (digits, prefix) = match get_2_sig_fig(whole_exec(est), prefix_unit) {
            Ok(p) => p,
            Err(e) => {
                return Err(e);
            },
        };
        let mut out = String::new();
        append_all(&mut out, &central);
        push_char(&mut out, ' ');
        append_all(&mut out, &self.unit);
        push_char(&mut out, ' ');
        push_char(&mut out, '\u{b1}');
        append_all(&mut out, &digits);
        push_char(&mut out, ' ');
        append_all(&mut out, &prefix);
        append_all(&mut out, &self.unit);
        assert(out@ =~= report_line(central@, self.unit@, digits@, prefix@));
        Ok(out)
    }
}

} // verus!
