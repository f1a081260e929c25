use uncert_wizard::{
    get_2_sig_fig, get_meas, get_measurement, get_uncert_unit, match_magnitude, match_prefix,
    parse_decimal, prs_comp, std_dev_from_line, Decimal, Distribution, ErrorKind, Evaluation,
    Measurement, Root, Source, Uncert,
};

fn dec(s: &str) -> Decimal {
    parse_decimal(s).unwrap()
}

fn root(s: &str) -> Root {
    Root::of_decimal(dec(s)).unwrap()
}

fn row(fields: &[&str]) -> Vec<String> {
    fields.iter().map(|f| f.to_string()).collect()
}

fn tenth_digits(m: i128) -> Decimal {
    Decimal { mantissa: m, scale: 10 }
}

#[test]
fn std_dev_from_line_test() {
    assert_eq!(
        std_dev_from_line(String::from(
            "~1.20003~1.20002~1.20001~1.2~1.20001~1.20001~1.20003~1.20004~1.20001~1.19995"
        )),
        Ok(tenth_digits(246982))
    );
    assert_eq!(std_dev_from_line(String::from("~0~0")), Ok(tenth_digits(0)));
    assert_eq!(std_dev_from_line(String::from("~1~2~3")), Ok(tenth_digits(10000000000)));
    assert_eq!(std_dev_from_line(String::from("~1e-1~2e-1~3e-1")), Ok(tenth_digits(1000000000)));
    assert_eq!(std_dev_from_line(String::from("~1e-3~2e-3~3e-3")), Ok(tenth_digits(10000000)));
}

#[test]
fn get_uncert_unit_test() {
    assert_eq!(
        get_uncert_unit(root("0.00032"), String::from("A")),
        Ok((320, String::from("\u{b5}")))
    );
    assert_eq!(get_uncert_unit(root("32.0"), String::from("M\u{3a9}")), Ok((32, String::from("M"))));
    assert_eq!(
        get_uncert_unit(root("3200.0"), String::from("M\u{3a9}")),
        Ok((3200, String::from("M")))
    );
    assert_eq!(get_uncert_unit(root("10.0"), String::from("\u{3a9}")), Ok((10, String::from(" "))));
}

#[test]
fn test_value_string() {
    assert_eq!(
        Measurement::value_string(Measurement {
            value: dec("1.20638"),
            resolution: dec("0.001"),
            uncert: Uncert::new(),
            unit: String::from("A"),
        }),
        Ok(String::from("1.206"))
    );
    assert_eq!(
        Measurement::value_string(Measurement {
            value: dec("1.20658"),
            resolution: dec("0.001"),
            uncert: Uncert::new(),
            unit: String::from("A"),
        }),
        Ok(String::from("1.207"))
    );
}

#[test]
fn std_dev_is_order_free() {
    let a = std_dev_from_line(String::from("~1.2~1.3~1.1~1.0~1.4")).unwrap();
    let b = std_dev_from_line(String::from("~1.4~1.0~1.1~1.3~1.2")).unwrap();
    assert_eq!(a, b);
}

#[test]
fn std_dev_needs_two_readings() {
    assert_eq!(std_dev_from_line(String::from("~1.5")), Err(ErrorKind::TooFewSamples));
    assert_eq!(std_dev_from_line(String::from("~")), Err(ErrorKind::BadNumber));
    assert_eq!(std_dev_from_line(String::from("~1~x")), Err(ErrorKind::BadNumber));
}

#[test]
fn decimal_forms() {
    assert_eq!(dec("-1.25"), Decimal { mantissa: -125, scale: 2 });
    assert_eq!(dec("2e-3"), Decimal { mantissa: 2, scale: 3 });
    assert_eq!(dec("1.5E2"), Decimal { mantissa: 150, scale: 0 });
    assert_eq!(dec("+.5"), Decimal { mantissa: 5, scale: 1 });
    assert_eq!(parse_decimal("1.2.3"), Err(ErrorKind::BadNumber));
    assert_eq!(parse_decimal(""), Err(ErrorKind::BadNumber));
    assert_eq!(parse_decimal("1e"), Err(ErrorKind::BadNumber));
}

#[test]
fn prefix_tables_agree() {
    assert_eq!(match_prefix(&'k'), Ok(3));
    assert_eq!(match_prefix(&'\u{b5}'), Ok(-6));
    assert_eq!(match_prefix(&'h'), Ok(2));
    assert_eq!(match_prefix(&'x'), Err(ErrorKind::BadPrefix));
    assert_eq!(match_magnitude(-1), Ok('d'));
    assert_eq!(match_magnitude(0), Ok(' '));
    assert_eq!(match_magnitude(4), Err(ErrorKind::BadMagnitude));
    for c in ['Y', 'Z', 'E', 'P', 'T', 'G', 'M', 'k', 'h', ' ', 'd', 'c', 'm', '\u{b5}', 'n', 'p', 'f', 'a', 'z', 'y'] {
        assert_eq!(match_magnitude(match_prefix(&c).unwrap()), Ok(c));
    }
}

#[test]
fn normalize_keeps_band_values() {
    assert_eq!(get_uncert_unit(root("47"), String::from("mA")), Ok((47, String::from("m"))));
    assert_eq!(get_uncert_unit(root("9904.6"), String::from("kV")), Ok((9905, String::from("k"))));
}

#[test]
fn normalize_guard_band() {
    assert_eq!(get_uncert_unit(root("9950"), String::from("V")), Ok((9950, String::from(" "))));
    assert_eq!(get_uncert_unit(root("10500"), String::from("V")), Ok((11, String::from("k"))));
    assert_eq!(get_uncert_unit(root("0.00999"), String::from("V")), Ok((9990, String::from("\u{b5}"))));
}

#[test]
fn normalize_out_of_table() {
    assert_eq!(get_uncert_unit(root("32"), String::from("YV")), Ok((32, String::from("Y"))));
    assert_eq!(get_uncert_unit(root("32000"), String::from("YV")), Err(ErrorKind::BadMagnitude));
}

#[test]
fn two_significant_figures() {
    assert_eq!(get_2_sig_fig(23, String::from("m")), Ok((String::from("23"), String::from("m"))));
    assert_eq!(get_2_sig_fig(1234, String::from("m")), Ok((String::from("1.2"), String::from(" "))));
    assert_eq!(get_2_sig_fig(123, String::from("\u{b5}")), Ok((String::from("0.12"), String::from("m"))));
    assert_eq!(get_2_sig_fig(123, String::from("Y")), Err(ErrorKind::BadMagnitude));
    assert_eq!(get_2_sig_fig(123, String::from("x")), Err(ErrorKind::BadPrefix));
    assert_eq!(get_2_sig_fig(10000, String::from("m")), Ok((String::from("10000"), String::from("m"))));
}

#[test]
fn central_value_padding() {
    let m = Measurement { value: dec("1.2"), resolution: dec("0.001"), uncert: Uncert::new(), unit: String::from("A") };
    assert_eq!(m.value_string(), Ok(String::from("1.200")));
    let m = Measurement { value: dec("-2.35"), resolution: dec("0.1"), uncert: Uncert::new(), unit: String::from("V") };
    assert_eq!(m.value_string(), Ok(String::from("-2.4")));
    let m = Measurement { value: dec("17.6"), resolution: dec("1"), uncert: Uncert::new(), unit: String::from("V") };
    assert_eq!(m.value_string(), Ok(String::from("18")));
}

#[test]
fn records_split() {
    let rows = get_measurement(String::from("!,1.2,0.1,A\r\n# note\n0.02,u,r,1,linearity\n"));
    assert_eq!(rows.len(), 3);
    assert_eq!(rows[0], row(&["!", "1.2", "0.1", "A"]));
    assert_eq!(rows[1], row(&["# note"]));
    assert_eq!(rows[2], row(&["0.02", "u", "r", "1", "linearity"]));
    assert_eq!(get_measurement(String::new()).len(), 0);
}

#[test]
fn component_row() {
    let c = prs_comp(row(&["0.02", "u", "r", "1", "linearity", "cert", "http://x"])).unwrap();
    assert_eq!(c.evaluation, Evaluation::B(dec("0.02")));
    assert_eq!(c.source, Source::UnitUnderTest);
    assert_eq!(c.distribution, Distribution::Rectangular);
    assert_eq!(c.sensitivity, 1);
    assert_eq!(c.description, "linearity");
    assert_eq!(c.ref_str, Some(String::from("cert")));
    assert_eq!(c.ref_url, Some(String::from("http://x")));
    assert_eq!(c.get_divisor(), 3);
    let a = prs_comp(row(&["~1~2~3", "s", "n2", "2", "repeats"])).unwrap();
    assert_eq!(a.evaluation, Evaluation::A(tenth_digits(10000000000)));
    assert_eq!(a.ref_str, None);
}

#[test]
fn component_row_errors() {
    assert_eq!(prs_comp(row(&["0.02", "x", "r", "1", "d"])).err(), Some(ErrorKind::BadSource));
    assert_eq!(prs_comp(row(&["0.02", "u", "w", "1", "d"])).err(), Some(ErrorKind::BadDistribution));
    assert_eq!(prs_comp(row(&["0.02", "u", "r", "-1", "d"])).err(), Some(ErrorKind::BadNumber));
    assert_eq!(prs_comp(row(&["0.02", "u", "r", "1"])).err(), Some(ErrorKind::MissingField));
    assert_eq!(prs_comp(row(&["~4", "u", "r", "1", "d"])).err(), Some(ErrorKind::TooFewSamples));
}

#[test]
fn header_row() {
    let m = get_meas(row(&["!", "1.2", "0.1", "A"])).unwrap();
    assert_eq!(m.value, dec("1.2"));
    assert_eq!(m.resolution, dec("0.1"));
    assert_eq!(m.unit, "A");
    assert_eq!(m.uncert.estimate, None);
    let m = get_meas(row(&["!", "1.2", "0.1", "A", "0.05", "mA"])).unwrap();
    assert_eq!(m.uncert.estimate, Some(dec("0.05")));
    assert_eq!(m.uncert.unit, Some(String::from("mA")));
    assert_eq!(get_meas(row(&["!", "1.2", "0", "A"])).err(), Some(ErrorKind::BadNumber));
    assert_eq!(get_meas(row(&["!", "1.2"])).err(), Some(ErrorKind::MissingField));
}

#[test]
fn combine_round_trip() {
    let mut u = Uncert::new();
    u.comps.push(prs_comp(row(&["0.02", "u", "r", "1", "linearity"])).unwrap());
    u.comps.push(prs_comp(row(&["0.3", "s", "n2", "1", "cal"])).unwrap());
    let e = u.rss().unwrap();
    // squares of standard uncertainties, 0.02^2 / 3 + 0.3^2 / 4, over 180 * 10^4
    assert_eq!(e.den, 1800000);
    assert_eq!(e.num, 4 * (4 * 60 + 900 * 45));
}

#[test]
fn end_to_end_report() {
    let m = Measurement::new(String::from("!,1.2,0.1,A\n0.02,u,r,1,linearity")).unwrap();
    assert_eq!(m.uncert.estimate, Some(Decimal { mantissa: 23, scale: 0 }));
    assert_eq!(m.uncert.unit, Some(String::from("m")));
    assert_eq!(m.printout(), Ok(String::from("1.2 A \u{b1}23 mA")));
}

#[test]
fn end_to_end_errors() {
    assert_eq!(Measurement::new(String::from("!,1.2,0.1,A\n*,x")).err(), Some(ErrorKind::BadLineStart));
    assert_eq!(Measurement::new(String::from("0.02,u,r,1,l")).err(), Some(ErrorKind::MissingHeader));
    assert_eq!(Measurement::new(String::from("!,1.2,0.1,A")).err(), Some(ErrorKind::ZeroUncertainty));
}

#[test]
fn out_of_range_quantities() {
    assert_eq!(Root::of_decimal(dec("1e30")).err(), Some(ErrorKind::OutOfRange));
    let m = Measurement {
        value: dec("123456789012345678901234567890123456"),
        resolution: dec("0.000001"),
        uncert: Uncert::new(),
        unit: String::from("V"),
    };
    assert_eq!(m.value_string(), Err(ErrorKind::OutOfRange));
}

#[test]
fn combine_order_free() {
    let rows = [
        row(&["0.02", "u", "r", "1", "linearity"]),
        row(&["0.3", "s", "n2", "2", "cal"]),
        row(&["~1.2~1.3~1.1", "m", "t", "1", "repeats"]),
    ];
    let mut a = Uncert::new();
    let mut b = Uncert::new();
    for r in rows.iter() {
        a.comps.push(prs_comp(r.clone()).unwrap());
    }
    for r in rows.iter().rev() {
        b.comps.push(prs_comp(r.clone()).unwrap());
    }
    assert_eq!(a.rss(), b.rss());
}

#[test]
fn central_value_double_rounding() {
    let at = |v: &str, r: &str| {
        Measurement { value: dec(v), resolution: dec(r), uncert: Uncert::new(), unit: String::from("A") }
            .value_string()
            .unwrap()
    };
    assert_eq!(at("1.20649", "0.001"), "1.206");
    assert_eq!(at("1.2065", "0.001"), "1.207");
    assert_eq!(at("2.45", "0.1"), "2.5");
    assert_eq!(at("-1.2065", "0.001"), "-1.207");
    assert_eq!(at("3.14159", "0.25"), "3.2");
}

#[test]
fn end_to_end_type_a() {
    let text = "# bench\n!,5.003,0.001,V\n~5.001~5.003~5.005,u,n1,1,repeats\n0.004,s,n2,1,cal\n";
    let m = Measurement::new(String::from(text)).unwrap();
    assert_eq!(m.value, dec("5.003"));
    assert_eq!(m.printout(), Ok(String::from("5.003 V \u{b1}5.6 mV")));
}
