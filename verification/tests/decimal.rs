use raytracer::scalar::Scalar;

fn parse(text: &str) -> Option<f64> {
    Scalar::parse(&text.as_bytes().to_vec()).map(|v| f64::from_bits(v.to_bits()))
}

fn same(text: &str) {
    let want: f64 = text.parse().unwrap();
    let got = parse(text).unwrap();
    assert!(got.to_bits() == want.to_bits() || (got.is_nan() && want.is_nan()), "{}", text);
}

struct Lcg {
    state: u64,
}

impl Lcg {
    fn next(&mut self) -> u64 {
        self.state = self.state.wrapping_mul(6364136223846793005).wrapping_add(1442695040888963407);
        self.state >> 11
    }
}

#[test]
fn numbers_are_read_as_the_standard_library_reads_them() {
    for text in [
        "0", "-0", "+0", "1", "-1", "+5", ".5", "5.", "0.5", "1.2", "3.4", "5.6", "0.8", "0.1", "2.8",
        "-0.5", "0.3", "0.6", "1e5", "1E-5", "1e+5", "12.5e-3", "00012.500", "1e19", "1e-21",
        "9999999999999999999", "0.000000000000000000001", "123456789012345678", "1.7976931348623157",
        "4.9e-20", "2.2250738585072014", "0.1e1", "100", "255", "3.141592653589793", "6.02214076e19",
        "inf", "-inf", "+inf", "Infinity", "INFINITY", "-infinity", "nan", "NaN", "-nan", "0e999",
        "0.0e-999", "9007199254740993", "9007199254740992", "0.30000000000000004",
    ] {
        same(text);
    }
    assert_eq!(parse("12e19"), Some(1.2e20));
    assert_eq!(parse("-0").unwrap().to_bits(), (-0.0f64).to_bits());
}

#[test]
fn what_is_no_number_is_refused() {
    for text in [
        "", "+", "-", ".", "e5", "1e", "1e+", "1.2.3", "0x10", " 1", "1 ", "1_0", "one", "1f", "--1",
        "+-1", "1e5.", "1e5e5", "in", "infinit", "infinityy", "na", "nann", "1,5", "\u{661}",
    ] {
        assert_eq!(parse(text), None, "{:?}", text);
        assert!(text.parse::<f64>().is_err(), "{:?}", text);
    }
}

#[test]
fn numbers_of_any_size_are_read() {
    for text in [
        "10000000000000000000",
        "1.0000000000000000000",
        "1e20",
        "1e-22",
        "1e-30",
        "0.0000000000000000000001",
        "12e19",
        "1e400",
        "1e-400",
        "1e308",
        "1e309",
        "1.7976931348623157e308",
        "1.7976931348623158e308",
        "1.7976931348623159e308",
        "179769313486231580793728971405303415079934132710037826936173778980444968292764750946649017977587207096330286416692887910946555547851940402630657488671505820681908902000708383676273854845817711531764475730270069855571366959622842914819860834936475292719074168444365510704342711559699508093042880177904174497791.9999999999999999999999",
        "4.9e-324",
        "5e-324",
        "2.4703282292062327e-324",
        "2.4703282292062328e-324",
        "2.2250738585072014e-308",
        "2.2250738585072011e-308",
        "123456789012345678901234567890",
        "0.1234567890123456789012345678901234567890",
        "9007199254740993",
        "9007199254740993.0000000000000000000000000000000000000001",
        "9007199254740992.9999999999999999999999999999999999999999",
        "1e99999999999999999999",
        "1e-99999999999999999999",
        "-1e99999999999999999999",
        "0e99999999999999999999",
        "0.00000000000000000000000000000000000000000000000000000000000000000",
        "0.000000000000000000000000000000000000000000000000000000000000000001",
        "100000000000000000000000000000000000000000000000000000000000000000000e-60",
        "6.02214076e23",
        "6.62607015e-34",
        "1e23",
        "8.5e22",
        "7.2057594037927933e16",
    ] {
        same(text);
    }
    let mut long = String::from("0.");
    for k in 0..2000 {
        long.push(char::from(b'0' + (k % 10) as u8));
    }
    same(&long);
    let mut zeros = String::from("1");
    for _ in 0..500 {
        zeros.push('0');
    }
    same(&zeros);
    zeros.push_str("e-480");
    same(&zeros);
}

#[test]
fn a_text_beyond_the_length_that_is_read_is_refused() {
    let mut text = String::from("1.");
    for _ in 0..(1 << 16) {
        text.push('0');
    }
    assert_eq!(parse(&text), None);
    assert!(text.parse::<f64>().is_ok());
}

#[test]
fn random_numbers_are_read_as_the_standard_library_reads_them() {
    let mut g = Lcg { state: 9 };
    for _ in 0..3000 {
        let whole = g.next() % 100000;
        let digits = (g.next() % 13) as usize;
        let fraction = g.next() % 10u64.pow(digits as u32);
        let sign = if g.next() % 2 == 0 { "" } else { "-" };
        let plain = format!("{}{}.{:0width$}", sign, whole, fraction, width = digits);
        same(&plain);
        let power = (g.next() % 17) as i64 - 8;
        same(&format!("{}e{}", plain, power));
        let value = (g.next() as f64 / 9007199254740992.0 - 0.5) * 2000.0;
        same(&format!("{}", value));
        same(&format!("{:e}", value));
        let any = f64::from_bits(g.next() << 11 | g.next() >> 42);
        if any.is_finite() {
            same(&format!("{:e}", any));
            same(&format!("{:.25e}", any));
            let far = (g.next() % 700) as i64 - 350;
            same(&format!("{}e{}", plain, far));
        }
    }
}
