use fast_csv::number::{reads_as_finite_number, reads_as_number};
use fast_csv::text::{
    chars_of, copy_range, decode_field, find, is_white_space, push_decimal, replace, same_text,
    stands_at, string_of, trim_chars, trim_text,
};

fn number(s: &str) -> bool {
    reads_as_number(&chars_of(s))
}

fn finite(s: &str) -> bool {
    reads_as_finite_number(&chars_of(s))
}

#[test]
fn white_space_is_that_of_std() {
    for code in 0u32..=0x10ffff {
        if let Some(c) = char::from_u32(code) {
            assert_eq!(is_white_space(c), c.is_whitespace(), "{:x}", code);
        }
    }
}

#[test]
fn trimming_is_that_of_std() {
    for s in ["", " ", "\t\n", " a ", "a", "\u{3000}a b\u{a0}", "\u{200b}a", "  x\u{85}", "\u{1}a\u{1}"] {
        assert_eq!(trim_text(s), s.trim());
        assert_eq!(string_of(&trim_chars(s)), s.trim());
    }
}

#[test]
fn valid_bytes_are_decoded() {
    assert_eq!(decode_field("häuser €".as_bytes()), "häuser €");
    assert_eq!(decode_field(b""), "");
}

#[test]
fn invalid_bytes_read_as_nothing() {
    assert_eq!(decode_field(&[0x61, 0xff, 0x62]), "");
    assert_eq!(decode_field(&[0xc3]), "");
    assert_eq!(decode_field(&[0xed, 0xa0, 0x80]), "");
}

#[test]
fn characters_and_strings_convert() {
    assert_eq!(chars_of("aé€"), vec!['a', 'é', '€']);
    assert_eq!(string_of(&vec!['a', 'é', '€']), "aé€");
    assert_eq!(string_of(&Vec::new()), "");
}

#[test]
fn texts_are_compared() {
    assert!(same_text("ab", "ab"));
    assert!(!same_text("ab", "abc"));
    assert!(!same_text("ab", "aB"));
    assert!(same_text("", ""));
}

#[test]
fn patterns_are_found() {
    let s = chars_of("abcabc");
    let bc = chars_of("bc");
    assert!(stands_at(&s, &bc, 1));
    assert!(!stands_at(&s, &bc, 2));
    assert!(!stands_at(&s, &bc, 5));
    assert_eq!(find(&s, &bc, 0), Some(1));
    assert_eq!(find(&s, &bc, 2), Some(4));
    assert_eq!(find(&s, &bc, 5), None);
    assert_eq!(copy_range(&s, 1, 4), chars_of("bca"));
}

#[test]
fn replacing_is_that_of_std() {
    for s in ["", "aa", "aaa", "&amp;lt;", "&lt;&lt;", "x&gt;y", "&&amp;amp;"] {
        for (pat, to) in [("aa", "b"), ("&amp;", "&"), ("&lt;", "<"), ("&gt;", ">")] {
            assert_eq!(string_of(&replace(&chars_of(s), pat, to)), s.replace(pat, to));
        }
    }
}

#[test]
fn decimal_numerals_are_those_of_std() {
    for n in [0usize, 1, 9, 10, 99, 100, 1_048_576, usize::MAX] {
        let mut out = String::from("n=");
        push_decimal(&mut out, n);
        assert_eq!(out, format!("n={}", n));
    }
}

#[test]
fn numbers_are_those_that_std_parses() {
    let texts = [
        "", "0", "1", "-1", "+1", "1.", ".5", ".", "-", "+", "-.", "1.5", "01", "1e5", "1E5", "1e+5",
        "1e-5", "1e", "1e+", "e5", ".e5", "1.e5", ".5e5", "1e5.0", "1_000", "1,5", " 1", "1 ", "0x10",
        "inf", "Inf", "INF", "+inf", "-inf", "infinity", "Infinity", "INFINITY", "infinit", "nan",
        "NaN", "-nan", "+NaN", "nanx", "--1", "+-1", "1-", "١", "1e999", "-1e999", "1e-999", "00.00",
        "1e0000000000000000000000000000005", "é", "1é", "1f", "1d", "abc",
    ];
    for s in texts {
        assert_eq!(number(s), s.parse::<f64>().is_ok(), "{:?}", s);
    }
}

#[test]
fn finite_numbers_are_those_of_std() {
    let long = format!("0.{}1e400", "0".repeat(395));
    let wide = "9".repeat(308);
    let wider = "9".repeat(309);
    let zeros = format!("{}1", "0".repeat(400));
    let texts = [
        "0", "1", "-1.5", "1e308", "1e309", "-1e309", "1.7976931348623157e308",
        "1.7976931348623158e308", "1.7976931348623159e308", "1.797693134862315807e308",
        "1.797693134862315808e308", "179769313486231580793e288", "179769313486231580794e288",
        "17976931348623158079372897140530341507993413271003782693617377898044496829276475094664901797758720709633028641669288791094655554785194040263065748867150582068190890200070838367627385484581771153176447573027006985557136695962284291481986083493647529271907416844436551070434271155969950809304288017790417449779",
        "1797693134862315807937289714053034150799341327100378269361737789804449682927647509466490179775872070963302864166928879109465555478519404026306574886715058206819089020007083836762738548458177115317644757302700698555713669596228429148198608349364752927190741684443655107043427115596995080930428801779041744977910e-1",
        "179769313486231580793728971405303415079934132710037826936173778980444968292764750946649017977587207096330286416692887910946555547851940402630657488671505820681908902000708383676273854845817711531764475730270069855571366959622842914819860834936475292719074168444365510704342711559699508093042880177904174497791",
        "179769313486231580793728971405303415079934132710037826936173778980444968292764750946649017977587207096330286416692887910946555547851940402630657488671505820681908902000708383676273854845817711531764475730270069855571366959622842914819860834936475292719074168444365510704342711559699508093042880177904174497792",
        "179769313486231580793728971405303415079934132710037826936173778980444968292764750946649017977587207096330286416692887910946555547851940402630657488671505820681908902000708383676273854845817711531764475730270069855571366959622842914819860834936475292719074168444365510704342711559699508093042880177904174497791.999",
        "1e99999999999999999999", "1e-99999999999999999999", "0e99999999999999999999",
        "0.0e99999999999999999999", "inf", "-Infinity", "NaN", "", "abc", "1e", "10e307", "0.1e309",
        "0.01e310", "0.17976931348623159e309", &long, &wide, &wider, &zeros,
    ];
    for s in texts {
        let expected = match s.parse::<f64>() {
            Ok(n) => n.is_finite(),
            Err(_) => false,
        };
        assert_eq!(finite(s), expected, "{:?}", s);
    }
}

#[test]
fn huge_exponents_meet_long_fractions() {
    let s = format!("0.{}1e{}", "0".repeat(1000), 1001);
    assert_eq!(s.parse::<f64>().unwrap(), 1.0);
    assert!(finite(&s));
    let s = format!("1{}e-{}", "0".repeat(1000), 1000);
    assert!(finite(&s));
    let s = format!("1{}e-{}", "0".repeat(1000), 600);
    assert!(s.parse::<f64>().unwrap().is_infinite());
    assert!(!finite(&s));
}
