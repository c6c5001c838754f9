use bmi_calc::bmi::{body_mass_index, report, Bmi};
use bmi_calc::category::{classify, Category};
use bmi_calc::measure::{parse_measure, Measure, ParseError};
use bmi_calc::reader::ask_question;

fn measure(text: &str) -> Measure {
    parse_measure(text).unwrap()
}

fn finite(negative: bool, mantissa: u64, exponent: i32) -> Measure {
    Measure::Finite { negative, mantissa, exponent }
}

fn band(weight: &str, height: &str) -> Category {
    classify(measure(weight), measure(height))
}

#[test]
fn boundary_25_is_overweight() {
    assert_eq!(band("25.0", "1.0"), Category::Overweight);
}

#[test]
fn boundary_30_is_obese() {
    assert_eq!(band("30.0", "1.0"), Category::Obese);
}

#[test]
fn boundary_18_5_is_normal() {
    assert_eq!(band("18.5", "1.0"), Category::Normal);
}

#[test]
fn just_below_18_5_is_underweight() {
    assert_eq!(band("18.49", "1.0"), Category::Underweight);
}

#[test]
fn just_below_25_and_30_stay_in_lower_band() {
    assert_eq!(band("24.999999999", "1.0"), Category::Normal);
    assert_eq!(band("29.999999999", "1.0"), Category::Overweight);
}

#[test]
fn end_to_end_normal_with_rounded_index() {
    let height = measure("1.8");
    let weight = measure("70");
    assert_eq!(classify(weight, height), Category::Normal);
    assert_eq!(
        body_mass_index(weight, height),
        Bmi::Finite { negative: false, hundredths: 2160 }
    );
    assert_eq!(Category::Normal.verdict(), "you are normal");
}

#[test]
fn reader_retries_after_bad_line() {
    let lines = vec!["abc".to_string(), "1.8".to_string()];
    let answer = ask_question(&lines).unwrap();
    assert_eq!(answer.rejected, vec![ParseError::Invalid]);
    assert_eq!(
        format!("{}, please try again.", answer.rejected[0].message()),
        "ParseFloatError { kind: Invalid }, please try again."
    );
    assert_eq!(answer.value, finite(false, 18, -1));
}

#[test]
fn reader_takes_first_good_line() {
    let lines = vec![" 70 ".to_string(), "80".to_string()];
    let answer = ask_question(&lines).unwrap();
    assert!(answer.rejected.is_empty());
    assert_eq!(answer.value, finite(false, 70, 0));
}

#[test]
fn reader_runs_out_of_input() {
    let lines = vec!["".to_string(), "x".to_string()];
    assert!(ask_question(&lines).is_none());
    assert!(ask_question(&Vec::new()).is_none());
}

#[test]
fn zero_height_is_obese() {
    let height = measure("0");
    let weight = measure("70");
    assert_eq!(classify(weight, height), Category::Obese);
    assert_eq!(body_mass_index(weight, height), Bmi::PositiveInfinity);
}

#[test]
fn zero_height_and_weight_is_not_a_number() {
    let zero = measure("0");
    assert_eq!(classify(zero, zero), Category::Underweight);
    assert_eq!(body_mass_index(zero, zero), Bmi::NotANumber);
    let negative = measure("-5");
    assert_eq!(classify(negative, zero), Category::Underweight);
    assert_eq!(body_mass_index(negative, zero), Bmi::NegativeInfinity);
}

#[test]
fn negative_weight_is_underweight() {
    let height = measure("1.8");
    let weight = measure("-70");
    assert_eq!(classify(weight, height), Category::Underweight);
    assert_eq!(
        body_mass_index(weight, height),
        Bmi::Finite { negative: true, hundredths: 2160 }
    );
}

#[test]
fn negative_height_squares_to_positive() {
    assert_eq!(band("70", "-1.8"), Category::Normal);
}

#[test]
fn every_positive_pair_gets_one_band_in_order() {
    let heights = ["1.0", "1.5", "1.8", "2.1"];
    let weights = ["10", "45", "60", "70", "85", "100", "150"];
    for h in heights {
        let mut last = 0u8;
        for w in weights {
            let c = band(w, h);
            assert!(c.rank() >= last);
            last = c.rank();
        }
    }
}

#[test]
fn classifying_twice_gives_the_same_band() {
    let w = measure("82.3");
    let h = measure("1.74");
    assert_eq!(classify(w, h), classify(w, h));
    assert_eq!(classify(w, h), Category::Overweight);
}

#[test]
fn index_rounds_half_away_from_zero() {
    let h = measure("1");
    assert_eq!(
        body_mass_index(measure("21.605"), h),
        Bmi::Finite { negative: false, hundredths: 2161 }
    );
    assert_eq!(
        body_mass_index(measure("21.604"), h),
        Bmi::Finite { negative: false, hundredths: 2160 }
    );
    assert_eq!(
        body_mass_index(measure("-0.001"), h),
        Bmi::Finite { negative: true, hundredths: 0 }
    );
}

#[test]
fn parses_decimal_forms() {
    assert_eq!(measure("1.8"), finite(false, 18, -1));
    assert_eq!(measure("  1.8\n"), finite(false, 18, -1));
    assert_eq!(measure("\u{a0}2\t"), finite(false, 2, 0));
    assert_eq!(measure("+.5"), finite(false, 5, -1));
    assert_eq!(measure("5."), finite(false, 5, 0));
    assert_eq!(measure("-2.25"), finite(true, 225, -2));
    assert_eq!(measure("007"), finite(false, 7, 0));
    assert_eq!(measure("0.000000001"), finite(false, 1, -9));
    assert_eq!(measure("999999.999999999"), finite(false, 999999999999999, -9));
}

#[test]
fn accepts_large_numbers() {
    assert_eq!(measure("1000000"), finite(false, 1000000, 0));
    assert_eq!(measure("1e6"), finite(false, 1, 6));
    assert_eq!(measure("3.4e38"), finite(false, 34, 37));
    assert_eq!(
        band("1000000", "1.8"),
        Category::Obese
    );
    assert_eq!(report(measure("1000000"), measure("1.8")), "BMI: 308641.98, according to these numbers, you are obese...");
}

#[test]
fn numbers_past_single_precision_read_as_infinity() {
    assert_eq!(measure("1e39"), Measure::PositiveInfinity);
    assert_eq!(measure("-3.5e38"), Measure::NegativeInfinity);
    assert_eq!(measure("1e99999999999999999999999999999999"), Measure::PositiveInfinity);
    assert_eq!(classify(measure("1e39"), measure("1.8")), Category::Obese);
}

#[test]
fn tiny_numbers_are_kept() {
    assert_eq!(measure("1e-10"), finite(false, 1, -10));
    assert_eq!(measure("0.0000000001"), finite(false, 1, -10));
    let written = format!("0.{}1234", "0".repeat(20));
    assert_eq!(measure(&written), finite(false, 1234, -24));
    assert_eq!(measure("1e-45"), finite(false, 1, -45));
    let tiny = measure("1e-10");
    assert_eq!(classify(tiny, tiny), Category::Obese);
    assert_eq!(
        body_mass_index(tiny, tiny),
        Bmi::Finite { negative: false, hundredths: 1000000000000 }
    );
    assert_eq!(report(tiny, tiny), "BMI: 10000000000.00, according to these numbers, you are obese...");
}

#[test]
fn numbers_below_half_the_least_single_read_as_zero() {
    assert_eq!(measure("1e-63"), finite(false, 0, 0));
    assert_eq!(measure("-1e-99999999999999999999999999999999"), finite(true, 0, 0));
}

#[test]
fn huge_index_is_shown_as_infinite() {
    assert_eq!(body_mass_index(measure("1e30"), measure("1e-10")), Bmi::PositiveInfinity);
    assert_eq!(body_mass_index(measure("-1e30"), measure("1e-10")), Bmi::NegativeInfinity);
}

#[test]
fn rejects_empty_input() {
    assert_eq!(parse_measure(""), Err(ParseError::Empty));
    assert_eq!(parse_measure(" \n"), Err(ParseError::Empty));
}

#[test]
fn rejects_text_that_is_not_a_number() {
    for text in [
        "abc", ".", "-", "+", "1.2.3", "1,5", "- 1", "1 2", "--1", "1e", "e5", ".e5", "1e+",
        "1e5.0", "infin", "nana", "+-inf",
    ] {
        assert_eq!(parse_measure(text), Err(ParseError::Invalid), "{text}");
    }
}

#[test]
fn rounds_to_seventeen_significant_digits() {
    assert_eq!(measure("1.23456789012345678"), finite(false, 12345678901234568, -16));
    assert_eq!(measure("1.0000000001"), finite(false, 10000000001, -10));
    assert_eq!(
        measure("123456789012345678901234567890"),
        finite(false, 12345678901234568, 13)
    );
    assert_eq!(measure("99999999999999999.5"), finite(false, 100000000000000000, 0));
}

#[test]
fn parses_exponents() {
    assert_eq!(measure("1e3"), finite(false, 1, 3));
    assert_eq!(measure("7E1"), finite(false, 7, 1));
    assert_eq!(measure("1.8e0"), finite(false, 18, -1));
    assert_eq!(measure("18e-1"), finite(false, 18, -1));
    assert_eq!(measure("1.e2"), finite(false, 1, 2));
    assert_eq!(measure(".5E+1"), finite(false, 5, 0));
    assert_eq!(measure("-2.5e-3"), finite(true, 25, -4));
    assert_eq!(measure("0e99999999999999999999999999999999"), finite(false, 0, 0));
    assert_eq!(band("7E1", "18e-1"), Category::Normal);
}

#[test]
fn parses_words_for_infinity_and_no_number() {
    assert_eq!(measure("inf"), Measure::PositiveInfinity);
    assert_eq!(measure("Infinity"), Measure::PositiveInfinity);
    assert_eq!(measure("+INF"), Measure::PositiveInfinity);
    assert_eq!(measure("-infinity"), Measure::NegativeInfinity);
    assert_eq!(measure("NaN"), Measure::NotANumber);
    assert_eq!(measure(" nan\n"), Measure::NotANumber);
}

#[test]
fn keeps_the_sign_of_zero() {
    assert_eq!(measure("-0"), finite(true, 0, 0));
    assert_eq!(
        report(measure("-0"), measure("1.8")),
        "BMI: -0.00, you are underweight"
    );
}

#[test]
fn infinite_and_missing_numbers_follow_floating_point() {
    let h = measure("1.8");
    assert_eq!(classify(measure("inf"), h), Category::Obese);
    assert_eq!(body_mass_index(measure("inf"), h), Bmi::PositiveInfinity);
    assert_eq!(body_mass_index(measure("-inf"), h), Bmi::NegativeInfinity);
    assert_eq!(classify(measure("-inf"), h), Category::Underweight);
    assert_eq!(classify(measure("70"), measure("inf")), Category::Underweight);
    assert_eq!(
        body_mass_index(measure("70"), measure("inf")),
        Bmi::Finite { negative: false, hundredths: 0 }
    );
    assert_eq!(body_mass_index(measure("inf"), measure("inf")), Bmi::NotANumber);
    assert_eq!(classify(measure("NaN"), h), Category::Underweight);
    assert_eq!(body_mass_index(measure("70"), measure("nan")), Bmi::NotANumber);
    assert_eq!(
        report(measure("70"), measure("NaN")),
        "BMI: NaN, you are underweight"
    );
    assert_eq!(
        report(measure("inf"), measure("0")),
        "BMI: inf, according to these numbers, you are obese..."
    );
}

#[test]
fn error_messages() {
    assert_eq!(ParseError::Empty.message(), "ParseFloatError { kind: Empty }");
    assert_eq!(ParseError::Invalid.message(), "ParseFloatError { kind: Invalid }");
}

#[test]
fn verdicts_and_ranks() {
    assert_eq!(Category::Underweight.verdict(), "you are underweight");
    assert_eq!(Category::Overweight.verdict(), "you are overweight...");
    assert_eq!(Category::Obese.verdict(), "according to these numbers, you are obese...");
    assert_eq!(Category::Underweight.rank(), 0);
    assert_eq!(Category::Obese.rank(), 3);
}

#[test]
fn measures_are_bounded() {
    assert_eq!(Measure::from_parts(false, 5, 0), Some(finite(false, 5, 0)));
    assert_eq!(Measure::from_parts(true, 34, 37), Some(finite(true, 34, 37)));
    assert_eq!(Measure::from_parts(false, 35, 37), None);
    assert_eq!(Measure::from_parts(false, 100000000000000001, 0), None);
    assert_eq!(Measure::from_parts(false, 1, -63), None);
    assert_eq!(Measure::from_parts(false, 1, 39), None);
    assert_eq!(Measure::from_parts(false, 1, -62), Some(finite(false, 1, -62)));
}

#[test]
fn extreme_measures_do_not_overflow() {
    let big = measure("999999.999999999");
    let tiny = measure("0.000000001");
    assert_eq!(classify(big, tiny), Category::Obese);
    assert_eq!(classify(tiny, big), Category::Underweight);
    assert!(matches!(body_mass_index(big, tiny), Bmi::Finite { negative: false, .. }));
}

#[test]
fn report_for_end_to_end_scenario() {
    assert_eq!(report(measure("70"), measure("1.8")), "BMI: 21.60, you are normal");
}

#[test]
fn report_for_zero_height() {
    assert_eq!(
        report(measure("70"), measure("0")),
        "BMI: inf, according to these numbers, you are obese..."
    );
}

#[test]
fn index_texts() {
    assert_eq!(Bmi::Finite { negative: false, hundredths: 2160 }.text(), "21.60");
    assert_eq!(Bmi::Finite { negative: false, hundredths: 5 }.text(), "0.05");
    assert_eq!(Bmi::Finite { negative: false, hundredths: 123456 }.text(), "1234.56");
    assert_eq!(Bmi::Finite { negative: true, hundredths: 0 }.text(), "-0.00");
    assert_eq!(Bmi::PositiveInfinity.text(), "inf");
    assert_eq!(Bmi::NegativeInfinity.text(), "-inf");
    assert_eq!(Bmi::NotANumber.text(), "NaN");
}
