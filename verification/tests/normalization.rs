use dsnval::errors::DateField;
use dsnval::errors::PipelineError;
use dsnval::normalize::convert_month_to_number;
use dsnval::normalize::parse_day;
use dsnval::normalize::parse_year;
use dsnval::normalize::parse_version_info;
use dsnval::normalize::tokenize;

const URL: &str = "https://example.test/tool.zip";

#[test]
fn month_table_maps_all_twelve() {
    let table = [
        ("janvier", 1u8),
        ("février", 2),
        ("mars", 3),
        ("avril", 4),
        ("mai", 5),
        ("juin", 6),
        ("juillet", 7),
        ("août", 8),
        ("septembre", 9),
        ("octobre", 10),
        ("novembre", 11),
        ("décembre", 12),
    ];
    for (name, number) in table {
        assert_eq!(convert_month_to_number(name), Some(number));
    }
}

#[test]
fn unknown_month_name_maps_to_none() {
    assert_eq!(convert_month_to_number("march"), None);
    assert_eq!(convert_month_to_number("Janvier"), None);
    assert_eq!(convert_month_to_number(""), None);
}

#[test]
fn tokenize_splits_on_whitespace() {
    let toks = tokenize("  Version 2024.1\t42  du\n15 mars 2024 ");
    assert_eq!(
        toks,
        vec![
            "Version".to_string(),
            "2024.1".to_string(),
            "42".to_string(),
            "du".to_string(),
            "15".to_string(),
            "mars".to_string(),
            "2024".to_string(),
        ]
    );
}

#[test]
fn reference_caption_normalizes() {
    let rec = parse_version_info("Version 2024.1 42 du 15 mars 2024", URL, true).unwrap();
    assert_eq!(rec.version, "42");
    assert_eq!(rec.date_string(), "2024-03-15");
    assert_eq!(rec.url, URL);
}

#[test]
fn six_token_caption_normalizes() {
    let rec = parse_version_info("Version 2024.1.1.20 du 7 janvier 2024", URL, true).unwrap();
    assert_eq!(rec.version, "2024.1.1.20");
    assert_eq!(rec.date_string(), "2024-01-07");
}

#[test]
fn day_out_of_range_fails_validation() {
    let r = parse_version_info("Version 2024.1 42 du 32 mars 2024", URL, true);
    assert_eq!(r.unwrap_err(), PipelineError::Validation { field: DateField::Day });
}

#[test]
fn day_zero_fails_validation() {
    let r = parse_version_info("Version 2024.1 42 du 0 mars 2024", URL, true);
    assert_eq!(r.unwrap_err(), PipelineError::Validation { field: DateField::Day });
}

#[test]
fn two_digit_year_fails_validation() {
    let r = parse_version_info("Version 2024.1 42 du 15 mars 24", URL, true);
    assert_eq!(r.unwrap_err(), PipelineError::Validation { field: DateField::Year });
}

#[test]
fn non_numeric_year_fails_validation() {
    let r = parse_version_info("Version 2024.1 42 du 15 mars 2o24", URL, true);
    assert_eq!(r.unwrap_err(), PipelineError::Validation { field: DateField::Year });
}

#[test]
fn short_caption_fails_parse() {
    let r = parse_version_info("Version 2024.1 du 2024", URL, true);
    assert_eq!(r.unwrap_err(), PipelineError::Parse);
}

#[test]
fn unknown_month_strict_fails() {
    let r = parse_version_info("Version 2024.1 42 du 15 march 2024", URL, true);
    assert_eq!(r.unwrap_err(), PipelineError::UnknownMonth);
}

#[test]
fn unknown_month_lenient_resolves_to_january() {
    let rec = parse_version_info("Version 2024.1 42 du 15 march 2024", URL, false).unwrap();
    assert_eq!(rec.date_string(), "2024-01-15");
}

#[test]
fn normalization_is_idempotent() {
    let caption = "Version 2024.1 42 du 15 mars 2024";
    let first = parse_version_info(caption, URL, true).unwrap();
    let second = parse_version_info(caption, URL, true).unwrap();
    assert_eq!(first, second);
}

#[test]
fn day_parsing_accepts_exact_range() {
    assert_eq!(parse_day("1"), Some(1));
    assert_eq!(parse_day("31"), Some(31));
    assert_eq!(parse_day("07"), Some(7));
    assert_eq!(parse_day("32"), None);
    assert_eq!(parse_day("0"), None);
    assert_eq!(parse_day(""), None);
    assert_eq!(parse_day("1x"), None);
    assert_eq!(parse_day("999999999999999999999"), None);
}

#[test]
fn year_parsing_requires_four_digits() {
    assert_eq!(parse_year("2024"), Some(2024));
    assert_eq!(parse_year("0001"), Some(1));
    assert_eq!(parse_year("24"), None);
    assert_eq!(parse_year("20245"), None);
    assert_eq!(parse_year("2o24"), None);
}

#[test]
fn day_with_zero_padding_renders_padded() {
    let rec = parse_version_info("Version 2024.1 42 du 5 août 2024", URL, true).unwrap();
    assert_eq!(rec.date_string(), "2024-08-05");
}
