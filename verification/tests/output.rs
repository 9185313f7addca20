use dsnval::errors::PipelineError;
use dsnval::get_info;
use dsnval::jsonout::record_json;
use dsnval::jsonout::records_json;
use dsnval::normalize::parse_version_info;
use dsnval::run_pipeline;
use dsnval::PipelineConfig;
use dsnval::SelectionPolicy;

const DOC: &str = "<p>history</p>\
    <strong> Version 2024.1 42 du 15 mars 2024 </strong>\
    <strong><a href=\"https://example.test/tool.zip\">download</a></strong>";

fn all_strict() -> PipelineConfig {
    PipelineConfig { strict_months: true, policy: SelectionPolicy::All }
}

fn latest_strict() -> PipelineConfig {
    PipelineConfig { strict_months: true, policy: SelectionPolicy::Latest }
}

#[test]
fn reference_document_produces_reference_record() {
    let out = get_info(DOC, latest_strict()).unwrap();
    assert_eq!(
        out,
        "{\"version\":\"42\",\"date\":\"2024-03-15\",\"url\":\"https://example.test/tool.zip\"}"
    );
}

#[test]
fn all_policy_emits_an_array() {
    let out = get_info(DOC, all_strict()).unwrap();
    assert_eq!(
        out,
        "[{\"version\":\"42\",\"date\":\"2024-03-15\",\"url\":\"https://example.test/tool.zip\"}]"
    );
}

#[test]
fn empty_document_is_an_empty_array() {
    let out = get_info("<p>nothing</p>", all_strict()).unwrap();
    assert_eq!(out, "[]");
}

#[test]
fn latest_policy_on_empty_document_fails() {
    let r = get_info("<p>nothing</p>", latest_strict());
    assert_eq!(r.unwrap_err(), PipelineError::Parse);
}

#[test]
fn latest_policy_selects_last_in_document_order() {
    let doc = "<strong>Version 2023.1 7 du 3 janvier 2023</strong>\
        <strong><a href=\"old.zip\">old</a></strong>\
        <strong>Version 2024.1 8 du 4 juin 2024</strong>\
        <strong><a href=\"new.zip\">new</a></strong>";
    let out = get_info(doc, latest_strict()).unwrap();
    assert_eq!(out, "{\"version\":\"8\",\"date\":\"2024-06-04\",\"url\":\"new.zip\"}");
}

#[test]
fn pipeline_propagates_mismatch_without_records() {
    let doc = "<strong>Version 2023.1 7 du 3 janvier 2023</strong>\
        <strong>Version 2024.1 8 du 4 juin 2024</strong>\
        <strong><a href=\"one.zip\">one</a></strong>";
    let r = run_pipeline(doc, true);
    assert_eq!(r.unwrap_err(), PipelineError::Mismatch { links: 1, captions: 2 });
}

#[test]
fn pipeline_propagates_normalizer_failure() {
    let doc = "<strong>Version 2024.1 42 du 32 mars 2024</strong>\
        <strong><a href=\"x.zip\">x</a></strong>";
    let r = get_info(doc, all_strict());
    assert!(matches!(r, Err(PipelineError::Validation { .. })));
}

#[test]
fn record_json_escapes_quotes_and_backslashes() {
    let rec = parse_version_info("Version 2024.1 a\"b du 5 mai 2024", "dir\\tool.zip", true)
        .unwrap();
    let out = record_json(&rec);
    assert_eq!(
        out,
        "{\"version\":\"a\\\"b\",\"date\":\"2024-05-05\",\"url\":\"dir\\\\tool.zip\"}"
    );
}

#[test]
fn records_json_joins_with_commas() {
    let a = parse_version_info("Version 2023.1 7 du 3 janvier 2023", "a.zip", true).unwrap();
    let b = parse_version_info("Version 2024.1 8 du 4 juin 2024", "b.zip", true).unwrap();
    let out = records_json(&vec![a, b]);
    assert_eq!(
        out,
        "[{\"version\":\"7\",\"date\":\"2023-01-03\",\"url\":\"a.zip\"},\
         {\"version\":\"8\",\"date\":\"2024-06-04\",\"url\":\"b.zip\"}]"
    );
}

#[test]
fn run_pipeline_returns_structured_records() {
    let recs = run_pipeline(DOC, true).unwrap();
    assert_eq!(recs.len(), 1);
    assert_eq!(recs[0].version, "42");
    assert_eq!(recs[0].year, 2024);
    assert_eq!(recs[0].month, 3);
    assert_eq!(recs[0].day, 15);
    assert_eq!(recs[0].url, "https://example.test/tool.zip");
}
