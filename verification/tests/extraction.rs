use dsnval::errors::PipelineError;
use dsnval::extract::extract_blocks;
use dsnval::extract::get_all_links;
use dsnval::extract::get_all_versions;

#[test]
fn no_blocks_yields_empty_lists() {
    let doc = "<html><body><p>nothing emphasized here</p></body></html>";
    assert_eq!(get_all_versions(doc).len(), 0);
    assert_eq!(get_all_links(doc).len(), 0);
    let blocks = extract_blocks(doc).unwrap();
    assert_eq!(blocks.len(), 0);
}

#[test]
fn one_block_extracted() {
    let doc = "<p>intro</p>\
        <strong> Version 2024.1 42 du 15 mars 2024 </strong>\
        <strong><a href=\"https://example.test/tool.zip\">download</a></strong>";
    let versions = get_all_versions(doc);
    assert_eq!(versions, vec!["Version 2024.1 42 du 15 mars 2024".to_string()]);
    let links = get_all_links(doc);
    assert_eq!(links, vec!["https://example.test/tool.zip".to_string()]);
    let blocks = extract_blocks(doc).unwrap();
    assert_eq!(blocks.len(), 1);
    assert_eq!(blocks[0].caption, "Version 2024.1 42 du 15 mars 2024");
    assert_eq!(blocks[0].url, "https://example.test/tool.zip");
}

#[test]
fn three_blocks_in_document_order() {
    let doc = "<strong>Version 2022.1 7 du 3 janvier 2022</strong>\
        <strong><a href=\"a.zip\">a</a></strong>\
        <em>noise</em>\
        <strong>Version 2023.1 8 du 4 juin 2023</strong>\
        <strong><a href=\"b.exe\">b</a></strong>\
        <strong>Version 2024.1 9 du 5 mai 2024</strong>\
        <strong><a href=\"c.msi\">c</a></strong>";
    let versions = get_all_versions(doc);
    assert_eq!(
        versions,
        vec![
            "Version 2022.1 7 du 3 janvier 2022".to_string(),
            "Version 2023.1 8 du 4 juin 2023".to_string(),
            "Version 2024.1 9 du 5 mai 2024".to_string(),
        ]
    );
    let links = get_all_links(doc);
    assert_eq!(links, vec!["a.zip".to_string(), "b.exe".to_string(), "c.msi".to_string()]);
}

#[test]
fn caption_without_version_keyword_is_ignored() {
    let doc = "<strong>some bold words 2024 1234</strong>";
    assert_eq!(get_all_versions(doc).len(), 0);
}

#[test]
fn caption_without_second_year_is_ignored() {
    let doc = "<strong>Version 2024</strong>";
    assert_eq!(get_all_versions(doc).len(), 0);
}

#[test]
fn link_with_disallowed_extension_is_ignored() {
    let doc = "<strong><a href=\"https://example.test/notes.pdf\">doc</a></strong>";
    assert_eq!(get_all_links(doc).len(), 0);
}

#[test]
fn second_href_in_block_can_match() {
    let doc = "<strong><a href=\"x.html\">page</a> <a href=\"x.zip\">zip</a></strong>";
    assert_eq!(get_all_links(doc), vec!["x.zip".to_string()]);
}

#[test]
fn mismatched_counts_fail_with_mismatch_error() {
    let doc = "<strong>Version 2023.1 8 du 4 juin 2023</strong>\
        <strong>Version 2024.1 9 du 5 mai 2024</strong>\
        <strong><a href=\"only.zip\">one</a></strong>";
    let r = extract_blocks(doc);
    assert_eq!(r.unwrap_err(), PipelineError::Mismatch { links: 1, captions: 2 });
}

#[test]
fn strong_tag_with_attributes_is_scanned() {
    let doc = "<strong class=\"title\">Version 2024.1 10 du 2 avril 2024</strong>\
        <strong id=\"x\"><a href=\"y.zip\">y</a></strong>";
    assert_eq!(get_all_versions(doc), vec!["Version 2024.1 10 du 2 avril 2024".to_string()]);
    assert_eq!(get_all_links(doc), vec!["y.zip".to_string()]);
}

#[test]
fn caption_whitespace_is_trimmed() {
    let doc = "<strong>\n\t Version 2024.1 11 du 6 juillet 2024 \n</strong>";
    assert_eq!(get_all_versions(doc), vec!["Version 2024.1 11 du 6 juillet 2024".to_string()]);
}
