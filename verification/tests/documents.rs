//! Tests of document ownership, file-type routing, and the edit applier.

use uvls::document::{is_config, ContentChange, DocumentState, Draft};
use uvls::lsp::{Position, Range};

fn text_of(d: &Draft) -> String {
    d.source_chars().into_iter().collect()
}

fn change(sr: u32, sc: u32, er: u32, ec: u32, text: &str) -> ContentChange {
    ContentChange {
        range: Some(Range {
            start: Position { line: sr, character: sc },
            end: Position { line: er, character: ec },
        }),
        text: text.to_string(),
    }
}

#[test]
fn ownership_rules() {
    let editor = DocumentState::OwnedByEditor;
    let os1 = DocumentState::OwnedByOs(100);
    let os2 = DocumentState::OwnedByOs(200);
    assert!(editor.can_update(&editor));
    assert!(os1.can_update(&editor));
    assert!(!editor.can_update(&os2));
    assert!(os1.can_update(&os2));
    assert!(!os2.can_update(&os1));
    assert!(!os1.can_update(&DocumentState::OwnedByOs(100)));
}

#[test]
fn config_routing() {
    assert!(is_config("file:///work/model.json"));
    assert!(is_config(".json"));
    assert!(!is_config("file:///work/model.uvl"));
    assert!(!is_config("json"));
    assert!(!is_config(""));
}

#[test]
fn draft_kind_fixed_by_uri() {
    let d = Draft::open("file:///a/x.json", "{}", 1);
    assert!(matches!(d, Draft::JSON { .. }));
    let d = Draft::open("file:///a/x.uvl", "features", 1);
    assert!(matches!(d, Draft::UVL { .. }));
}

#[test]
fn draft_idempotent_under_no_ops() {
    // P6: an update without changes publishes the same content as the
    // plain open, timestamps aside.
    let base = Draft::open("a.uvl", "features\n  A", 1);
    let mut touched = Draft::open("a.uvl", "features\n  A", 1);
    let whole = touched.update(&Vec::new(), 2);
    assert!(!whole);
    assert_eq!(text_of(&touched), text_of(&base));
    assert_eq!(touched.timestamp(), 2);
}

#[test]
fn insert_in_place() {
    let mut d = Draft::open("a.uvl", "ab\ncd", 1);
    let whole = d.update(&vec![change(1, 1, 1, 1, "X")], 2);
    assert!(!whole);
    assert_eq!(text_of(&d), "ab\ncXd");
}

#[test]
fn delete_across_rows() {
    let mut d = Draft::open("a.uvl", "ab\ncd", 1);
    d.update(&vec![change(0, 0, 1, 1, "")], 2);
    assert_eq!(text_of(&d), "d");
}

#[test]
fn whole_file_replacement() {
    let mut d = Draft::open("a.uvl", "old", 1);
    let whole = d.update(
        &vec![ContentChange { range: None, text: "new text".to_string() }],
        2,
    );
    assert!(whole);
    assert_eq!(text_of(&d), "new text");
}

#[test]
fn invalid_range_ignored() {
    let mut d = Draft::open("a.uvl", "ab", 1);
    d.update(&vec![change(5, 0, 5, 1, "X")], 2);
    assert_eq!(text_of(&d), "ab");
}

#[test]
fn splice_after_wide_char() {
    // UTF-16 column 2 of "a☃b" sits after the snowman: one unit each.
    let mut d = Draft::open("a.uvl", "a\u{2603}b", 1);
    d.update(&vec![change(0, 2, 0, 2, "X")], 2);
    assert_eq!(text_of(&d), "a\u{2603}Xb");
}

#[test]
fn splice_after_surrogate_pair() {
    // The emoji takes two UTF-16 units: the column after it is 3.
    let mut d = Draft::open("a.uvl", "a\u{1F600}b", 1);
    d.update(&vec![change(0, 3, 0, 3, "X")], 2);
    assert_eq!(text_of(&d), "a\u{1F600}Xb");
}

#[test]
fn mid_surrogate_position_ignored() {
    // Column 2 of "a😀b" falls inside the surrogate pair: no boundary,
    // so the change does not apply.
    let mut d = Draft::open("a.uvl", "a\u{1F600}b", 1);
    d.update(&vec![change(0, 2, 0, 2, "X")], 2);
    assert_eq!(text_of(&d), "a\u{1F600}b");
}

#[test]
fn changes_apply_in_order() {
    let mut d = Draft::open("a.uvl", "abc", 1);
    d.update(&vec![change(0, 1, 0, 2, "XY"), change(0, 0, 0, 1, "")], 2);
    assert_eq!(text_of(&d), "XYc");
}

#[test]
fn snapshot_is_an_exact_copy() {
    let mut d = Draft::open("a.uvl", "features\n  A", 1);
    let snap = d.snapshot();
    assert_eq!(text_of(&snap), "features\n  A");
    assert_eq!(snap.timestamp(), 1);
    // the copy is independent of later edits
    d.update(&vec![change(0, 0, 0, 8, "x")], 2);
    assert_eq!(text_of(&d), "x\n  A");
    assert_eq!(text_of(&snap), "features\n  A");
}

#[test]
fn empty_document_updates() {
    let mut d = Draft::open("a.uvl", "", 1);
    assert_eq!(text_of(&d), "");
    d.update(&vec![change(0, 0, 0, 0, "hi")], 2);
    assert_eq!(text_of(&d), "hi");
}
