use redai::coder::Coder;
use redai::edits::{Edit, EditKind};
use redai::error::{Error, PatchToken};
use redai::project::{compute_changed_ranges_normalized, ChangedRange, ChangedRangeKind};
use redai::prompts::ctoken;

#[test]
fn test_build_context_basic() {
    let code = "fn main() {\n    for i in 0..5 {\n        println!(\"Current value: {}\", );\n    }\n}\n        ";

    let cursor = 70;

    let coder = Coder::new();

    let context = coder.build_context(&code, cursor, 1).unwrap();

    println!("context:\n {:?}", context);

    assert!(context.0.contains(ctoken()));
    assert!(context.1 == 12);
}

#[test]
fn test_parse_patch() {
    let coder = Coder::new();

    let patch = "<|SEARCH|>let <|cursor|> = 10;<|DIVIDE|>let x = 10;<|REPLACE|>";
    let start_pos = 0;

    let parsed = coder.parse_patch(patch, start_pos).unwrap();
    let (start, search, replace) = parsed;
    assert_eq!(start, start_pos);
    assert_eq!(search, "let  = 10;");
    assert_eq!(replace, "let x = 10;");
}

#[test]
fn test_parse_patch_unicode() {
    let coder = Coder::new();

    let patch = r#"<|SEARCH|>let <|cursor|> = "йцук";<|DIVIDE|>let x = "йцук";<|REPLACE|>"#;
    let start_pos = 0;

    let parsed = coder.parse_patch(patch, start_pos).unwrap();
    let (start, search, replace) = parsed;
    assert_eq!(start, start_pos);
    assert_eq!(search, "let  = \"йцук\";");
    assert_eq!(replace, "let x = \"йцук\";");
}

#[test]
fn test_parse_patch_missing_tokens() {
    let coder = Coder::new();

    let r = coder.parse_patch("no tokens at all", 0);
    assert_eq!(r, Err(Error::PatchFormat(PatchToken::Search)));

    let r = coder.parse_patch("<|SEARCH|>abc<|REPLACE|>", 0);
    assert_eq!(r, Err(Error::PatchFormat(PatchToken::Divide)));

    let r = coder.parse_patch("<|SEARCH|>abc<|DIVIDE|>def", 0);
    assert_eq!(r, Err(Error::PatchFormat(PatchToken::Replace)));

    let r = coder.parse_patch("<|SEARCH|>abc<|DIVIDE|>def<|REPLACE|>", 5);
    assert_eq!(r, Err(Error::PatchFormat(PatchToken::Cursor)));
}

#[test]
fn test_parse_patch_discards_text_after_close_token() {
    let coder = Coder::new();
    // chatter after the close marker never reaches the replacement
    let patch = "<|SEARCH|>a<|cursor|><|DIVIDE|>b<|REPLACE|>Sure! Let me know if that helps.";
    let (start, search, replace) = coder.parse_patch(patch, 1).unwrap();
    assert_eq!(start, 0);
    assert_eq!(search, "a");
    assert_eq!(replace, "b");
}

#[test]
fn test_parse_patch_close_token_only_before_divider() {
    let coder = Coder::new();
    // a close marker that precedes the divider cannot end the replacement
    let patch = "<|REPLACE|><|SEARCH|>a<|cursor|><|DIVIDE|>b";
    let r = coder.parse_patch(patch, 0);
    assert_eq!(r, Err(Error::PatchFormat(PatchToken::Replace)));
}

#[test]
fn test_parse_patch_divider_before_search() {
    let coder = Coder::new();
    // a divider that precedes the search marker cannot delimit a search
    // block; the response is rejected, not sliced
    let r = coder.parse_patch("<|DIVIDE|><|SEARCH|>abc<|cursor|><|REPLACE|>", 0);
    assert_eq!(r, Err(Error::PatchFormat(PatchToken::Divide)));
}

#[test]
fn test_parse_patch_anchoring() {
    let coder = Coder::new();
    // the cursor marker sits after six characters of search text, so the
    // located text is anchored six characters before the cursor
    let patch = "<|SEARCH|>let x <|cursor|>= 1;<|DIVIDE|>let x = 2;<|REPLACE|>";
    let (start, search, replace) = coder.parse_patch(patch, 40).unwrap();
    assert_eq!(start, 34);
    assert_eq!(search, "let x = 1;");
    assert_eq!(replace, "let x = 2;");
}

#[test]
fn test_end_to_end_scenario() {
    let buffer = "println!(\"Current value: {}\", );";
    // cursor right after the last comma and space, before the closing paren
    let cursor = 30;
    let response = "<|SEARCH|>println!(\"Current value: {}\", <|cursor|>);<|DIVIDE|>println!(\"Current value: {}\", i);<|REPLACE|>";

    let coder = Coder::new();
    let edits = coder.edits_from_response(response, cursor).unwrap();
    assert_eq!(
        edits,
        vec![Edit { start: 30, end: 30, text: "i".to_string(), kind: EditKind::Insert }]
    );

    let ranges = compute_changed_ranges_normalized(&edits);
    assert_eq!(
        ranges,
        vec![ChangedRange { start: 30, end: 31, kind: ChangedRangeKind::Insert }]
    );
    let _ = buffer;
}

#[test]
fn test_edits_from_response_descending() {
    // two separated replacements come back sorted descending by start
    let response = "<|SEARCH|>a = 1;<|cursor|>\nb = 2;<|DIVIDE|>a = 9;\nb = 8;<|REPLACE|>";
    let coder = Coder::new();
    let edits = coder.edits_from_response(response, 6).unwrap();
    assert!(edits.len() >= 2);
    for w in edits.windows(2) {
        assert!(w[0].start >= w[1].start);
    }
    let r = coder.edits_from_response("garbage", 6);
    assert_eq!(r, Err(Error::PatchFormat(PatchToken::Search)));
}

#[test]
fn test_edits_from_response_same_start_delete_first() {
    // a replacement at one position yields a same-start pair with the
    // deletion first, kept in that order by the descending sort
    let response = "<|SEARCH|>ab<|cursor|><|DIVIDE|>xy<|REPLACE|>";
    let coder = Coder::new();
    let edits = coder.edits_from_response(response, 2).unwrap();
    assert_eq!(
        edits,
        vec![
            Edit { start: 0, end: 2, text: "ab".to_string(), kind: EditKind::Delete },
            Edit { start: 0, end: 0, text: "xy".to_string(), kind: EditKind::Insert },
        ]
    );
}

#[test]
fn test_autocomplete_request_contexts() {
    let mut coder = Coder::new();
    coder.update_at("a.rs", "fn a() {}\n", 100);
    coder.update_at("a.rs", "fn a() { 1 }\n", 200);

    let content = "line one\nline two\nline three\nline four\nline five\n";
    // cursor at the start of "line three"
    let (small, big, summary) = coder.autocomplete_request(content, 18).unwrap();
    assert!(small.contains(ctoken()));
    assert!(big.contains(ctoken()));
    // the whole file fits in the broad context
    assert!(big.contains("line one"));
    assert!(big.contains("line five"));
    assert!(summary.contains("a.rs changes:"));
    assert!(summary.contains("-fn a() {}"));
    assert!(summary.contains("+fn a() { 1 }"));
}

#[test]
fn test_autocomplete_request_cursor_out_of_bounds() {
    let coder = Coder::new();
    let r = coder.autocomplete_request("short", 99);
    assert_eq!(r, Err(Error::OffsetOutOfBounds));
}

#[test]
fn test_last_modified_files() {
    let mut coder = Coder::new();
    // the second update of each path carries an explicit clock reading,
    // so the ranking below is deterministic
    coder.update_at("first.rs", "a", 0);
    coder.update_at("second.rs", "b", 0);
    coder.update_at("third.rs", "c", 0);
    coder.update_at("first.rs", "a2", 100);
    coder.update_at("second.rs", "b2", 300);
    coder.update_at("third.rs", "c2", 200);

    let files = coder.last_modified_files(2);
    assert_eq!(files, vec!["second.rs".to_string(), "third.rs".to_string()]);

    let all = coder.last_modified_files(10);
    assert_eq!(
        all,
        vec!["second.rs".to_string(), "third.rs".to_string(), "first.rs".to_string()]
    );
}

#[test]
fn test_summarize_skips_unchanged_files() {
    let mut coder = Coder::new();
    coder.update_at("quiet.rs", "nothing changed\n", 100);
    coder.update_at("busy.rs", "old line\n", 150);
    coder.update_at("busy.rs", "new line\n", 250);

    let summary = coder.summarize_recent_edits_for_last_files(3);
    assert!(summary.contains("busy.rs changes:"));
    assert!(summary.contains("-old line"));
    assert!(summary.contains("+new line"));
    assert!(!summary.contains("quiet.rs"));
}

#[test]
fn test_build_context_window_at_file_start() {
    let coder = Coder::new();
    let content = "a\nb\nc\nd\ne\nf";
    // near the start of the file the deficit above the cursor goes below
    let (excerpt, start) = coder.build_context(content, 0, 1).unwrap();
    assert_eq!(excerpt, format!("{}a\nb\nc", ctoken()));
    assert_eq!(start, 0);
}

#[test]
fn test_build_context_window_at_file_end() {
    let coder = Coder::new();
    let content = "a\nb\nc\nd\ne\nf";
    // near the end of the file the deficit below the cursor goes above
    let (excerpt, start) = coder.build_context(content, 11, 1).unwrap();
    assert_eq!(excerpt, format!("d\ne\nf{}", ctoken()));
    assert_eq!(start, 6);
}
