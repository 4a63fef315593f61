use redai::diff::{compute_text_edits, diff_without_unchanged, split_replace_edit};
use redai::edits::{apply_edits, Edit, EditKind};
use redai::project::{compute_changed_ranges_normalized, ChangedRange, ChangedRangeKind};

#[test]
fn test_compute_edits_simple2() {
    let before = r#"println!("Current value: {}", );"#;
    let after = r#"println!("Current value: {}", i);"#;

    let edits = compute_text_edits(before, after);

    assert_eq!(
        edits,
        vec![Edit { start: 30, end: 30, text: "i".to_string(), kind: EditKind::Insert },]
    )
}

#[test]
fn test_compute_changed_ranges_normalized() {
    let before = r#"println!("Current value: {}", );"#;
    let after = r#"println!("Current value: {}", i);"#;

    let edits = compute_text_edits(before, after);
    let changed_ranges = compute_changed_ranges_normalized(&edits);

    assert_eq!(
        edits,
        vec![Edit { start: 30, end: 30, text: "i".to_string(), kind: EditKind::Insert },]
    );
    assert_eq!(
        changed_ranges,
        vec![ChangedRange { start: 30, end: 31, kind: ChangedRangeKind::Insert },]
    );
}

#[test]
fn test_compute_changed_ranges_normalized_unicode() {
    let before = r#"println!("Current value: {}", i);"#;
    let after = r#"println!("Current значение: {}", i);"#;

    let edits = compute_text_edits(before, after);
    let changed_ranges = compute_changed_ranges_normalized(&edits);

    assert_eq!(
        edits,
        vec![
            Edit { start: 18, end: 23, text: "value".to_string(), kind: EditKind::Delete },
            Edit { start: 18, end: 18, text: "значение".to_string(), kind: EditKind::Insert },
        ]
    );
    assert_eq!(
        changed_ranges,
        vec![
            ChangedRange { start: 18, end: 23, kind: ChangedRangeKind::Delete },
            ChangedRange { start: 18, end: 26, kind: ChangedRangeKind::Insert },
        ]
    );
}

#[test]
fn test_round_trip_simple() {
    let before = "let mut foo = 2;\nfoo *= 50;";
    let after = "let mut foo = 5;\naaaa foo *= 50;";
    let edits = compute_text_edits(before, after);
    // the replacement is split into a deletion and an insertion at the
    // deletion's start
    assert_eq!(
        edits,
        vec![
            Edit { start: 14, end: 15, text: "2".to_string(), kind: EditKind::Delete },
            Edit { start: 14, end: 14, text: "5".to_string(), kind: EditKind::Insert },
            Edit { start: 17, end: 17, text: "aaaa ".to_string(), kind: EditKind::Insert },
        ]
    );
    assert_eq!(apply_edits(before, &edits), after);
}

#[test]
fn test_round_trip_unicode() {
    let before = r#"println!("Current значение: {}", i);"#;
    let after = r#"println!("Current value: {}", i);"#;
    let edits = compute_text_edits(before, after);
    // all offsets are character offsets: the deletion spans the eight
    // Cyrillic characters, not their sixteen bytes
    assert_eq!(
        edits,
        vec![
            Edit { start: 18, end: 26, text: "значение".to_string(), kind: EditKind::Delete },
            Edit { start: 18, end: 18, text: "value".to_string(), kind: EditKind::Insert },
        ]
    );
    assert_eq!(apply_edits(before, &edits), after);
}

#[test]
fn test_round_trip_rewrite() {
    let before = "main rust here";
    let after = "fn main() {\n    println!(\"Hello, world!\");\n}";
    let edits = compute_text_edits(before, after);
    assert_eq!(apply_edits(before, &edits), after);
    // every edit is a pure insertion or a pure deletion
    for e in &edits {
        match e.kind {
            EditKind::Insert => assert_eq!(e.start, e.end),
            EditKind::Delete => {
                assert!(e.start < e.end);
                assert_eq!(e.text.chars().count(), e.end - e.start);
            },
        }
    }
}

#[test]
fn test_idempotence() {
    assert_eq!(compute_text_edits("", ""), vec![]);
    assert_eq!(compute_text_edits("abc", "abc"), vec![]);
    let s = "println!(\"Current значение: {}\", i);";
    assert_eq!(compute_text_edits(s, s), vec![]);
}

#[test]
fn test_pure_append_and_truncation() {
    let edits = compute_text_edits("abc", "abcdef");
    assert_eq!(
        edits,
        vec![Edit { start: 3, end: 3, text: "def".to_string(), kind: EditKind::Insert }]
    );
    let edits = compute_text_edits("abcdef", "abc");
    assert_eq!(
        edits,
        vec![Edit { start: 3, end: 6, text: "def".to_string(), kind: EditKind::Delete }]
    );
}

#[test]
fn test_split_replace_edit() {
    let replace = Edit { start: 2, end: 5, text: "xyz".to_string(), kind: EditKind::Delete };
    let parts = split_replace_edit(&replace);
    assert_eq!(
        parts,
        vec![
            Edit { start: 2, end: 5, text: String::new(), kind: EditKind::Delete },
            Edit { start: 2, end: 2, text: "xyz".to_string(), kind: EditKind::Insert },
        ]
    );

    let pure = Edit { start: 4, end: 4, text: "q".to_string(), kind: EditKind::Insert };
    assert_eq!(split_replace_edit(&pure), vec![pure.clone()]);
}

#[test]
fn test_diff_without_unchanged() {
    let out = diff_without_unchanged("a\nb\nc\n", "a\nx\nc\n");
    assert_eq!(out, "-b\n+x\n");

    // the last line has no newline of its own; the rendering adds one
    let out = diff_without_unchanged("a\nb", "a\nc");
    assert_eq!(out, "-b\n+c\n");

    assert_eq!(diff_without_unchanged("same\ntext\n", "same\ntext\n"), "");
}

#[test]
fn test_changed_ranges_saturating_shift() {
    // a deletion at the front drives the shift to zero, never negative
    let edits = vec![
        Edit { start: 0, end: 3, text: "abc".to_string(), kind: EditKind::Delete },
        Edit { start: 5, end: 5, text: "Z".to_string(), kind: EditKind::Insert },
    ];
    let ranges = compute_changed_ranges_normalized(&edits);
    assert_eq!(
        ranges,
        vec![
            ChangedRange { start: 0, end: 3, kind: ChangedRangeKind::Delete },
            ChangedRange { start: 5, end: 6, kind: ChangedRangeKind::Insert },
        ]
    );
}

#[test]
fn test_changed_ranges_sorts_ascending() {
    // input arrives sorted descending, as the orchestrator returns it
    let edits = vec![
        Edit { start: 7, end: 7, text: "xy".to_string(), kind: EditKind::Insert },
        Edit { start: 2, end: 4, text: "cd".to_string(), kind: EditKind::Delete },
    ];
    let ranges = compute_changed_ranges_normalized(&edits);
    assert_eq!(
        ranges,
        vec![
            ChangedRange { start: 2, end: 4, kind: ChangedRangeKind::Delete },
            ChangedRange { start: 7, end: 9, kind: ChangedRangeKind::Insert },
        ]
    );
}
