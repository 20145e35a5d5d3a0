use ddmerge::{
    apply_choices_with_ops, apply_hunk_choices, extract_hunks, extract_hunks_with_ops,
    format_line_with_newline, split_text, EditOp, HunkChoice,
};

#[test]
fn test_extract_hunks_simple() {
    let left = "line1\nline2\nline3\n";
    let right = "line1\nmodified\nline3\n";
    let hunks = extract_hunks(left, right, 1);
    assert_eq!(hunks.len(), 1);
    assert_eq!(hunks[0].left_lines, vec!["line2\n"]);
    assert_eq!(hunks[0].right_lines, vec!["modified\n"]);
}

#[test]
fn test_extract_hunks_multiple() {
    let left = "a\nb\nc\nd\ne\n";
    let right = "a\nB\nc\nD\ne\n";
    let hunks = extract_hunks(left, right, 0);
    assert!(!hunks.is_empty());
}

#[test]
fn test_apply_hunk_choices_left() {
    let left = "line1\nold\nline3\n";
    let right = "line1\nnew\nline3\n";
    let hunks = extract_hunks(left, right, 0);
    let choices = vec![HunkChoice::Left];
    let (merged_left, merged_right) = apply_hunk_choices(left, right, &hunks, &choices);
    assert_eq!(merged_left, "line1\nold\nline3\n");
    assert_eq!(merged_right, "line1\nold\nline3\n");
}

#[test]
fn test_apply_hunk_choices_right() {
    let left = "line1\nold\nline3\n";
    let right = "line1\nnew\nline3\n";
    let hunks = extract_hunks(left, right, 0);
    let choices = vec![HunkChoice::Right];
    let (merged_left, merged_right) = apply_hunk_choices(left, right, &hunks, &choices);
    assert_eq!(merged_left, "line1\nnew\nline3\n");
    assert_eq!(merged_right, "line1\nnew\nline3\n");
}

#[test]
fn test_apply_hunk_choices_skip() {
    let left = "line1\nold\nline3\n";
    let right = "line1\nnew\nline3\n";
    let hunks = extract_hunks(left, right, 0);
    let choices = vec![HunkChoice::Skip];
    let (merged_left, merged_right) = apply_hunk_choices(left, right, &hunks, &choices);
    assert_eq!(merged_left, left);
    assert_eq!(merged_right, right);
}

#[test]
fn test_trailing_newline_left_choice() {
    let left = "hello";
    let right = "hello\n";
    let hunks = extract_hunks(left, right, 0);
    let choices = vec![HunkChoice::Left];
    let (merged_left, merged_right) = apply_hunk_choices(left, right, &hunks, &choices);
    assert!(!merged_left.ends_with('\n'));
    assert!(!merged_right.ends_with('\n'));
}

#[test]
fn test_trailing_newline_right_choice() {
    let left = "hello";
    let right = "hello\n";
    let hunks = extract_hunks(left, right, 0);
    let choices = vec![HunkChoice::Right];
    let (merged_left, merged_right) = apply_hunk_choices(left, right, &hunks, &choices);
    assert!(merged_left.ends_with('\n'));
    assert!(merged_right.ends_with('\n'));
}

#[test]
fn test_trailing_newline_skip_preserves_original() {
    let left = "hello";
    let right = "hello\n";
    let hunks = extract_hunks(left, right, 0);
    let choices = vec![HunkChoice::Skip];
    let (merged_left, merged_right) = apply_hunk_choices(left, right, &hunks, &choices);
    assert!(!merged_left.ends_with('\n'));
    assert!(merged_right.ends_with('\n'));
}

#[test]
fn test_extract_hunks_delete_operation() {
    let left = "line1\nline2\nline3\n";
    let right = "line1\nline3\n";
    let hunks = extract_hunks(left, right, 0);
    assert_eq!(hunks.len(), 1);
    assert_eq!(hunks[0].left_lines, vec!["line2\n"]);
    assert!(hunks[0].right_lines.is_empty());
}

#[test]
fn test_extract_hunks_insert_operation() {
    let left = "line1\nline3\n";
    let right = "line1\nline2\nline3\n";
    let hunks = extract_hunks(left, right, 0);
    assert_eq!(hunks.len(), 1);
    assert!(hunks[0].left_lines.is_empty());
    assert_eq!(hunks[0].right_lines, vec!["line2\n"]);
}

#[test]
fn test_apply_hunk_choices_delete_left() {
    let left = "line1\nline2\nline3\n";
    let right = "line1\nline3\n";
    let hunks = extract_hunks(left, right, 0);
    let choices = vec![HunkChoice::Left];
    let (merged_left, merged_right) = apply_hunk_choices(left, right, &hunks, &choices);
    assert_eq!(merged_left, "line1\nline2\nline3\n");
    assert_eq!(merged_right, "line1\nline2\nline3\n");
}

#[test]
fn test_apply_hunk_choices_delete_right() {
    let left = "line1\nline2\nline3\n";
    let right = "line1\nline3\n";
    let hunks = extract_hunks(left, right, 0);
    let choices = vec![HunkChoice::Right];
    let (merged_left, merged_right) = apply_hunk_choices(left, right, &hunks, &choices);
    assert_eq!(merged_left, "line1\nline3\n");
    assert_eq!(merged_right, "line1\nline3\n");
}

#[test]
fn test_apply_hunk_choices_insert_left() {
    let left = "line1\nline3\n";
    let right = "line1\nline2\nline3\n";
    let hunks = extract_hunks(left, right, 0);
    let choices = vec![HunkChoice::Left];
    let (merged_left, merged_right) = apply_hunk_choices(left, right, &hunks, &choices);
    assert_eq!(merged_left, "line1\nline3\n");
    assert_eq!(merged_right, "line1\nline3\n");
}

#[test]
fn test_apply_hunk_choices_insert_right() {
    let left = "line1\nline3\n";
    let right = "line1\nline2\nline3\n";
    let hunks = extract_hunks(left, right, 0);
    let choices = vec![HunkChoice::Right];
    let (merged_left, merged_right) = apply_hunk_choices(left, right, &hunks, &choices);
    assert_eq!(merged_left, "line1\nline2\nline3\n");
    assert_eq!(merged_right, "line1\nline2\nline3\n");
}

#[test]
fn test_no_difference() {
    let content = "line1\nline2\nline3\n";
    let hunks = extract_hunks(content, content, 0);
    assert!(hunks.is_empty());
}

#[test]
fn test_empty_files() {
    let left = "";
    let right = "";
    let hunks = extract_hunks(left, right, 0);
    assert!(hunks.is_empty());
}

#[test]
fn test_format_line_with_newline_last_line_no_newline() {
    let result = format_line_with_newline("hello", 0, 1, false);
    assert_eq!(result, "hello");
}

#[test]
fn test_format_line_with_newline_last_line_with_newline() {
    let result = format_line_with_newline("hello", 0, 1, true);
    assert_eq!(result, "hello\n");
}

#[test]
fn test_format_line_with_newline_not_last_line() {
    let result = format_line_with_newline("hello", 0, 2, false);
    assert_eq!(result, "hello\n");
}

#[test]
fn replace_example_one_hunk_and_left_choice() {
    let left = "line1\nline2\nline3\n";
    let right = "line1\nmodified\nline3\n";
    let hunks = extract_hunks(left, right, 3);
    assert_eq!(hunks.len(), 1);
    assert_eq!(hunks[0].left_start, 1);
    assert_eq!(hunks[0].left_count, 1);
    assert_eq!(hunks[0].right_start, 1);
    assert_eq!(hunks[0].right_count, 1);
    assert_eq!(hunks[0].left_lines, vec!["line2\n"]);
    assert_eq!(hunks[0].right_lines, vec!["modified\n"]);
    assert_eq!(hunks[0].context_before, vec!["line1\n"]);
    assert_eq!(hunks[0].context_after, vec!["line3\n"]);
    let (a, b) = apply_hunk_choices(left, right, &hunks, &[HunkChoice::Left]);
    assert_eq!(a, left);
    assert_eq!(b, left);
}

#[test]
fn missing_trailing_newline_example() {
    let left = "hello";
    let right = "hello\n";
    let hunks = extract_hunks(left, right, 0);
    assert_eq!(hunks.len(), 1);
    assert_eq!(hunks[0].left_lines, vec!["hello"]);
    assert_eq!(hunks[0].right_lines, vec!["hello\n"]);
    let (a, b) = apply_hunk_choices(left, right, &hunks, &[HunkChoice::Left]);
    assert_eq!((a.as_str(), b.as_str()), ("hello", "hello"));
    let (a, b) = apply_hunk_choices(left, right, &hunks, &[HunkChoice::Right]);
    assert_eq!((a.as_str(), b.as_str()), ("hello\n", "hello\n"));
    let (a, b) = apply_hunk_choices(left, right, &hunks, &[HunkChoice::Skip]);
    assert_eq!((a.as_str(), b.as_str()), ("hello", "hello\n"));
}

#[test]
fn split_and_render_round_trip() {
    for t in ["", "\n", "a", "a\n", "a\n\nb", "a\r\nb\r\n", "\n\n"] {
        let (lines, nl) = split_text(t);
        let n = lines.len();
        let mut rebuilt = String::new();
        for (i, l) in lines.iter().enumerate() {
            rebuilt.push_str(&format_line_with_newline(l, i, n, nl));
        }
        assert_eq!(rebuilt, t);
    }
    let (lines, nl) = split_text("x\ny\n");
    assert_eq!(lines, vec!["x", "y"]);
    assert!(nl);
}

#[test]
fn all_left_all_right_all_skip_identities() {
    let left = "a\nb\nc\nd\ne\n";
    let right = "a\nB\nc\nD\ne\nf";
    let hunks = extract_hunks(left, right, 1);
    let n = hunks.len();
    assert!(n >= 2);
    let (a, b) = apply_hunk_choices(left, right, &hunks, &vec![HunkChoice::Left; n]);
    assert_eq!((a.as_str(), b.as_str()), (left, left));
    let (a, b) = apply_hunk_choices(left, right, &hunks, &vec![HunkChoice::Right; n]);
    assert_eq!((a.as_str(), b.as_str()), (right, right));
    let (a, b) = apply_hunk_choices(left, right, &hunks, &vec![HunkChoice::Skip; n]);
    assert_eq!((a.as_str(), b.as_str()), (left, right));
    let (a, b) = apply_hunk_choices(left, right, &hunks, &[]);
    assert_eq!((a.as_str(), b.as_str()), (left, right));
}

#[test]
fn mixed_choices_and_last_decisive_newline() {
    let left = "a\nb\nc\nd";
    let right = "a\nB\nc\nD\n";
    let hunks = extract_hunks(left, right, 0);
    assert_eq!(hunks.len(), 2);
    let (a, b) = apply_hunk_choices(left, right, &hunks, &[HunkChoice::Right, HunkChoice::Left]);
    assert_eq!(a, "a\nB\nc\nd");
    assert_eq!(b, "a\nB\nc\nd");
    let (a, b) = apply_hunk_choices(left, right, &hunks, &[HunkChoice::Left, HunkChoice::Skip]);
    assert_eq!(a, "a\nb\nc\nd");
    assert_eq!(b, "a\nb\nc\nD");
}

#[test]
fn given_alignment_with_out_of_range_indices() {
    let left = "x\ny\n";
    let right = "x\nz\n";
    let ops = vec![
        EditOp::Equal { old_index: 0, new_index: 0, len: 1 },
        EditOp::Replace { old_index: 1, old_len: 5, new_index: 1, new_len: 1 },
    ];
    let hunks = extract_hunks_with_ops(left, right, &ops, 2);
    assert_eq!(hunks.len(), 1);
    assert_eq!(hunks[0].left_lines, vec!["y\n"]);
    assert_eq!(hunks[0].right_lines, vec!["z\n"]);
    assert_eq!(hunks[0].context_before, vec!["x\n"]);
    assert!(hunks[0].context_after.is_empty());
    let (a, b) = apply_choices_with_ops(left, right, &ops, &[HunkChoice::Right]);
    assert_eq!((a.as_str(), b.as_str()), ("x\nz\n", "x\nz\n"));
}

#[test]
fn insertion_context_is_taken_from_left() {
    let left = "a\nb\nc\n";
    let right = "a\nnew\nb\nc\n";
    let hunks = extract_hunks(left, right, 1);
    assert_eq!(hunks.len(), 1);
    assert_eq!(hunks[0].left_start, 1);
    assert_eq!(hunks[0].left_count, 0);
    assert_eq!(hunks[0].right_lines, vec!["new\n"]);
    assert_eq!(hunks[0].context_before, vec!["a\n"]);
    assert_eq!(hunks[0].context_after, vec!["b\n"]);
}
