use ddmerge::{
    file_action_for_key, is_whitespace_only_diff, prompt_for_action, prompt_for_hunk_choice,
    visualize_whitespace, DiffType, FileAction, Hunk, HunkChoice, HunkUserChoice, MergeAction,
    UserChoice,
};

fn create_test_hunk(left_lines: Vec<&str>, right_lines: Vec<&str>) -> Hunk {
    Hunk {
        left_start: 0,
        left_count: left_lines.len(),
        right_start: 0,
        right_count: right_lines.len(),
        left_lines: left_lines.into_iter().map(String::from).collect(),
        right_lines: right_lines.into_iter().map(String::from).collect(),
        context_before: vec![],
        context_after: vec![],
    }
}

#[test]
fn test_visualize_whitespace_space() {
    let result = visualize_whitespace("hello world");
    assert_eq!(result, "hello·world");
}

#[test]
fn test_visualize_whitespace_tab() {
    let result = visualize_whitespace("hello\tworld");
    assert_eq!(result, "hello→world");
}

#[test]
fn test_visualize_whitespace_newline() {
    let result = visualize_whitespace("hello\n");
    assert_eq!(result, "hello↵");
}

#[test]
fn test_visualize_whitespace_carriage_return() {
    let result = visualize_whitespace("hello\r\n");
    assert_eq!(result, "hello␍↵");
}

#[test]
fn test_visualize_whitespace_mixed() {
    let result = visualize_whitespace(" \t\n");
    assert_eq!(result, "·→↵");
}

#[test]
fn test_visualize_whitespace_no_whitespace() {
    let result = visualize_whitespace("hello");
    assert_eq!(result, "hello");
}

#[test]
fn test_is_whitespace_only_diff_true_spaces() {
    let hunk = create_test_hunk(vec!["hello world\n"], vec!["hello  world\n"]);
    assert!(is_whitespace_only_diff(&hunk));
}

#[test]
fn test_is_whitespace_only_diff_true_tabs_vs_spaces() {
    let hunk = create_test_hunk(vec!["\thello\n"], vec!["    hello\n"]);
    assert!(is_whitespace_only_diff(&hunk));
}

#[test]
fn test_is_whitespace_only_diff_true_trailing_newline() {
    let hunk = create_test_hunk(vec!["hello"], vec!["hello\n"]);
    assert!(is_whitespace_only_diff(&hunk));
}

#[test]
fn test_is_whitespace_only_diff_false_different_content() {
    let hunk = create_test_hunk(vec!["hello\n"], vec!["world\n"]);
    assert!(!is_whitespace_only_diff(&hunk));
}

#[test]
fn test_is_whitespace_only_diff_false_additional_content() {
    let hunk = create_test_hunk(vec!["hello\n"], vec!["hello world\n"]);
    assert!(!is_whitespace_only_diff(&hunk));
}

#[test]
fn test_is_whitespace_only_diff_empty_lines() {
    let hunk = create_test_hunk(vec![], vec![]);
    assert!(is_whitespace_only_diff(&hunk));
}

#[test]
fn test_is_whitespace_only_diff_one_side_empty() {
    let hunk = create_test_hunk(vec!["   \n"], vec![]);
    assert!(is_whitespace_only_diff(&hunk));
}

#[test]
fn whitespace_only_across_line_breaks_and_unicode_spaces() {
    let hunk = create_test_hunk(vec!["a b\n", "c\n"], vec!["a\u{3000}bc\n"]);
    assert!(is_whitespace_only_diff(&hunk));
    let hunk = create_test_hunk(vec!["ab\n"], vec!["ba\n"]);
    assert!(!is_whitespace_only_diff(&hunk));
}

#[test]
fn entry_prompt_keys() {
    assert_eq!(
        prompt_for_action(&DiffType::LeftOnly, 'k'),
        Some(UserChoice::Action(MergeAction::Keep))
    );
    assert_eq!(
        prompt_for_action(&DiffType::RightOnly, 'D'),
        Some(UserChoice::Action(MergeAction::Delete))
    );
    assert_eq!(prompt_for_action(&DiffType::LeftOnly, 'l'), None);
    assert_eq!(
        prompt_for_action(&DiffType::Modified, 'l'),
        Some(UserChoice::Action(MergeAction::UseLeft))
    );
    assert_eq!(
        prompt_for_action(&DiffType::TypeMismatch, 'R'),
        Some(UserChoice::Action(MergeAction::UseRight))
    );
    assert_eq!(
        prompt_for_action(&DiffType::Modified, 's'),
        Some(UserChoice::Action(MergeAction::Skip))
    );
    assert_eq!(prompt_for_action(&DiffType::Modified, 'q'), Some(UserChoice::Quit));
    assert_eq!(prompt_for_action(&DiffType::Modified, 'k'), None);
}

#[test]
fn hunk_prompt_keys() {
    assert_eq!(prompt_for_hunk_choice('l'), Some(HunkUserChoice::Choice(HunkChoice::Left)));
    assert_eq!(prompt_for_hunk_choice('R'), Some(HunkUserChoice::Choice(HunkChoice::Right)));
    assert_eq!(prompt_for_hunk_choice('s'), Some(HunkUserChoice::Choice(HunkChoice::Skip)));
    assert_eq!(prompt_for_hunk_choice('f'), Some(HunkUserChoice::SkipFile));
    assert_eq!(prompt_for_hunk_choice('Q'), Some(HunkUserChoice::Quit));
    assert_eq!(prompt_for_hunk_choice('x'), None);
}

#[test]
fn file_action_keys() {
    assert_eq!(file_action_for_key('c'), Some(FileAction::Copy));
    assert_eq!(file_action_for_key('D'), Some(FileAction::Delete));
    assert_eq!(file_action_for_key('s'), Some(FileAction::Skip));
    assert_eq!(file_action_for_key('q'), None);
}
