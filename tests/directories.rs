use ddmerge::{
    apply_file_action, compare_directories, replace_steps, DiffEntry, DiffType, FileAction,
    FsStep, PathEntry, RelPath, Side,
};

fn rp(s: &str) -> RelPath {
    RelPath { components: s.split('/').map(String::from).collect() }
}

fn file(s: &str) -> PathEntry {
    PathEntry { path: rp(s), is_dir: false }
}

fn dir(s: &str) -> PathEntry {
    PathEntry { path: rp(s), is_dir: true }
}

#[test]
fn test_identical_directories() {
    let left = vec![file("file.txt")];
    let right = vec![file("file.txt")];
    let diffs = compare_directories(&left, &right, &vec![]);
    assert!(diffs.is_empty());
}

#[test]
fn test_empty_directories() {
    let diffs = compare_directories(&vec![], &vec![], &vec![]);
    assert!(diffs.is_empty());
}

#[test]
fn test_left_only_file() {
    let diffs = compare_directories(&vec![file("only_left.txt")], &vec![], &vec![]);
    assert_eq!(diffs.len(), 1);
    assert_eq!(diffs[0].path, rp("only_left.txt"));
    assert_eq!(diffs[0].diff_type, DiffType::LeftOnly);
    assert_eq!(diffs[0].left_is_dir, Some(false));
    assert_eq!(diffs[0].right_is_dir, None);
}

#[test]
fn test_right_only_file() {
    let diffs = compare_directories(&vec![], &vec![file("only_right.txt")], &vec![]);
    assert_eq!(diffs.len(), 1);
    assert_eq!(diffs[0].path, rp("only_right.txt"));
    assert_eq!(diffs[0].diff_type, DiffType::RightOnly);
    assert_eq!(diffs[0].left_is_dir, None);
    assert_eq!(diffs[0].right_is_dir, Some(false));
}

#[test]
fn test_modified_file() {
    let diffs =
        compare_directories(&vec![file("file.txt")], &vec![file("file.txt")], &vec![rp("file.txt")]);
    assert_eq!(diffs.len(), 1);
    assert_eq!(diffs[0].path, rp("file.txt"));
    assert_eq!(diffs[0].diff_type, DiffType::Modified);
    assert_eq!(diffs[0].left_is_dir, Some(false));
}

#[test]
fn test_type_mismatch_file_vs_dir() {
    let diffs = compare_directories(&vec![file("item")], &vec![dir("item")], &vec![]);
    assert_eq!(diffs.len(), 1);
    assert_eq!(diffs[0].diff_type, DiffType::TypeMismatch);
    assert_eq!(diffs[0].left_is_dir, Some(false));
    assert_eq!(diffs[0].right_is_dir, Some(true));
}

#[test]
fn test_type_mismatch_dir_vs_file() {
    let diffs = compare_directories(&vec![dir("item")], &vec![file("item")], &vec![]);
    assert_eq!(diffs.len(), 1);
    assert_eq!(diffs[0].diff_type, DiffType::TypeMismatch);
    assert_eq!(diffs[0].left_is_dir, Some(true));
    assert_eq!(diffs[0].right_is_dir, Some(false));
}

#[test]
fn test_left_only_directory() {
    let left = vec![dir("subdir"), file("subdir/file.txt")];
    let diffs = compare_directories(&left, &vec![], &vec![]);
    assert_eq!(diffs.len(), 1);
    assert_eq!(diffs[0].path, rp("subdir"));
    assert_eq!(diffs[0].diff_type, DiffType::LeftOnly);
    assert_eq!(diffs[0].left_is_dir, Some(true));
}

#[test]
fn test_right_only_directory() {
    let right = vec![file("subdir/file.txt"), dir("subdir")];
    let diffs = compare_directories(&vec![], &right, &vec![]);
    assert_eq!(diffs.len(), 1);
    assert_eq!(diffs[0].path, rp("subdir"));
    assert_eq!(diffs[0].diff_type, DiffType::RightOnly);
    assert_eq!(diffs[0].right_is_dir, Some(true));
}

#[test]
fn test_nested_directory_with_modified_file() {
    let side = vec![dir("subdir"), file("subdir/file.txt")];
    let diffs = compare_directories(&side, &side, &vec![rp("subdir/file.txt")]);
    assert_eq!(diffs.len(), 1);
    assert_eq!(diffs[0].path, rp("subdir/file.txt"));
    assert_eq!(diffs[0].diff_type, DiffType::Modified);
}

#[test]
fn test_deeply_nested_left_only() {
    let left = vec![dir("a"), dir("a/b"), dir("a/b/c"), file("a/b/c/file.txt")];
    let diffs = compare_directories(&left, &vec![], &vec![]);
    assert_eq!(diffs.len(), 1);
    assert_eq!(diffs[0].diff_type, DiffType::LeftOnly);
    assert_eq!(diffs[0].path, rp("a"));
}

#[test]
fn test_multiple_diff_types() {
    let left = vec![file("left_only.txt"), file("modified.txt"), file("same.txt")];
    let right = vec![file("right_only.txt"), file("modified.txt"), file("same.txt")];
    let diffs = compare_directories(&left, &right, &vec![rp("modified.txt")]);
    assert_eq!(diffs.len(), 3);
    let diff_types: Vec<_> = diffs.iter().map(|d| &d.diff_type).collect();
    assert!(diff_types.contains(&&DiffType::LeftOnly));
    assert!(diff_types.contains(&&DiffType::RightOnly));
    assert!(diff_types.contains(&&DiffType::Modified));
}

#[test]
fn test_identical_directories_multiple_files() {
    let side = vec![file("a.txt"), file("b.txt")];
    let diffs = compare_directories(&side, &side, &vec![]);
    assert!(diffs.is_empty());
}

#[test]
fn test_diff_entry_left_only() {
    let path = rp("test.txt");
    let entry = DiffEntry::left_only(path.clone(), false);
    assert_eq!(entry.path, path);
    assert_eq!(entry.diff_type, DiffType::LeftOnly);
    assert_eq!(entry.left_is_dir, Some(false));
    assert_eq!(entry.right_is_dir, None);
}

#[test]
fn test_diff_entry_left_only_dir() {
    let path = rp("test-dir");
    let entry = DiffEntry::left_only(path.clone(), true);
    assert_eq!(entry.left_is_dir, Some(true));
}

#[test]
fn test_diff_entry_right_only() {
    let path = rp("test.txt");
    let entry = DiffEntry::right_only(path.clone(), false);
    assert_eq!(entry.path, path);
    assert_eq!(entry.diff_type, DiffType::RightOnly);
    assert_eq!(entry.left_is_dir, None);
    assert_eq!(entry.right_is_dir, Some(false));
}

#[test]
fn test_diff_entry_modified() {
    let path = rp("test.txt");
    let entry = DiffEntry::modified(path.clone());
    assert_eq!(entry.path, path);
    assert_eq!(entry.diff_type, DiffType::Modified);
    assert_eq!(entry.left_is_dir, Some(false));
    assert_eq!(entry.right_is_dir, Some(false));
}

#[test]
fn test_diff_entry_type_mismatch() {
    let path = rp("item");
    let entry = DiffEntry::type_mismatch(path.clone(), false, true);
    assert_eq!(entry.path, path);
    assert_eq!(entry.diff_type, DiffType::TypeMismatch);
    assert_eq!(entry.left_is_dir, Some(false));
    assert_eq!(entry.right_is_dir, Some(true));
}

#[test]
fn test_empty_file_vs_content() {
    let diffs =
        compare_directories(&vec![file("file.txt")], &vec![file("file.txt")], &vec![rp("file.txt")]);
    assert_eq!(diffs.len(), 1);
    assert_eq!(diffs[0].diff_type, DiffType::Modified);
}

#[test]
fn test_empty_directory_in_both() {
    let diffs = compare_directories(&vec![dir("empty_dir")], &vec![dir("empty_dir")], &vec![]);
    assert!(diffs.is_empty());
}

#[test]
fn entries_come_in_component_order_once_each() {
    let left = vec![file("b.txt"), dir("a"), file("a/x"), file("a.txt"), file("b.txt")];
    let right = vec![file("c"), dir("a"), file("a/y")];
    let diffs = compare_directories(&left, &right, &vec![]);
    let paths: Vec<String> = diffs.iter().map(|d| d.path.components.join("/")).collect();
    assert_eq!(paths, vec!["a/x", "a/y", "a.txt", "b.txt", "c"]);
}

#[test]
fn swapping_sides_mirrors_entries() {
    let a = vec![dir("d"), file("d/f"), file("m"), file("t"), dir("u")];
    let b = vec![file("m"), dir("t"), file("u"), file("r")];
    let m = vec![rp("m")];
    let ab = compare_directories(&a, &b, &m);
    let ba = compare_directories(&b, &a, &m);
    assert_eq!(ab.len(), ba.len());
    for (x, y) in ab.iter().zip(ba.iter()) {
        assert_eq!(x.path, y.path);
        let mirrored = match x.diff_type {
            DiffType::LeftOnly => DiffType::RightOnly,
            DiffType::RightOnly => DiffType::LeftOnly,
            t => t,
        };
        assert_eq!(y.diff_type, mirrored);
        assert_eq!(x.left_is_dir, y.right_is_dir);
        assert_eq!(x.right_is_dir, y.left_is_dir);
    }
}

#[test]
fn one_sided_entries_of_other_kind_below_are_kept() {
    // Listings that are not closed under ancestors keep the entries of
    // another kind below a one-sided directory.
    let left = vec![dir("d")];
    let right = vec![file("d/x")];
    let diffs = compare_directories(&left, &right, &vec![]);
    assert_eq!(diffs.len(), 2);
    assert_eq!(diffs[0].path, rp("d"));
    assert_eq!(diffs[1].path, rp("d/x"));
    assert_eq!(diffs[1].diff_type, DiffType::RightOnly);
}

#[test]
fn test_apply_file_action_left_only_copy() {
    let entry = DiffEntry::left_only(rp("test.txt"), false);
    let steps = apply_file_action(&entry, FileAction::Copy);
    assert_eq!(steps, vec![FsStep::Copy { from: Side::Left, path: rp("test.txt") }]);
}

#[test]
fn test_apply_file_action_left_only_delete() {
    let entry = DiffEntry::left_only(rp("test.txt"), false);
    let steps = apply_file_action(&entry, FileAction::Delete);
    assert_eq!(steps, vec![FsStep::Remove { side: Side::Left, path: rp("test.txt") }]);
}

#[test]
fn test_apply_file_action_left_only_skip() {
    let entry = DiffEntry::left_only(rp("test.txt"), false);
    assert!(apply_file_action(&entry, FileAction::Skip).is_empty());
}

#[test]
fn test_apply_file_action_right_only_copy() {
    let entry = DiffEntry::right_only(rp("test.txt"), false);
    let steps = apply_file_action(&entry, FileAction::Copy);
    assert_eq!(steps, vec![FsStep::Copy { from: Side::Right, path: rp("test.txt") }]);
}

#[test]
fn test_apply_file_action_right_only_delete() {
    let entry = DiffEntry::right_only(rp("test.txt"), false);
    let steps = apply_file_action(&entry, FileAction::Delete);
    assert_eq!(steps, vec![FsStep::Remove { side: Side::Right, path: rp("test.txt") }]);
}

#[test]
fn test_apply_file_action_right_only_skip() {
    let entry = DiffEntry::right_only(rp("test.txt"), false);
    assert!(apply_file_action(&entry, FileAction::Skip).is_empty());
}

#[test]
fn test_apply_file_action_type_mismatch_copy_file_over_dir() {
    let entry = DiffEntry::type_mismatch(rp("item"), false, true);
    let steps = apply_file_action(&entry, FileAction::Copy);
    assert_eq!(
        steps,
        vec![
            FsStep::Remove { side: Side::Right, path: rp("item") },
            FsStep::Copy { from: Side::Left, path: rp("item") },
        ]
    );
}

#[test]
fn test_apply_file_action_type_mismatch_delete() {
    let entry = DiffEntry::type_mismatch(rp("item"), false, true);
    let steps = apply_file_action(&entry, FileAction::Delete);
    assert_eq!(steps, vec![FsStep::Remove { side: Side::Right, path: rp("item") }]);
}

#[test]
fn test_apply_file_action_type_mismatch_skip() {
    let entry = DiffEntry::type_mismatch(rp("item"), true, false);
    assert!(apply_file_action(&entry, FileAction::Skip).is_empty());
}

#[test]
fn test_apply_file_action_modified_does_nothing() {
    let entry = DiffEntry::modified(rp("test.txt"));
    assert!(apply_file_action(&entry, FileAction::Copy).is_empty());
    assert!(apply_file_action(&entry, FileAction::Delete).is_empty());
}

#[test]
fn right_side_replaces_left() {
    let steps = replace_steps(&rp("item"), Side::Right);
    assert_eq!(
        steps,
        vec![
            FsStep::Remove { side: Side::Left, path: rp("item") },
            FsStep::Copy { from: Side::Right, path: rp("item") },
        ]
    );
}
