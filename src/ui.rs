//! Decisions behind the interactive prompts, and whitespace rendering.
use vstd::prelude::*;
use vstd::std_specs::iter::IteratorSpec;

use crate::directory::DiffType;
use crate::hunk::{Hunk, HunkChoice};
use crate::merge::{FileAction, MergeAction};
use crate::text::push_char;

verus! {

/// Result of a prompt on a diff entry.
#[derive(Debug, Clone, Copy, PartialEq, Eq, Structural)]
pub enum UserChoice {
    /// An action was chosen.
    Action(MergeAction),
    /// The user wants to quit.
    Quit,
}

/// Result of a prompt on a hunk.
#[derive(Debug, Clone, Copy, PartialEq, Eq, Structural)]
pub enum HunkUserChoice {
    Choice(HunkChoice),
    /// Skip the remaining hunks of this file.
    SkipFile,
    /// Quit the session.
    Quit,
}

/// The key `k` in either letter case.
pub open spec fn key_is(key: char, k: char) -> bool {
    key == k || key as int == k as int - 32
}

fn key_matches(key: char, k: char) -> (r: bool)
    requires
        'a' <= k <= 'z',
    ensures
        r == key_is(key, k),
{
    key == k || key as u32 + 32 == k as u32
}

/// What a key answers to the prompt on an entry of kind `t`: for an entry
/// on one side only, k(eep), d(elete), s(kip), q(uit); otherwise l(eft),
/// r(ight), s(kip), q(uit). Other keys are no answer.
pub open spec fn entry_key_choice(t: DiffType, key: char) -> Option<UserChoice> {
    if key_is(key, 's') {
        Some(UserChoice::Action(MergeAction::Skip))
    } else if key_is(key, 'q') {
        Some(UserChoice::Quit)
    } else if t == DiffType::LeftOnly || t == DiffType::RightOnly {
        if key_is(key, 'k') {
            Some(UserChoice::Action(MergeAction::Keep))
        } else if key_is(key, 'd') {
            Some(UserChoice::Action(MergeAction::Delete))
        } else {
            None
        }
    } else if key_is(key, 'l') {
        Some(UserChoice::Action(MergeAction::UseLeft))
    } else if key_is(key, 'r') {
        Some(UserChoice::Action(MergeAction::UseRight))
    } else {
        None
    }
}

/// The answer that `key` gives to the prompt on an entry of kind `diff_type`.
pub fn prompt_for_action(diff_type: &DiffType, key: char) -> (r: Option<UserChoice>)
    ensures
        r == entry_key_choice(*diff_type, key),
{
    if key_matches(key, 's') {
        Some(UserChoice::Action(MergeAction::Skip))
    } else if key_matches(key, 'q') {
        Some(UserChoice::Quit)
    } else {
        match diff_type {
            DiffType::LeftOnly | DiffType::RightOnly => {
                if key_matches(key, 'k') {
                    Some(UserChoice::Action(MergeAction::Keep))
                } else if key_matches(key, 'd') {
                    Some(UserChoice::Action(MergeAction::Delete))
                } else {
                    None
                }
            },
            _ => {
                if key_matches(key, 'l') {
                    Some(UserChoice::Action(MergeAction::UseLeft))
                } else if key_matches(key, 'r') {
                    Some(UserChoice::Action(MergeAction::UseRight))
                } else {
                    None
                }
            },
        }
    }
}

/// What a key answers to the prompt on a hunk: l(eft), r(ight), s(kip),
/// f (skip the file), q(uit).
pub open spec fn hunk_key_choice(key: char) -> Option<HunkUserChoice> {
    if key_is(key, 'l') {
        Some(HunkUserChoice::Choice(HunkChoice::Left))
    } else if key_is(key, 'r') {
        Some(HunkUserChoice::Choice(HunkChoice::Right))
    } else if key_is(key, 's') {
        Some(HunkUserChoice::Choice(HunkChoice::Skip))
    } else if key_is(key, 'f') {
        Some(HunkUserChoice::SkipFile)
    } else if key_is(key, 'q') {
        Some(HunkUserChoice::Quit)
    } else {
        None
    }
}

/// The answer that `key` gives to the prompt on a hunk.
pub fn prompt_for_hunk_choice(key: char) -> (r: Option<HunkUserChoice>)
    ensures
        r == hunk_key_choice(key),
{
    if key_matches(key, 'l') {
        Some(HunkUserChoice::Choice(HunkChoice::Left))
    } else if key_matches(key, 'r') {
        Some(HunkUserChoice::Choice(HunkChoice::Right))
    } else if key_matches(key, 's') {
        Some(HunkUserChoice::Choice(HunkChoice::Skip))
    } else if key_matches(key, 'f') {
        Some(HunkUserChoice::SkipFile)
    } else if key_matches(key, 'q') {
        Some(HunkUserChoice::Quit)
    } else {
        None
    }
}

/// The file action that a key picks on a one-sided entry: c(opy),
/// d(elete), s(kip).
pub open spec fn file_key_action(key: char) -> Option<FileAction> {
    if key_is(key, 'c') {
        Some(FileAction::Copy)
    } else if key_is(key, 'd') {
        Some(FileAction::Delete)
    } else if key_is(key, 's') {
        Some(FileAction::Skip)
    } else {
        None
    }
}

/// The file action that `key` picks.
pub fn file_action_for_key(key: char) -> (r: Option<FileAction>)
    ensures
        r == file_key_action(key),
{
    if key_matches(key, 'c') {
        Some(FileAction::Copy)
    } else if key_matches(key, 'd') {
        Some(FileAction::Delete)
    } else if key_matches(key, 's') {
        Some(FileAction::Skip)
    } else {
        None
    }
}

/// Unicode white space (the `White_Space` property).
pub open spec fn is_white(c: char) -> bool {
    ('\t' <= c && c <= '\r') || c == ' ' || c == '\u{85}' || c == '\u{a0}' || c == '\u{1680}' || (
    '\u{2000}' <= c && c <= '\u{200a}') || c == '\u{2028}' || c == '\u{2029}' || c == '\u{202f}'
        || c == '\u{205f}' || c == '\u{3000}'
}

fn white(c: char) -> (r: bool)
    ensures
        r == is_white(c),
{
    ('\t' <= c && c <= '\r') || c == ' ' || c == '\u{85}' || c == '\u{a0}' || c == '\u{1680}' || (
    '\u{2000}' <= c && c <= '\u{200a}') || c == '\u{2028}' || c == '\u{2029}' || c == '\u{202f}'
        || c == '\u{205f}' || c == '\u{3000}'
}

/// The characters of `s` that are not white space.
pub open spec fn strip_white(s: Seq<char>) -> Seq<char>
    decreases s.len(),
{
    if s.len() == 0 {
        s
    } else if is_white(s.last()) {
        strip_white(s.drop_last())
    } else {
        strip_white(s.drop_last()).push(s.last())
    }
}

/// The characters of all lines, in order, that are not white space.
pub open spec fn strip_lines(ls: Seq<Seq<char>>) -> Seq<char>
    decreases ls.len(),
{
    if ls.len() == 0 {
        Seq::<char>::empty()
    } else {
        strip_lines(ls.drop_last()) + strip_white(ls.last())
    }
}

/// Appends the characters of `s` that are not white space.
fn append_stripped(out: &mut Vec<char>, s: &str)
    ensures
        final(out)@ == old(out)@ + strip_white(s@),
{
    let ghost orig = out@;
    let chars = s.chars();
    proof {
        assert(chars.remaining() == s@);
    }
    for c in it: chars
        invariant
            it.seq() == s@,
            out@ == orig + strip_white(s@.take(it.index() as int)),
    {
        proof {
            assert(s@.take(it.index() + 1).drop_last() == s@.take(it.index() as int));
        }
        if !white(c) {
            out.push(c);
        }
    }
    proof {
        assert(s@.take(s@.len() as int) == s@);
    }
}

fn stripped_lines(lines: &Vec<String>) -> (r: Vec<char>)
    ensures
        r@ == strip_lines(lines.deep_view()),
{
    let ghost v = lines.deep_view();
    let mut out: Vec<char> = Vec::new();
    let mut i: usize = 0;
    while i < lines.len()
        invariant
            i <= lines.len(),
            v == lines.deep_view(),
            v.len() == lines.len(),
            out@ == strip_lines(v.take(i as int)),
        decreases lines.len() - i,
    {
        proof {
            assert(v.take(i + 1).drop_last() == v.take(i as int));
        }
        append_stripped(&mut out, lines[i].as_str());
        proof {
            assert(out@ =~= strip_lines(v.take(i as int)) + strip_white(v[i as int]));
        }
        i += 1;
    }
    proof {
        assert(v.take(v.len() as int) == v);
    }
    out
}

/// Whether the two sides of a hunk differ in white space only.
pub fn is_whitespace_only_diff(hunk: &Hunk) -> (r: bool)
    ensures
        r == (strip_lines(hunk.left_lines.deep_view()) == strip_lines(hunk.right_lines.deep_view())),
{
    let a = stripped_lines(&hunk.left_lines);
    let b = stripped_lines(&hunk.right_lines);
    if a.len() != b.len() {
        return false;
    }
    let mut i: usize = 0;
    while i < a.len()
        invariant
            i <= a@.len() == b@.len(),
            a@ == strip_lines(hunk.left_lines.deep_view()),
            b@ == strip_lines(hunk.right_lines.deep_view()),
            forall|j: int| 0 <= j < i ==> a@[j] == b@[j],
        decreases a.len() - i,
    {
        if a[i] != b[i] {
            proof {
                assert(a@[i as int] != b@[i as int]);
            }
            return false;
        }
        i += 1;
    }
    proof {
        assert(a@ =~= b@);
    }
    true
}

/// How a character is shown when white space is made visible.
pub open spec fn visible(c: char) -> char {
    if c == ' ' {
        '\u{b7}'
    } else if c == '\t' {
        '\u{2192}'
    } else if c == '\n' {
        '\u{21b5}'
    } else if c == '\r' {
        '\u{240d}'
    } else {
        c
    }
}

/// The line with spaces, tabs, newlines and carriage returns replaced by
/// visible marks.
pub fn visualize_whitespace(line: &str) -> (r: String)
    ensures
        r@ == line@.map_values(|c: char| visible(c)),
{
    let mut out = String::new();
    let chars = line.chars();
    proof {
        assert(chars.remaining() == line@);
    }
    for c in it: chars
        invariant
            it.seq() == line@,
            out@ == line@.take(it.index() as int).map_values(|c: char| visible(c)),
    {
        let v = if c == ' ' {
            '\u{b7}'
        } else if c == '\t' {
            '\u{2192}'
        } else if c == '\n' {
            '\u{21b5}'
        } else if c == '\r' {
            '\u{240d}'
        } else {
            c
        };
        push_char(&mut out, v);
        proof {
            assert(line@.take(it.index() + 1).map_values(|c: char| visible(c)) =~= line@.take(
                it.index() as int,
            ).map_values(|c: char| visible(c)).push(visible(c)));
        }
    }
    proof {
        assert(line@.take(line@.len() as int) == line@);
    }
    out
}

} // verus!
