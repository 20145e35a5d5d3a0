//! Hunks: the reviewable units of a line-level difference, and the
//! reconstruction of both texts from one decision per hunk.
use similar::{DiffOp, TextDiff};
use vstd::prelude::*;

use crate::text::{ends_with_newline, push_char, render_line, split_lines, split_text};

verus! {

/// One unit of a line alignment between an old (left) and a new (right)
/// text, over 0-based line indices.
#[derive(Debug, Clone, Copy, PartialEq, Eq, Structural)]
pub enum EditOp {
    /// `len` lines equal on both sides.
    Equal { old_index: usize, new_index: usize, len: usize },
    /// `old_len` lines of the left side that the right side lacks, at
    /// `new_index` of the right side.
    Delete { old_index: usize, old_len: usize, new_index: usize },
    /// `new_len` lines of the right side that the left side lacks, at
    /// `old_index` of the left side.
    Insert { old_index: usize, new_index: usize, new_len: usize },
    /// `old_len` lines of the left side that stand where `new_len` lines
    /// of the right side stand.
    Replace { old_index: usize, old_len: usize, new_index: usize, new_len: usize },
}

/// The decision taken on one hunk.
#[derive(Debug, Clone, Copy, PartialEq, Eq, Structural)]
pub enum HunkChoice {
    /// Use the left version (both sides get it).
    Left,
    /// Use the right version (both sides get it).
    Right,
    /// Leave each side as it is.
    Skip,
}

/// A contiguous block of changed lines, with surrounding context. Every line
/// holds its newline, but for the last line of a text that has none.
#[derive(Debug, Clone)]
pub struct Hunk {
    /// Starting line in the left text (0-based).
    pub left_start: usize,
    /// Number of lines from the left text.
    pub left_count: usize,
    /// Starting line in the right text (0-based).
    pub right_start: usize,
    /// Number of lines from the right text.
    pub right_count: usize,
    /// Lines of the left text in the change.
    pub left_lines: Vec<String>,
    /// Lines of the right text in the change.
    pub right_lines: Vec<String>,
    /// Lines of the left text just before the change.
    pub context_before: Vec<String>,
    /// Lines of the left text just after the change.
    pub context_after: Vec<String>,
}

/// What a hunk holds, with its lines as character sequences.
pub struct HunkModel {
    pub left_start: int,
    pub left_count: int,
    pub right_start: int,
    pub right_count: int,
    pub left_lines: Seq<Seq<char>>,
    pub right_lines: Seq<Seq<char>>,
    pub context_before: Seq<Seq<char>>,
    pub context_after: Seq<Seq<char>>,
}

impl View for Hunk {
    type V = HunkModel;

    open spec fn view(&self) -> HunkModel {
        HunkModel {
            left_start: self.left_start as int,
            left_count: self.left_count as int,
            right_start: self.right_start as int,
            right_count: self.right_count as int,
            left_lines: self.left_lines.deep_view(),
            right_lines: self.right_lines.deep_view(),
            context_before: self.context_before.deep_view(),
            context_after: self.context_after.deep_view(),
        }
    }
}

/// The line alignment of two texts that similar's Myers diff computes: one
/// operation per run of equal, deleted, inserted or replaced lines. It
/// depends on the two texts alone.
pub uninterp spec fn line_diff_ops(old: Seq<char>, new: Seq<char>) -> Seq<EditOp>;

/// Relies on `similar::TextDiff::from_lines` and its `ops`: the operations
/// of the line diff of the two texts, with the default configuration (Myers,
/// no deadline), so that the result depends on the texts alone.
#[verifier::external_body]
pub(crate) fn diff_lines(old: &str, new: &str) -> (r: Vec<EditOp>)
    ensures
        r@ == line_diff_ops(old@, new@),
{
    TextDiff::from_lines(old, new).ops().iter().map(|op| match *op {
        DiffOp::Equal { old_index, new_index, len } => EditOp::Equal { old_index, new_index, len },
        DiffOp::Delete { old_index, old_len, new_index } => EditOp::Delete { old_index, old_len, new_index },
        DiffOp::Insert { old_index, new_index, new_len } => EditOp::Insert { old_index, new_index, new_len },
        DiffOp::Replace { old_index, old_len, new_index, new_len } => {
            EditOp::Replace { old_index, old_len, new_index, new_len }
        },
    }).collect()
}

/// The end of the index range `[start, end)` once cut to `n` lines.
pub open spec fn clip_end(n: int, end: int) -> int {
    if end < n {
        end
    } else {
        n
    }
}

/// The lines of `ls` with index in `[start, end)`; indices out of range are
/// left out.
pub open spec fn span(ls: Seq<Seq<char>>, start: int, end: int) -> Seq<Seq<char>> {
    let e = clip_end(ls.len() as int, end);
    if start < e {
        ls.subrange(start, e)
    } else {
        Seq::<Seq<char>>::empty()
    }
}

/// The lines of `ls` with index in `[start, end)`, rendered as they stand in
/// a text that ends in a newline exactly when `nl` holds.
pub open spec fn rendered_span(ls: Seq<Seq<char>>, nl: bool, start: int, end: int) -> Seq<
    Seq<char>,
> {
    let e = clip_end(ls.len() as int, end);
    if start < e {
        Seq::new((e - start) as nat, |k: int| render_line(ls, start + k, nl))
    } else {
        Seq::<Seq<char>>::empty()
    }
}

/// `a - b`, or 0 where that is negative.
pub open spec fn floor_sub(a: int, b: int) -> int {
    if a >= b {
        a - b
    } else {
        0
    }
}

/// The hunk that a change operation gives over the lines `ll` and `rl` of
/// two texts (ending in a newline when `lnl`, `rnl` hold), with `ctx` lines of
/// context.
pub open spec fn hunk_of(
    op: EditOp,
    ll: Seq<Seq<char>>,
    lnl: bool,
    rl: Seq<Seq<char>>,
    rnl: bool,
    ctx: int,
) -> HunkModel {
    match op {
        EditOp::Delete { old_index, old_len, new_index } => HunkModel {
            left_start: old_index as int,
            left_count: old_len as int,
            right_start: new_index as int,
            right_count: 0,
            left_lines: rendered_span(ll, lnl, old_index as int, old_index + old_len),
            right_lines: Seq::<Seq<char>>::empty(),
            context_before: rendered_span(ll, lnl, floor_sub(old_index as int, ctx), old_index as int),
            context_after: rendered_span(ll, lnl, old_index + old_len, old_index + old_len + ctx),
        },
        EditOp::Insert { old_index, new_index, new_len } => HunkModel {
            left_start: old_index as int,
            left_count: 0,
            right_start: new_index as int,
            right_count: new_len as int,
            left_lines: Seq::<Seq<char>>::empty(),
            right_lines: rendered_span(rl, rnl, new_index as int, new_index + new_len),
            context_before: rendered_span(ll, lnl, floor_sub(old_index as int, ctx), old_index as int),
            context_after: rendered_span(ll, lnl, old_index as int, old_index + ctx),
        },
        EditOp::Replace { old_index, old_len, new_index, new_len } => HunkModel {
            left_start: old_index as int,
            left_count: old_len as int,
            right_start: new_index as int,
            right_count: new_len as int,
            left_lines: rendered_span(ll, lnl, old_index as int, old_index + old_len),
            right_lines: rendered_span(rl, rnl, new_index as int, new_index + new_len),
            context_before: rendered_span(ll, lnl, floor_sub(old_index as int, ctx), old_index as int),
            context_after: rendered_span(ll, lnl, old_index + old_len, old_index + old_len + ctx),
        },
        EditOp::Equal { old_index, new_index, len } => HunkModel {
            left_start: old_index as int,
            left_count: len as int,
            right_start: new_index as int,
            right_count: len as int,
            left_lines: Seq::<Seq<char>>::empty(),
            right_lines: Seq::<Seq<char>>::empty(),
            context_before: Seq::<Seq<char>>::empty(),
            context_after: Seq::<Seq<char>>::empty(),
        },
    }
}

/// One hunk per operation that is not `Equal`, in operation order.
pub open spec fn hunks_of(ops: Seq<EditOp>, left: Seq<char>, right: Seq<char>, ctx: int) -> Seq<
    HunkModel,
>
    decreases ops.len(),
{
    if ops.len() == 0 {
        Seq::<HunkModel>::empty()
    } else {
        let before = hunks_of(ops.drop_last(), left, right, ctx);
        if ops.last() is Equal {
            before
        } else {
            before.push(
                hunk_of(
                    ops.last(),
                    split_lines(left),
                    ends_with_newline(left),
                    split_lines(right),
                    ends_with_newline(right),
                    ctx,
                ),
            )
        }
    }
}

/// The number of operations that are not `Equal`: the number of hunks.
pub open spec fn change_count(ops: Seq<EditOp>) -> nat
    decreases ops.len(),
{
    if ops.len() == 0 {
        0
    } else if ops.last() is Equal {
        change_count(ops.drop_last())
    } else {
        change_count(ops.drop_last()) + 1
    }
}

/// A line as it stands in a text of `total_lines` lines: with its newline,
/// but for the last line of a text that does not end in one.
pub fn format_line_with_newline(
    line: &str,
    index: usize,
    total_lines: usize,
    content_ends_with_newline: bool,
) -> (r: String)
    ensures
        r@ == (if total_lines > 0 && index == total_lines - 1 && !content_ends_with_newline {
            line@
        } else {
            line@.push('\n')
        }),
{
    let mut s = line.to_owned();
    if !(total_lines > 0 && index == total_lines - 1 && !content_ends_with_newline) {
        push_char(&mut s, '\n');
    }
    s
}

/// `a + b`, or `usize::MAX` where that does not fit.
fn saturating_sum(a: usize, b: usize) -> (r: usize)
    ensures
        r == (if a + b <= usize::MAX { a + b } else { usize::MAX as int }),
{
    if a > usize::MAX - b {
        usize::MAX
    } else {
        a + b
    }
}

/// The lines with index in `[start, end)` that exist, rendered.
fn render_span(lines: &Vec<String>, nl: bool, start: usize, end: usize) -> (r: Vec<String>)
    ensures
        r.deep_view() == rendered_span(lines.deep_view(), nl, start as int, end as int),
{
    let ghost ls = lines.deep_view();
    let n = lines.len();
    let e = if end < n {
        end
    } else {
        n
    };
    let mut out: Vec<String> = Vec::new();
    if start >= e {
        return out;
    }
    let mut i = start;
    while i < e
        invariant
            start <= i <= e <= n == lines.len(),
            ls == lines.deep_view(),
            out.deep_view() == Seq::new((i - start) as nat, |k: int| render_line(ls, start + k, nl)),
        decreases e - i,
    {
        let s = format_line_with_newline(lines[i].as_str(), i, n, nl);
        proof {
            assert(lines[i as int]@ == ls[i as int]);
            assert(s@ == render_line(ls, i as int, nl));
        }
        let ghost prev = out.deep_view();
        out.push(s);
        proof {
            assert(out.deep_view() =~= prev.push(s@));
        }
        i += 1;
        proof {
            assert(out.deep_view() =~= Seq::new(
                (i - start) as nat,
                |k: int| render_line(ls, start + k, nl),
            ));
        }
    }
    out
}

/// Cutting at the number of lines makes all ends past it the same.
proof fn lemma_rendered_span_cut(ls: Seq<Seq<char>>, nl: bool, s1: int, e1: int, s2: int, e2: int)
    requires
        s1 == s2 || (s1 >= ls.len() && s2 >= ls.len()),
        e1 == e2 || (e1 >= ls.len() && e2 >= ls.len()),
    ensures
        rendered_span(ls, nl, s1, e1) == rendered_span(ls, nl, s2, e2),
{
}

/// The hunk of one change operation.
fn make_hunk(
    op: EditOp,
    ll: &Vec<String>,
    lnl: bool,
    rl: &Vec<String>,
    rnl: bool,
    ctx: usize,
) -> (h: Hunk)
    requires
        !(op is Equal),
    ensures
        h@ == hunk_of(op, ll.deep_view(), lnl, rl.deep_view(), rnl, ctx as int),
{
    proof {
        assert(ll.deep_view().len() == ll.len());
        assert(rl.deep_view().len() == rl.len());
    }
    match op {
        EditOp::Delete { old_index, old_len, new_index } => {
            let before_start = if old_index >= ctx {
                old_index - ctx
            } else {
                0
            };
            let after_start = saturating_sum(old_index, old_len);
            let after_end = saturating_sum(after_start, ctx);
            proof {
                lemma_rendered_span_cut(ll.deep_view(), lnl, old_index as int, after_start as int, old_index as int, old_index + old_len);
                lemma_rendered_span_cut(ll.deep_view(), lnl, after_start as int, after_end as int, old_index + old_len, old_index + old_len + ctx);
            }
            let right_lines: Vec<String> = Vec::new();
            proof {
                assert(right_lines.deep_view() =~= Seq::<Seq<char>>::empty());
            }
            Hunk {
                left_start: old_index,
                left_count: old_len,
                right_start: new_index,
                right_count: 0,
                left_lines: render_span(ll, lnl, old_index, after_start),
                right_lines,
                context_before: render_span(ll, lnl, before_start, old_index),
                context_after: render_span(ll, lnl, after_start, after_end),
            }
        },
        EditOp::Insert { old_index, new_index, new_len } => {
            let before_start = if old_index >= ctx {
                old_index - ctx
            } else {
                0
            };
            let right_end = saturating_sum(new_index, new_len);
            let after_end = saturating_sum(old_index, ctx);
            let left_lines: Vec<String> = Vec::new();
            proof {
                assert(left_lines.deep_view() =~= Seq::<Seq<char>>::empty());
            }
            proof {
                lemma_rendered_span_cut(rl.deep_view(), rnl, new_index as int, right_end as int, new_index as int, new_index + new_len);
                lemma_rendered_span_cut(ll.deep_view(), lnl, old_index as int, after_end as int, old_index as int, old_index + ctx);
            }
            Hunk {
                left_start: old_index,
                left_count: 0,
                right_start: new_index,
                right_count: new_len,
                left_lines,
                right_lines: render_span(rl, rnl, new_index, right_end),
                context_before: render_span(ll, lnl, before_start, old_index),
                context_after: render_span(ll, lnl, old_index, after_end),
            }
        },
        EditOp::Replace { old_index, old_len, new_index, new_len } => {
            let before_start = if old_index >= ctx {
                old_index - ctx
            } else {
                0
            };
            let after_start = saturating_sum(old_index, old_len);
            let after_end = saturating_sum(after_start, ctx);
            let right_end = saturating_sum(new_index, new_len);
            proof {
                lemma_rendered_span_cut(ll.deep_view(), lnl, old_index as int, after_start as int, old_index as int, old_index + old_len);
                lemma_rendered_span_cut(ll.deep_view(), lnl, after_start as int, after_end as int, old_index + old_len, old_index + old_len + ctx);
                lemma_rendered_span_cut(rl.deep_view(), rnl, new_index as int, right_end as int, new_index as int, new_index + new_len);
            }
            Hunk {
                left_start: old_index,
                left_count: old_len,
                right_start: new_index,
                right_count: new_len,
                left_lines: render_span(ll, lnl, old_index, after_start),
                right_lines: render_span(rl, rnl, new_index, right_end),
                context_before: render_span(ll, lnl, before_start, old_index),
                context_after: render_span(ll, lnl, after_start, after_end),
            }
        },
        EditOp::Equal { .. } => {
            Hunk {
                left_start: 0,
                left_count: 0,
                right_start: 0,
                right_count: 0,
                left_lines: Vec::new(),
                right_lines: Vec::new(),
                context_before: Vec::new(),
                context_after: Vec::new(),
            }
        },
    }
}

/// The hunks of two texts under a given line alignment: one per operation
/// that is not `Equal`, in operation order, with up to `context_lines` lines
/// of the left text around each.
pub fn extract_hunks_with_ops(
    left_content: &str,
    right_content: &str,
    ops: &[EditOp],
    context_lines: usize,
) -> (r: Vec<Hunk>)
    ensures
        r@.map_values(|h: Hunk| h@) == hunks_of(
            ops@,
            left_content@,
            right_content@,
            context_lines as int,
        ),
{
    let (ll, lnl) = split_text(left_content);
    let (rl, rnl) = split_text(right_content);
    let mut hunks: Vec<Hunk> = Vec::new();
    let mut i: usize = 0;
    while i < ops.len()
        invariant
            i <= ops@.len(),
            ll.deep_view() == split_lines(left_content@),
            rl.deep_view() == split_lines(right_content@),
            lnl == ends_with_newline(left_content@),
            rnl == ends_with_newline(right_content@),
            hunks@.map_values(|h: Hunk| h@) == hunks_of(
                ops@.take(i as int),
                left_content@,
                right_content@,
                context_lines as int,
            ),
        decreases ops.len() - i,
    {
        let op = ops[i];
        proof {
            assert(ops@.take(i + 1).drop_last() == ops@.take(i as int));
        }
        if !matches!(op, EditOp::Equal { .. }) {
            let h = make_hunk(op, &ll, lnl, &rl, rnl, context_lines);
            let ghost prev = hunks@;
            hunks.push(h);
            proof {
                assert(hunks@.map_values(|h: Hunk| h@) =~= prev.map_values(|h: Hunk| h@).push(h@));
            }
        }
        i += 1;
    }
    proof {
        assert(ops@.take(ops@.len() as int) == ops@);
    }
    hunks
}

/// The hunks between two texts: one per change of their line diff, in
/// order, with up to `context_lines` lines of the left text around each.
pub fn extract_hunks(left_content: &str, right_content: &str, context_lines: usize) -> (r: Vec<
    Hunk,
>)
    ensures
        r@.map_values(|h: Hunk| h@) == hunks_of(
            line_diff_ops(left_content@, right_content@),
            left_content@,
            right_content@,
            context_lines as int,
        ),
{
    let ops = diff_lines(left_content, right_content);
    extract_hunks_with_ops(left_content, right_content, ops.as_slice(), context_lines)
}

} // verus!
