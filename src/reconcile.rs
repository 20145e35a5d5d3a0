//! Reconstruction of both texts from one decision per hunk.
use vstd::prelude::*;

use crate::hunk::{diff_lines, line_diff_ops, span, EditOp, Hunk, HunkChoice};
use crate::hunk::{change_count, hunks_of};
use crate::text::{
    assemble, ends_with_newline, join_lines, lemma_split_assemble, push_char, split_lines, split_text,
};

verus! {

/// The decision for hunk `k`; a hunk without one is skipped.
pub open spec fn choice_at(choices: Seq<HunkChoice>, k: int) -> HunkChoice {
    if 0 <= k < choices.len() {
        choices[k]
    } else {
        HunkChoice::Skip
    }
}

/// The two line buffers after one more operation, and the index of the next
/// hunk.
pub open spec fn merge_step(
    st: (Seq<Seq<char>>, Seq<Seq<char>>, int),
    op: EditOp,
    ll: Seq<Seq<char>>,
    rl: Seq<Seq<char>>,
    choices: Seq<HunkChoice>,
) -> (Seq<Seq<char>>, Seq<Seq<char>>, int) {
    let (a, b, k) = st;
    match op {
        EditOp::Equal { old_index, len, .. } => {
            let s = span(ll, old_index as int, old_index + len);
            (a + s, b + s, k)
        },
        EditOp::Delete { old_index, old_len, .. } => {
            let s = span(ll, old_index as int, old_index + old_len);
            match choice_at(choices, k) {
                HunkChoice::Left => (a + s, b + s, k + 1),
                HunkChoice::Skip => (a + s, b, k + 1),
                HunkChoice::Right => (a, b, k + 1),
            }
        },
        EditOp::Insert { new_index, new_len, .. } => {
            let s = span(rl, new_index as int, new_index + new_len);
            match choice_at(choices, k) {
                HunkChoice::Right => (a + s, b + s, k + 1),
                HunkChoice::Skip => (a, b + s, k + 1),
                HunkChoice::Left => (a, b, k + 1),
            }
        },
        EditOp::Replace { old_index, old_len, new_index, new_len } => {
            let ls = span(ll, old_index as int, old_index + old_len);
            let rs = span(rl, new_index as int, new_index + new_len);
            match choice_at(choices, k) {
                HunkChoice::Left => (a + ls, b + ls, k + 1),
                HunkChoice::Skip => (a + ls, b + rs, k + 1),
                HunkChoice::Right => (a + rs, b + rs, k + 1),
            }
        },
    }
}

/// The two line buffers after all of `ops`, and the number of hunks met.
pub open spec fn merge_ops(
    ops: Seq<EditOp>,
    ll: Seq<Seq<char>>,
    rl: Seq<Seq<char>>,
    choices: Seq<HunkChoice>,
) -> (Seq<Seq<char>>, Seq<Seq<char>>, int)
    decreases ops.len(),
{
    if ops.len() == 0 {
        (Seq::<Seq<char>>::empty(), Seq::<Seq<char>>::empty(), 0)
    } else {
        merge_step(merge_ops(ops.drop_last(), ll, rl, choices), ops.last(), ll, rl, choices)
    }
}

/// The last decision that is not `Skip`, if any.
pub open spec fn last_decisive(choices: Seq<HunkChoice>) -> Option<HunkChoice>
    decreases choices.len(),
{
    if choices.len() == 0 {
        None
    } else if choices.last() != HunkChoice::Skip {
        Some(choices.last())
    } else {
        last_decisive(choices.drop_last())
    }
}

/// Whether each output ends in a newline: both follow the side of the last
/// decisive choice; with none, each side keeps its own.
pub open spec fn trailing_flags(left: Seq<char>, right: Seq<char>, choices: Seq<HunkChoice>) -> (
    bool,
    bool,
) {
    match last_decisive(choices) {
        Some(HunkChoice::Left) => (ends_with_newline(left), ends_with_newline(left)),
        Some(HunkChoice::Right) => (ends_with_newline(right), ends_with_newline(right)),
        _ => (ends_with_newline(left), ends_with_newline(right)),
    }
}

/// The new left and right texts for the given decisions, one per operation
/// that is not `Equal`, in order.
pub open spec fn merged_texts(
    left: Seq<char>,
    right: Seq<char>,
    ops: Seq<EditOp>,
    choices: Seq<HunkChoice>,
) -> (Seq<char>, Seq<char>) {
    let (a, b, _k) = merge_ops(ops, split_lines(left), split_lines(right), choices);
    let (fl, fr) = trailing_flags(left, right, choices);
    (assemble(a, fl), assemble(b, fr))
}

/// Appends to `buf` the lines of `lines` with index in
/// `[start, start + count)` that exist.
fn push_span(buf: &mut Vec<String>, lines: &Vec<String>, start: usize, count: usize)
    ensures
        final(buf).deep_view() == old(buf).deep_view() + span(
            lines.deep_view(),
            start as int,
            start + count,
        ),
{
    let ghost ls = lines.deep_view();
    let ghost orig = buf.deep_view();
    let n = lines.len();
    proof {
        assert(ls.len() == n);
    }
    if start >= n {
        proof {
            assert(orig + span(ls, start as int, start + count) =~= orig);
        }
        return;
    }
    let e = if count >= n - start {
        n
    } else {
        start + count
    };
    let mut i = start;
    while i < e
        invariant
            start <= i <= e <= n == lines.len(),
            ls == lines.deep_view(),
            ls.len() == n,
            buf.deep_view() == orig + ls.subrange(start as int, i as int),
        decreases e - i,
    {
        let s = lines[i].clone();
        let ghost prev = buf.deep_view();
        buf.push(s);
        proof {
            assert(buf.deep_view() =~= prev.push(s@));
            assert(ls.subrange(start as int, i + 1) =~= ls.subrange(start as int, i as int).push(
                ls[i as int],
            ));
        }
        i += 1;
    }
    proof {
        if start < e {
            assert(span(ls, start as int, start + count) == ls.subrange(start as int, e as int));
        } else {
            assert(ls.subrange(start as int, i as int) =~= Seq::<Seq<char>>::empty());
        }
    }
}

/// The lines joined by single newlines, with one more at the end when
/// `trailing` holds and there is a line.
fn join_with_newlines(ls: &Vec<String>, trailing: bool) -> (r: String)
    ensures
        r@ == assemble(ls.deep_view(), trailing),
{
    let ghost v = ls.deep_view();
    let mut out = String::new();
    let mut i: usize = 0;
    while i < ls.len()
        invariant
            i <= ls.len(),
            v == ls.deep_view(),
            v.len() == ls.len(),
            out@ == join_lines(v.take(i as int)),
        decreases ls.len() - i,
    {
        proof {
            assert(v.take(i + 1).drop_last() == v.take(i as int));
        }
        if i > 0 {
            push_char(&mut out, '\n');
        }
        out.append(ls[i].as_str());
        i += 1;
    }
    proof {
        assert(v.take(v.len() as int) == v);
    }
    if trailing && ls.len() > 0 {
        push_char(&mut out, '\n');
    }
    out
}

/// The last decision that is not `Skip`, if any.
fn find_last_decisive(choices: &[HunkChoice]) -> (r: Option<HunkChoice>)
    ensures
        r == last_decisive(choices@),
{
    let mut i = choices.len();
    proof {
        assert(choices@.take(i as int) == choices@);
    }
    while i > 0
        invariant
            i <= choices@.len(),
            last_decisive(choices@) == last_decisive(choices@.take(i as int)),
        decreases i,
    {
        proof {
            assert(choices@.take(i as int).drop_last() == choices@.take(i - 1));
        }
        if choices[i - 1] != HunkChoice::Skip {
            return Some(choices[i - 1]);
        }
        i -= 1;
    }
    None
}

/// The new left and right texts under a given line alignment, for one
/// decision per operation that is not `Equal`, in order. A missing decision
/// counts as `Skip`; line indices out of range are left out.
pub fn apply_choices_with_ops(
    left_content: &str,
    right_content: &str,
    ops: &[EditOp],
    choices: &[HunkChoice],
) -> (r: (String, String))
    ensures
        (r.0@, r.1@) == merged_texts(left_content@, right_content@, ops@, choices@),
{
    let (ll, lnl) = split_text(left_content);
    let (rl, rnl) = split_text(right_content);
    let ghost lv = split_lines(left_content@);
    let ghost rv = split_lines(right_content@);
    let mut a: Vec<String> = Vec::new();
    let mut b: Vec<String> = Vec::new();
    let mut k: usize = 0;
    let mut i: usize = 0;
    while i < ops.len()
        invariant
            i <= ops@.len(),
            k <= i,
            ll.deep_view() == lv,
            rl.deep_view() == rv,
            (a.deep_view(), b.deep_view(), k as int) == merge_ops(
                ops@.take(i as int),
                lv,
                rv,
                choices@,
            ),
        decreases ops.len() - i,
    {
        proof {
            assert(ops@.take(i + 1).drop_last() == ops@.take(i as int));
        }
        let choice = if k < choices.len() {
            choices[k]
        } else {
            HunkChoice::Skip
        };
        match ops[i] {
            EditOp::Equal { old_index, len, .. } => {
                push_span(&mut a, &ll, old_index, len);
                push_span(&mut b, &ll, old_index, len);
            },
            EditOp::Delete { old_index, old_len, .. } => {
                match choice {
                    HunkChoice::Left => {
                        push_span(&mut a, &ll, old_index, old_len);
                        push_span(&mut b, &ll, old_index, old_len);
                    },
                    HunkChoice::Skip => {
                        push_span(&mut a, &ll, old_index, old_len);
                    },
                    HunkChoice::Right => {},
                }
                k += 1;
            },
            EditOp::Insert { new_index, new_len, .. } => {
                match choice {
                    HunkChoice::Right => {
                        push_span(&mut a, &rl, new_index, new_len);
                        push_span(&mut b, &rl, new_index, new_len);
                    },
                    HunkChoice::Skip => {
                        push_span(&mut b, &rl, new_index, new_len);
                    },
                    HunkChoice::Left => {},
                }
                k += 1;
            },
            EditOp::Replace { old_index, old_len, new_index, new_len } => {
                match choice {
                    HunkChoice::Left => {
                        push_span(&mut a, &ll, old_index, old_len);
                        push_span(&mut b, &ll, old_index, old_len);
                    },
                    HunkChoice::Skip => {
                        push_span(&mut a, &ll, old_index, old_len);
                        push_span(&mut b, &rl, new_index, new_len);
                    },
                    HunkChoice::Right => {
                        push_span(&mut a, &rl, new_index, new_len);
                        push_span(&mut b, &rl, new_index, new_len);
                    },
                }
                k += 1;
            },
        }
        i += 1;
    }
    proof {
        assert(ops@.take(ops@.len() as int) == ops@);
    }
    let (fl, fr) = match find_last_decisive(choices) {
        Some(HunkChoice::Left) => (lnl, lnl),
        Some(HunkChoice::Right) => (rnl, rnl),
        _ => (lnl, rnl),
    };
    (join_with_newlines(&a, fl), join_with_newlines(&b, fr))
}

/// The new left and right texts for one decision per hunk of the line diff
/// of the two texts, in hunk order. The hunks themselves are not read: the
/// diff is computed again, so that decisions line up with operations.
pub fn apply_hunk_choices(
    left_content: &str,
    right_content: &str,
    _hunks: &[Hunk],
    choices: &[HunkChoice],
) -> (r: (String, String))
    ensures
        (r.0@, r.1@) == merged_texts(
            left_content@,
            right_content@,
            line_diff_ops(left_content@, right_content@),
            choices@,
        ),
{
    let ops = diff_lines(left_content, right_content);
    apply_choices_with_ops(left_content, right_content, ops.as_slice(), choices)
}

/// Start and length of the left-side range of an operation.
pub open spec fn old_range(op: EditOp) -> (int, int) {
    match op {
        EditOp::Equal { old_index, len, .. } => (old_index as int, len as int),
        EditOp::Delete { old_index, old_len, .. } => (old_index as int, old_len as int),
        EditOp::Insert { old_index, .. } => (old_index as int, 0),
        EditOp::Replace { old_index, old_len, .. } => (old_index as int, old_len as int),
    }
}

/// Start and length of the right-side range of an operation.
pub open spec fn new_range(op: EditOp) -> (int, int) {
    match op {
        EditOp::Equal { new_index, len, .. } => (new_index as int, len as int),
        EditOp::Delete { new_index, .. } => (new_index as int, 0),
        EditOp::Insert { new_index, new_len, .. } => (new_index as int, new_len as int),
        EditOp::Replace { new_index, new_len, .. } => (new_index as int, new_len as int),
    }
}

/// How far along each side the operations reach.
pub open spec fn reach(ops: Seq<EditOp>) -> (int, int) {
    if ops.len() == 0 {
        (0, 0)
    } else {
        (
            old_range(ops.last()).0 + old_range(ops.last()).1,
            new_range(ops.last()).0 + new_range(ops.last()).1,
        )
    }
}

/// Each operation starts where the one before it ends, on both sides.
pub open spec fn chained(ops: Seq<EditOp>) -> bool
    decreases ops.len(),
{
    if ops.len() == 0 {
        true
    } else {
        &&& chained(ops.drop_last())
        &&& old_range(ops.last()).0 == reach(ops.drop_last()).0
        &&& new_range(ops.last()).0 == reach(ops.drop_last()).1
    }
}

/// The operations are a line alignment of `ll` and `rl`: contiguous, in
/// order, covering both sides, and each `Equal` run holds equal lines.
pub open spec fn aligns(ops: Seq<EditOp>, ll: Seq<Seq<char>>, rl: Seq<Seq<char>>) -> bool {
    &&& chained(ops)
    &&& reach(ops) == (ll.len() as int, rl.len() as int)
    &&& forall|i: int|
        0 <= i < ops.len() && (#[trigger] ops[i]) is Equal ==> ll.subrange(
            old_range(ops[i]).0,
            old_range(ops[i]).0 + old_range(ops[i]).1,
        ) == rl.subrange(new_range(ops[i]).0, new_range(ops[i]).0 + new_range(ops[i]).1)
}

proof fn lemma_span_extend(ls: Seq<Seq<char>>, s: int, len: int)
    requires
        0 <= s,
        0 <= len,
        s + len <= ls.len(),
    ensures
        ls.take(s) + span(ls, s, s + len) == ls.take(s + len),
{
    if len == 0 {
        assert(ls.take(s) + span(ls, s, s + len) =~= ls.take(s + len));
    } else {
        assert(ls.take(s) + ls.subrange(s, s + len) =~= ls.take(s + len));
    }
}

/// Merging under a choice `c` taken for every hunk: `Left` gives the left
/// lines on both sides, `Right` the right lines, `Skip` each side its own.
proof fn lemma_uniform_merge(
    ops: Seq<EditOp>,
    ll: Seq<Seq<char>>,
    rl: Seq<Seq<char>>,
    choices: Seq<HunkChoice>,
    c: HunkChoice,
)
    requires
        chained(ops),
        reach(ops).0 <= ll.len(),
        reach(ops).1 <= rl.len(),
        forall|i: int|
            0 <= i < ops.len() && (#[trigger] ops[i]) is Equal ==> ll.subrange(
                old_range(ops[i]).0,
                old_range(ops[i]).0 + old_range(ops[i]).1,
            ) == rl.subrange(new_range(ops[i]).0, new_range(ops[i]).0 + new_range(ops[i]).1),
        forall|k: int| 0 <= k < change_count(ops) ==> choice_at(choices, k) == c,
    ensures
        merge_ops(ops, ll, rl, choices) == (match c {
            HunkChoice::Left => (ll.take(reach(ops).0), ll.take(reach(ops).0), change_count(ops) as int),
            HunkChoice::Right => (rl.take(reach(ops).1), rl.take(reach(ops).1), change_count(ops) as int),
            HunkChoice::Skip => (ll.take(reach(ops).0), rl.take(reach(ops).1), change_count(ops) as int),
        }),
    decreases ops.len(),
{
    if ops.len() == 0 {
        assert(ll.take(0) =~= Seq::<Seq<char>>::empty());
        assert(rl.take(0) =~= Seq::<Seq<char>>::empty());
    } else {
        let p = ops.drop_last();
        let op = ops.last();
        assert forall|i: int| 0 <= i < p.len() && (#[trigger] p[i]) is Equal implies ll.subrange(
            old_range(p[i]).0,
            old_range(p[i]).0 + old_range(p[i]).1,
        ) == rl.subrange(new_range(p[i]).0, new_range(p[i]).0 + new_range(p[i]).1) by {
            assert(p[i] == ops[i]);
        }
        lemma_uniform_merge(p, ll, rl, choices, c);
        let (o0, o1) = old_range(op);
        let (n0, n1) = new_range(op);
        lemma_span_extend(ll, o0, o1);
        lemma_span_extend(rl, n0, n1);
        let st = merge_ops(p, ll, rl, choices);
        let kp = change_count(p);
        assert(st.2 == kp);
        assert(o0 == reach(p).0 && n0 == reach(p).1);
        assert(ll.take(o0) + Seq::<Seq<char>>::empty() == ll.take(o0));
        assert(rl.take(n0) + Seq::<Seq<char>>::empty() == rl.take(n0));
        if op is Equal {
            assert(ops[ops.len() - 1] == op);
            assert(span(ll, o0, o0 + o1) == span(rl, n0, n0 + n1));
            assert(change_count(ops) == kp);
        } else {
            assert(change_count(ops) == kp + 1);
            assert(choice_at(choices, kp as int) == c);
            assert(merge_ops(ops, ll, rl, choices) == merge_step(st, op, ll, rl, choices));
            if op is Delete {
                assert(n1 == 0);
            } else if op is Insert {
                assert(o1 == 0);
            }
        }
    }
}

/// Choosing `Left` for every hunk of an alignment of two texts makes both
/// new texts equal to the original left text.
pub proof fn lemma_all_left(left: Seq<char>, right: Seq<char>, ops: Seq<EditOp>, choices: Seq<HunkChoice>)
    requires
        aligns(ops, split_lines(left), split_lines(right)),
        choices.len() >= change_count(ops),
        choices.len() > 0,
        forall|k: int| 0 <= k < choices.len() ==> choices[k] == HunkChoice::Left,
    ensures
        merged_texts(left, right, ops, choices) == (left, left),
{
    let ll = split_lines(left);
    lemma_uniform_merge(ops, ll, split_lines(right), choices, HunkChoice::Left);
    assert(ll.take(ll.len() as int) == ll);
    assert(choices.last() == HunkChoice::Left);
    lemma_split_assemble(left);
}

/// Choosing `Right` for every hunk of an alignment of two texts makes both
/// new texts equal to the original right text.
pub proof fn lemma_all_right(left: Seq<char>, right: Seq<char>, ops: Seq<EditOp>, choices: Seq<HunkChoice>)
    requires
        aligns(ops, split_lines(left), split_lines(right)),
        choices.len() >= change_count(ops),
        choices.len() > 0,
        forall|k: int| 0 <= k < choices.len() ==> choices[k] == HunkChoice::Right,
    ensures
        merged_texts(left, right, ops, choices) == (right, right),
{
    let rl = split_lines(right);
    lemma_uniform_merge(ops, split_lines(left), rl, choices, HunkChoice::Right);
    assert(rl.take(rl.len() as int) == rl);
    assert(choices.last() == HunkChoice::Right);
    lemma_split_assemble(right);
}

proof fn lemma_no_decisive(choices: Seq<HunkChoice>)
    requires
        forall|k: int| 0 <= k < choices.len() ==> choices[k] == HunkChoice::Skip,
    ensures
        last_decisive(choices) is None,
    decreases choices.len(),
{
    if choices.len() > 0 {
        lemma_no_decisive(choices.drop_last());
    }
}

/// Skipping every hunk of an alignment of two texts (any number of `Skip`
/// decisions, none included) leaves both texts as they were.
pub proof fn lemma_all_skip(left: Seq<char>, right: Seq<char>, ops: Seq<EditOp>, choices: Seq<HunkChoice>)
    requires
        aligns(ops, split_lines(left), split_lines(right)),
        forall|k: int| 0 <= k < choices.len() ==> choices[k] == HunkChoice::Skip,
    ensures
        merged_texts(left, right, ops, choices) == (left, right),
{
    let ll = split_lines(left);
    let rl = split_lines(right);
    lemma_uniform_merge(ops, ll, rl, choices, HunkChoice::Skip);
    assert(ll.take(ll.len() as int) == ll);
    assert(rl.take(rl.len() as int) == rl);
    lemma_no_decisive(choices);
    lemma_split_assemble(left);
    lemma_split_assemble(right);
}

/// Hunk extraction and reconciliation count hunks alike: the `k`-th
/// decision belongs to the `k`-th extracted hunk.
pub proof fn lemma_hunk_count(ops: Seq<EditOp>, left: Seq<char>, right: Seq<char>, ctx: int)
    ensures
        hunks_of(ops, left, right, ctx).len() == change_count(ops),
        merge_ops(ops, split_lines(left), split_lines(right), Seq::<HunkChoice>::empty()).2
            == change_count(ops),
    decreases ops.len(),
{
    if ops.len() > 0 {
        lemma_hunk_count(ops.drop_last(), left, right, ctx);
    }
}

} // verus!
