//! Texts as sequences of lines, under the trailing-newline rule.
use vstd::prelude::*;
use vstd::std_specs::iter::IteratorSpec;

verus! {

/// The pieces of `t` between newline characters; always at least one.
pub open spec fn pieces(t: Seq<char>) -> Seq<Seq<char>>
    decreases t.len(),
{
    if t.len() == 0 {
        seq![Seq::<char>::empty()]
    } else {
        let before = pieces(t.drop_last());
        if t.last() == '\n' {
            before.push(Seq::<char>::empty())
        } else {
            before.update(before.len() - 1, before.last().push(t.last()))
        }
    }
}

/// Whether the text ends in a newline character.
pub open spec fn ends_with_newline(t: Seq<char>) -> bool {
    t.len() > 0 && t.last() == '\n'
}

/// The lines of `t`, each without its newline; a final newline does not open
/// an empty last line, and the empty text has no lines.
pub open spec fn split_lines(t: Seq<char>) -> Seq<Seq<char>> {
    if t.len() == 0 {
        Seq::<Seq<char>>::empty()
    } else if ends_with_newline(t) {
        pieces(t).drop_last()
    } else {
        pieces(t)
    }
}

/// Lines joined with a single newline between neighbours.
pub open spec fn join_lines(ls: Seq<Seq<char>>) -> Seq<char>
    decreases ls.len(),
{
    if ls.len() == 0 {
        Seq::<char>::empty()
    } else if ls.len() == 1 {
        ls[0]
    } else {
        join_lines(ls.drop_last()) + seq!['\n'] + ls.last()
    }
}

/// Lines joined, with one more newline at the end when `trailing` holds and
/// there is at least one line.
pub open spec fn assemble(ls: Seq<Seq<char>>, trailing: bool) -> Seq<char> {
    if trailing && ls.len() > 0 {
        join_lines(ls) + seq!['\n']
    } else {
        join_lines(ls)
    }
}

/// Line `i` of a text of `ls` lines as it stands in the text: with its
/// newline, but for the last line of a text that does not end in one.
pub open spec fn render_line(ls: Seq<Seq<char>>, i: int, ends_nl: bool) -> Seq<char> {
    if i == ls.len() - 1 && !ends_nl {
        ls[i]
    } else {
        ls[i].push('\n')
    }
}

/// All lines of `t`, each rendered as it stands in `t`.
pub open spec fn rendered_lines(t: Seq<char>) -> Seq<Seq<char>> {
    let ls = split_lines(t);
    Seq::new(ls.len(), |i: int| render_line(ls, i, ends_with_newline(t)))
}

/// Concatenation of a sequence of strings.
pub open spec fn concat(ls: Seq<Seq<char>>) -> Seq<char>
    decreases ls.len(),
{
    if ls.len() == 0 {
        Seq::<char>::empty()
    } else {
        concat(ls.drop_last()) + ls.last()
    }
}

pub proof fn lemma_pieces_nonempty(t: Seq<char>)
    ensures
        pieces(t).len() >= 1,
    decreases t.len(),
{
    if t.len() > 0 {
        lemma_pieces_nonempty(t.drop_last());
    }
}

/// Joining the pieces of a text gives the text back.
pub proof fn lemma_join_pieces(t: Seq<char>)
    ensures
        join_lines(pieces(t)) == t,
    decreases t.len(),
{
    if t.len() > 0 {
        let u = t.drop_last();
        lemma_join_pieces(u);
        lemma_pieces_nonempty(u);
        let p = pieces(u);
        if t.last() == '\n' {
            assert(pieces(t) == p.push(Seq::<char>::empty()));
            assert(pieces(t).drop_last() == p);
            assert(join_lines(pieces(t)) == join_lines(p) + seq!['\n'] + Seq::<char>::empty());
            assert(t == u.push('\n'));
        } else {
            let q = p.update(p.len() - 1, p.last().push(t.last()));
            assert(pieces(t) == q);
            if p.len() == 1 {
                assert(join_lines(q) == q[0]);
                assert(t == u.push(t.last()));
            } else {
                assert(q.drop_last() == p.drop_last());
                assert(join_lines(q) == join_lines(p.drop_last()) + seq!['\n'] + p.last().push(
                    t.last(),
                ));
                assert(t == u.push(t.last()));
            }
        }
    }
}


/// Rendering every line of `ls` and concatenating gives the lines joined, with
/// a final newline exactly when the last line is rendered with one.
pub proof fn lemma_concat_rendered(ls: Seq<Seq<char>>, nl: bool)
    ensures
        concat(Seq::new(ls.len(), |i: int| render_line(ls, i, nl))) == assemble(ls, nl),
    decreases ls.len(),
{
    let r = Seq::new(ls.len(), |i: int| render_line(ls, i, nl));
    if ls.len() > 0 {
        let ls2 = ls.drop_last();
        let r2 = Seq::new(ls2.len(), |i: int| render_line(ls2, i, true));
        lemma_concat_rendered(ls2, true);
        assert(r.drop_last() == r2);
        assert(concat(r) == concat(r2) + r.last());
        if ls2.len() == 0 {
            assert(concat(r2) == Seq::<char>::empty());
            assert(join_lines(ls) == ls[0]);
            assert(concat(r) == r.last());
        } else {
            assert(join_lines(ls) == join_lines(ls2) + seq!['\n'] + ls.last());
        }
    }
}

/// Splitting a text into lines and joining them again under the
/// trailing-newline rule reproduces the text exactly, the empty text included.
pub proof fn lemma_split_assemble(t: Seq<char>)
    ensures
        assemble(split_lines(t), ends_with_newline(t)) == t,
{
    lemma_join_pieces(t);
    if t.len() > 0 && ends_with_newline(t) {
        let u = t.drop_last();
        lemma_join_pieces(u);
        lemma_pieces_nonempty(u);
        assert(pieces(t).drop_last() == pieces(u));
        assert(t == u + seq!['\n']);
    }
}

/// Rendering each line of a text as it stands there (with its newline, but
/// for a last line that has none) and concatenating the lines in order
/// reproduces the text exactly, the empty text included.
pub proof fn lemma_render_round_trip(t: Seq<char>)
    ensures
        concat(rendered_lines(t)) == t,
{
    lemma_concat_rendered(split_lines(t), ends_with_newline(t));
    lemma_split_assemble(t);
}

/// Relies on `String::push`: appends one character at the end.
#[verifier::external_body]
pub(crate) fn push_char(s: &mut String, c: char)
    ensures
        final(s)@ == old(s)@.push(c),
{
    s.push(c)
}

/// The lines of a text, each without its newline, and whether the text ends
/// in a newline.
pub fn split_text(t: &str) -> (r: (Vec<String>, bool))
    ensures
        r.0.deep_view() == split_lines(t@),
        r.1 == ends_with_newline(t@),
{
    let mut done: Vec<String> = Vec::new();
    let mut cur = String::new();
    let mut last_nl = false;
    let mut seen_any = false;
    let chars = t.chars();
    proof {
        assert(chars.remaining() == t@);
    }
    for c in it: chars
        invariant
            it.seq() == t@,
            done.deep_view().push(cur@) == pieces(t@.take(it.index() as int)),
            last_nl == ends_with_newline(t@.take(it.index() as int)),
            seen_any == (it.index() > 0),
    {
        let ghost before = t@.take(it.index() as int);
        proof {
            assert(t@.take(it.index() + 1).drop_last() == before);
        }
        if c == '\n' {
            done.push(cur);
            cur = String::new();
            last_nl = true;
        } else {
            push_char(&mut cur, c);
            last_nl = false;
        }
        seen_any = true;
    }
    proof {
        assert(t@.take(t@.len() as int) == t@);
    }
    if !seen_any {
        return (Vec::new(), false);
    }
    if !last_nl {
        done.push(cur);
    }
    (done, last_nl)
}

} // verus!
