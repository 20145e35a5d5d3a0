//! Relative paths as sequences of components, and their order.
use vstd::prelude::*;

verus! {

/// A path relative to a compared root, one string per component.
#[derive(Debug, Clone, PartialEq, Eq)]
pub struct RelPath {
    pub components: Vec<String>,
}

impl View for RelPath {
    type V = Seq<Seq<char>>;

    open spec fn view(&self) -> Seq<Seq<char>> {
        self.components.deep_view()
    }
}

impl RelPath {
    /// A copy of this path.
    pub fn clone_path(&self) -> (r: RelPath)
        ensures
            r@ == self@,
    {
        self.prefix(self.components.len())
    }

    /// The ancestor made of the first `n` components.
    pub fn prefix(&self, n: usize) -> (r: RelPath)
        requires
            n <= self@.len(),
        ensures
            r@ == self@.take(n as int),
    {
        let mut components: Vec<String> = Vec::new();
        let mut i: usize = 0;
        while i < n
            invariant
                i <= n <= self.components.len(),
                components.deep_view() == self@.take(i as int),
            decreases n - i,
        {
            let c = self.components[i].clone();
            let ghost prev = components.deep_view();
            components.push(c);
            proof {
                assert(components.deep_view() =~= prev.push(c@));
                assert(self@.take(i + 1) =~= self@.take(i as int).push(self@[i as int]));
            }
            i += 1;
        }
        RelPath { components }
    }
}

/// Lexicographic order on strings, by code point.
pub open spec fn chars_lt(a: Seq<char>, b: Seq<char>) -> bool
    decreases a.len(),
{
    if a.len() == 0 {
        b.len() > 0
    } else if b.len() == 0 {
        false
    } else if a[0] != b[0] {
        a[0] < b[0]
    } else {
        chars_lt(a.drop_first(), b.drop_first())
    }
}

/// Lexicographic order on paths, component by component: the order in which
/// the comparison lists its entries.
pub open spec fn path_lt(a: Seq<Seq<char>>, b: Seq<Seq<char>>) -> bool
    decreases a.len(),
{
    if a.len() == 0 {
        b.len() > 0
    } else if b.len() == 0 {
        false
    } else if a[0] != b[0] {
        chars_lt(a[0], b[0])
    } else {
        path_lt(a.drop_first(), b.drop_first())
    }
}

/// `d` lies strictly below `a`: `a` is a proper, non-empty prefix of `d`.
pub open spec fn strictly_under(d: Seq<Seq<char>>, a: Seq<Seq<char>>) -> bool {
    0 < a.len() < d.len() && d.take(a.len() as int) == a
}

pub proof fn lemma_seq_head<A>(a: Seq<A>, b: Seq<A>)
    requires
        a.len() > 0,
        b.len() > 0,
        a[0] == b[0],
        a.drop_first() == b.drop_first(),
    ensures
        a == b,
{
    assert(a =~= seq![a[0]] + a.drop_first());
    assert(b =~= seq![b[0]] + b.drop_first());
}

pub proof fn lemma_chars_lt_transitive(a: Seq<char>, b: Seq<char>, c: Seq<char>)
    requires
        chars_lt(a, b),
        chars_lt(b, c),
    ensures
        chars_lt(a, c),
    decreases a.len(),
{
    if a.len() > 0 && b.len() > 0 && c.len() > 0 {
        if a[0] == b[0] && b[0] == c[0] {
            lemma_chars_lt_transitive(a.drop_first(), b.drop_first(), c.drop_first());
        }
    }
}

pub proof fn lemma_chars_lt_total(a: Seq<char>, b: Seq<char>)
    requires
        a != b,
    ensures
        chars_lt(a, b) || chars_lt(b, a),
    decreases a.len(),
{
    if a.len() == 0 {
        if b.len() == 0 {
            assert(a =~= b);
        }
    } else if b.len() > 0 {
        if a[0] == b[0] {
            if a.drop_first() == b.drop_first() {
                lemma_seq_head(a, b);
            }
            lemma_chars_lt_total(a.drop_first(), b.drop_first());
        }
    }
}

pub proof fn lemma_chars_lt_asymmetric(a: Seq<char>, b: Seq<char>)
    requires
        chars_lt(a, b),
    ensures
        !chars_lt(b, a),
    decreases a.len(),
{
    if a.len() > 0 && b.len() > 0 && a[0] == b[0] {
        lemma_chars_lt_asymmetric(a.drop_first(), b.drop_first());
    }
}

pub proof fn lemma_path_lt_irreflexive(a: Seq<Seq<char>>)
    ensures
        !path_lt(a, a),
    decreases a.len(),
{
    if a.len() > 0 {
        lemma_path_lt_irreflexive(a.drop_first());
    }
}

pub proof fn lemma_path_lt_transitive(a: Seq<Seq<char>>, b: Seq<Seq<char>>, c: Seq<Seq<char>>)
    requires
        path_lt(a, b),
        path_lt(b, c),
    ensures
        path_lt(a, c),
    decreases a.len(),
{
    if a.len() > 0 && b.len() > 0 && c.len() > 0 {
        if a[0] == b[0] && b[0] == c[0] {
            lemma_path_lt_transitive(a.drop_first(), b.drop_first(), c.drop_first());
        } else if a[0] == b[0] {
        } else if b[0] == c[0] {
        } else {
            lemma_chars_lt_transitive(a[0], b[0], c[0]);
            if a[0] == c[0] {
                lemma_chars_lt_asymmetric(a[0], b[0]);
            }
        }
    }
}

pub proof fn lemma_path_lt_total(a: Seq<Seq<char>>, b: Seq<Seq<char>>)
    requires
        a != b,
    ensures
        path_lt(a, b) || path_lt(b, a),
    decreases a.len(),
{
    if a.len() == 0 {
        if b.len() == 0 {
            assert(a =~= b);
        }
    } else if b.len() > 0 {
        if a[0] == b[0] {
            if a.drop_first() == b.drop_first() {
                lemma_seq_head(a, b);
            }
            lemma_path_lt_total(a.drop_first(), b.drop_first());
        } else {
            lemma_chars_lt_total(a[0], b[0]);
        }
    }
}

pub proof fn lemma_path_lt_asymmetric(a: Seq<Seq<char>>, b: Seq<Seq<char>>)
    requires
        path_lt(a, b),
    ensures
        !path_lt(b, a),
    decreases a.len(),
{
    if a.len() > 0 && b.len() > 0 {
        if a[0] == b[0] {
            lemma_path_lt_asymmetric(a.drop_first(), b.drop_first());
        } else {
            lemma_chars_lt_asymmetric(a[0], b[0]);
        }
    }
}

/// Whether `a` comes before `b`, by code point.
fn str_lt(a: &String, b: &String) -> (r: bool)
    ensures
        r == chars_lt(a@, b@),
{
    let sa = a.as_str();
    let sb = b.as_str();
    let na = sa.unicode_len();
    let nb = sb.unicode_len();
    let mut i: usize = 0;
    proof {
        assert(a@.skip(0) =~= a@);
        assert(b@.skip(0) =~= b@);
    }
    while i < na && i < nb
        invariant
            i <= na == a@.len(),
            nb == b@.len(),
            i <= nb,
            sa@ == a@,
            sb@ == b@,
            chars_lt(a@, b@) == chars_lt(a@.skip(i as int), b@.skip(i as int)),
        decreases na - i,
    {
        let ca = sa.get_char(i);
        let cb = sb.get_char(i);
        if ca != cb {
            proof {
                assert(a@.skip(i as int)[0] == ca);
                assert(b@.skip(i as int)[0] == cb);
            }
            return ca < cb;
        }
        proof {
            assert(a@.skip(i as int).drop_first() == a@.skip(i + 1));
            assert(b@.skip(i as int).drop_first() == b@.skip(i + 1));
            assert(a@.skip(i as int)[0] == b@.skip(i as int)[0]);
        }
        i += 1;
    }
    i < nb
}

/// Whether two paths are equal.
pub fn same_path(a: &RelPath, b: &RelPath) -> (r: bool)
    ensures
        r == (a@ == b@),
{
    let n = a.components.len();
    if n != b.components.len() {
        proof {
            assert(a@.len() != b@.len());
        }
        return false;
    }
    let mut i: usize = 0;
    while i < n
        invariant
            i <= n == a.components.len() == b.components.len(),
            a@.len() == n,
            b@.len() == n,
            a@.take(i as int) == b@.take(i as int),
        decreases n - i,
    {
        if a.components[i] != b.components[i] {
            proof {
                assert(a@[i as int] != b@[i as int]);
            }
            return false;
        }
        proof {
            assert(a@.take(i + 1) =~= a@.take(i as int).push(a@[i as int]));
            assert(b@.take(i + 1) =~= b@.take(i as int).push(b@[i as int]));
        }
        i += 1;
    }
    proof {
        assert(a@ =~= a@.take(n as int));
        assert(b@ =~= b@.take(n as int));
    }
    true
}

/// Whether path `a` comes before path `b`.
pub fn path_before(a: &RelPath, b: &RelPath) -> (r: bool)
    ensures
        r == path_lt(a@, b@),
{
    let na = a.components.len();
    let nb = b.components.len();
    let mut i: usize = 0;
    proof {
        assert(a@.skip(0) =~= a@);
        assert(b@.skip(0) =~= b@);
    }
    while i < na && i < nb
        invariant
            i <= na == a@.len() == a.components.len(),
            nb == b@.len() == b.components.len(),
            i <= nb,
            path_lt(a@, b@) == path_lt(a@.skip(i as int), b@.skip(i as int)),
        decreases na - i,
    {
        let ca = &a.components[i];
        let cb = &b.components[i];
        proof {
            assert(a@.skip(i as int)[0] == ca@);
            assert(b@.skip(i as int)[0] == cb@);
        }
        if *ca != *cb {
            return str_lt(ca, cb);
        }
        proof {
            assert(a@.skip(i as int).drop_first() == a@.skip(i + 1));
            assert(b@.skip(i as int).drop_first() == b@.skip(i + 1));
        }
        i += 1;
    }
    i < nb
}

} // verus!
