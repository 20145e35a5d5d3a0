//! Comparison of two directory trees, given the paths walked under each.
use vstd::prelude::*;

use crate::paths::{
    lemma_path_lt_asymmetric, lemma_path_lt_irreflexive, lemma_path_lt_total,
    lemma_path_lt_transitive, lemma_seq_head, path_before, path_lt, same_path, strictly_under,
    RelPath,
};

verus! {

/// Kind of difference between two directory trees at one path.
#[derive(Debug, Clone, Copy, PartialEq, Eq, Structural)]
pub enum DiffType {
    /// The path exists only in the left tree.
    LeftOnly,
    /// The path exists only in the right tree.
    RightOnly,
    /// A file on both sides, with different contents.
    Modified,
    /// A directory on one side and a file on the other.
    TypeMismatch,
}

/// One difference between two trees.
#[derive(Debug, Clone)]
pub struct DiffEntry {
    /// Path relative to the roots.
    pub path: RelPath,
    /// Kind of difference.
    pub diff_type: DiffType,
    /// Whether the left side is a directory, where it exists.
    pub left_is_dir: Option<bool>,
    /// Whether the right side is a directory, where it exists.
    pub right_is_dir: Option<bool>,
}

/// What a difference entry holds.
pub struct EntryModel {
    pub path: Seq<Seq<char>>,
    pub diff_type: DiffType,
    pub left_is_dir: Option<bool>,
    pub right_is_dir: Option<bool>,
}

impl View for DiffEntry {
    type V = EntryModel;

    open spec fn view(&self) -> EntryModel {
        EntryModel {
            path: self.path@,
            diff_type: self.diff_type,
            left_is_dir: self.left_is_dir,
            right_is_dir: self.right_is_dir,
        }
    }
}

/// One path found under a root, and whether it is a directory there.
#[derive(Debug, Clone)]
pub struct PathEntry {
    pub path: RelPath,
    pub is_dir: bool,
}

impl DiffEntry {
    pub fn left_only(path: RelPath, is_dir: bool) -> (r: DiffEntry)
        ensures
            r@ == (EntryModel {
                path: path@,
                diff_type: DiffType::LeftOnly,
                left_is_dir: Some(is_dir),
                right_is_dir: None,
            }),
    {
        DiffEntry { path, diff_type: DiffType::LeftOnly, left_is_dir: Some(is_dir), right_is_dir: None }
    }

    pub fn right_only(path: RelPath, is_dir: bool) -> (r: DiffEntry)
        ensures
            r@ == (EntryModel {
                path: path@,
                diff_type: DiffType::RightOnly,
                left_is_dir: None,
                right_is_dir: Some(is_dir),
            }),
    {
        DiffEntry { path, diff_type: DiffType::RightOnly, left_is_dir: None, right_is_dir: Some(is_dir) }
    }

    pub fn modified(path: RelPath) -> (r: DiffEntry)
        ensures
            r@ == (EntryModel {
                path: path@,
                diff_type: DiffType::Modified,
                left_is_dir: Some(false),
                right_is_dir: Some(false),
            }),
    {
        DiffEntry {
            path,
            diff_type: DiffType::Modified,
            left_is_dir: Some(false),
            right_is_dir: Some(false),
        }
    }

    pub fn type_mismatch(path: RelPath, left_is_dir: bool, right_is_dir: bool) -> (r: DiffEntry)
        ensures
            r@ == (EntryModel {
                path: path@,
                diff_type: DiffType::TypeMismatch,
                left_is_dir: Some(left_is_dir),
                right_is_dir: Some(right_is_dir),
            }),
    {
        DiffEntry {
            path,
            diff_type: DiffType::TypeMismatch,
            left_is_dir: Some(left_is_dir),
            right_is_dir: Some(right_is_dir),
        }
    }
}

/// Whether `p` is a directory in the listing `l` (by its last mention), or
/// `None` where `l` does not hold `p`.
pub open spec fn kind_in(l: Seq<PathEntry>, p: Seq<Seq<char>>) -> Option<bool>
    decreases l.len(),
{
    if l.len() == 0 {
        None
    } else if l.last().path@ == p {
        Some(l.last().is_dir)
    } else {
        kind_in(l.drop_last(), p)
    }
}

/// Whether `m` holds the path `p`.
pub open spec fn holds_path(m: Seq<RelPath>, p: Seq<Seq<char>>) -> bool {
    exists|i: int| 0 <= i < m.len() && (#[trigger] m[i])@ == p
}

/// The classification of one path, before nested entries are dropped; `m`
/// lists the paths that are files on both sides with different contents.
pub open spec fn classify(
    l: Seq<PathEntry>,
    r: Seq<PathEntry>,
    m: Seq<RelPath>,
    p: Seq<Seq<char>>,
) -> Option<EntryModel> {
    match (kind_in(l, p), kind_in(r, p)) {
        (Some(d), None) => Some(
            EntryModel {
                path: p,
                diff_type: DiffType::LeftOnly,
                left_is_dir: Some(d),
                right_is_dir: None,
            },
        ),
        (None, Some(d)) => Some(
            EntryModel {
                path: p,
                diff_type: DiffType::RightOnly,
                left_is_dir: None,
                right_is_dir: Some(d),
            },
        ),
        (Some(a), Some(b)) => if a != b {
            Some(
                EntryModel {
                    path: p,
                    diff_type: DiffType::TypeMismatch,
                    left_is_dir: Some(a),
                    right_is_dir: Some(b),
                },
            )
        } else if !a && holds_path(m, p) {
            Some(
                EntryModel {
                    path: p,
                    diff_type: DiffType::Modified,
                    left_is_dir: Some(false),
                    right_is_dir: Some(false),
                },
            )
        } else {
            None
        },
        (None, None) => None,
    }
}

/// The kind of an entry that hides the entries of its own kind below it: a
/// directory present on one side only.
pub open spec fn hiding_kind(e: EntryModel) -> Option<DiffType> {
    if e.diff_type == DiffType::LeftOnly && e.left_is_dir == Some(true) {
        Some(DiffType::LeftOnly)
    } else if e.diff_type == DiffType::RightOnly && e.right_is_dir == Some(true) {
        Some(DiffType::RightOnly)
    } else {
        None
    }
}

/// Whether the ancestor of `p` with `a` components hides the entry of `p`.
pub open spec fn hidden_by(
    l: Seq<PathEntry>,
    r: Seq<PathEntry>,
    m: Seq<RelPath>,
    p: Seq<Seq<char>>,
    a: int,
) -> bool {
    &&& classify(l, r, m, p) is Some
    &&& classify(l, r, m, p.take(a)) is Some
    &&& hiding_kind(classify(l, r, m, p.take(a))->0) == Some(classify(l, r, m, p)->0.diff_type)
}

/// The entry of `p` is dropped: some ancestor at any depth is a directory
/// present on one side only, classified as `p` is.
pub open spec fn suppressed(
    l: Seq<PathEntry>,
    r: Seq<PathEntry>,
    m: Seq<RelPath>,
    p: Seq<Seq<char>>,
) -> bool {
    exists|a: int| 0 < a < p.len() && #[trigger] hidden_by(l, r, m, p, a)
}

/// `p` has an entry in the comparison.
pub open spec fn kept(l: Seq<PathEntry>, r: Seq<PathEntry>, m: Seq<RelPath>, p: Seq<Seq<char>>) -> bool {
    classify(l, r, m, p) is Some && !suppressed(l, r, m, p)
}

/// `out` is the comparison of the listings `l` and `r`: one entry per kept
/// path, as classified, in strictly increasing path order.
pub open spec fn is_comparison(
    l: Seq<PathEntry>,
    r: Seq<PathEntry>,
    m: Seq<RelPath>,
    out: Seq<EntryModel>,
) -> bool {
    &&& forall|i: int, j: int| 0 <= i < j < out.len() ==> path_lt(out[i].path, out[j].path)
    &&& forall|i: int|
        0 <= i < out.len() ==> kept(l, r, m, (#[trigger] out[i]).path) && classify(l, r, m, out[i].path)
            == Some(out[i])
    &&& forall|p: Seq<Seq<char>>| kept(l, r, m, p) ==> exists|i: int| 0 <= i < out.len() && (#[trigger] out[i]).path == p
}

/// Whether `u` is strictly increasing.
pub open spec fn sorted_paths(u: Seq<RelPath>) -> bool {
    forall|i: int, j: int| 0 <= i < j < u.len() ==> path_lt((#[trigger] u[i])@, (#[trigger] u[j])@)
}

/// Whether the listing `l` mentions `p`.
pub open spec fn listed(l: Seq<PathEntry>, p: Seq<Seq<char>>) -> bool {
    exists|i: int| 0 <= i < l.len() && (#[trigger] l[i]).path@ == p
}

pub proof fn lemma_kind_in_holds(l: Seq<PathEntry>, p: Seq<Seq<char>>)
    ensures
        kind_in(l, p) is Some <==> listed(l, p),
    decreases l.len(),
{
    if l.len() > 0 {
        lemma_kind_in_holds(l.drop_last(), p);
        if kind_in(l, p) is Some && l.last().path@ != p {
            let i = choose|i: int| 0 <= i < l.len() - 1 && (#[trigger] l.drop_last()[i]).path@ == p;
            assert(l[i] == l.drop_last()[i]);
        }
        if exists|i: int| 0 <= i < l.len() && (#[trigger] l[i]).path@ == p {
            let i = choose|i: int| 0 <= i < l.len() && (#[trigger] l[i]).path@ == p;
            if i < l.len() - 1 {
                assert(l.drop_last()[i] == l[i]);
            }
        }
    }
}

/// Whether `p` is a directory in `l`, by its last mention.
fn lookup_kind(l: &Vec<PathEntry>, p: &RelPath) -> (r: Option<bool>)
    ensures
        r == kind_in(l@, p@),
{
    let mut found: Option<bool> = None;
    let mut i: usize = 0;
    while i < l.len()
        invariant
            i <= l@.len(),
            found == kind_in(l@.take(i as int), p@),
        decreases l.len() - i,
    {
        proof {
            assert(l@.take(i + 1).drop_last() == l@.take(i as int));
        }
        if same_path(&l[i].path, p) {
            found = Some(l[i].is_dir);
        }
        i += 1;
    }
    proof {
        assert(l@.take(l@.len() as int) == l@);
    }
    found
}

/// Whether `m` holds `p`.
fn contains_path(m: &Vec<RelPath>, p: &RelPath) -> (r: bool)
    ensures
        r == holds_path(m@, p@),
{
    let mut i: usize = 0;
    while i < m.len()
        invariant
            i <= m@.len(),
            forall|j: int| 0 <= j < i ==> (#[trigger] m@[j])@ != p@,
        decreases m.len() - i,
    {
        if same_path(&m[i], p) {
            return true;
        }
        i += 1;
    }
    false
}

/// The classification of `p`, before nested entries are dropped.
fn classify_path(
    l: &Vec<PathEntry>,
    r: &Vec<PathEntry>,
    m: &Vec<RelPath>,
    p: &RelPath,
) -> (res: Option<DiffEntry>)
    ensures
        match res {
            Some(e) => classify(l@, r@, m@, p@) == Some(e@),
            None => classify(l@, r@, m@, p@) is None,
        },
{
    match (lookup_kind(l, p), lookup_kind(r, p)) {
        (Some(d), None) => Some(DiffEntry::left_only(p.clone_path(), d)),
        (None, Some(d)) => Some(DiffEntry::right_only(p.clone_path(), d)),
        (Some(a), Some(b)) => {
            if a != b {
                Some(DiffEntry::type_mismatch(p.clone_path(), a, b))
            } else if !a && contains_path(m, p) {
                Some(DiffEntry::modified(p.clone_path()))
            } else {
                None
            }
        },
        (None, None) => None,
    }
}

/// Whether the classified entry `e` of `p` is hidden by an ancestor.
fn is_suppressed(
    l: &Vec<PathEntry>,
    r: &Vec<PathEntry>,
    m: &Vec<RelPath>,
    p: &RelPath,
    e: &DiffEntry,
) -> (res: bool)
    requires
        classify(l@, r@, m@, p@) == Some(e@),
    ensures
        res == suppressed(l@, r@, m@, p@),
{
    let one_sided = match e.diff_type {
        DiffType::LeftOnly => true,
        DiffType::RightOnly => true,
        _ => false,
    };
    if !one_sided {
        proof {
            assert forall|a: int| 0 < a < p@.len() implies !hidden_by(l@, r@, m@, p@, a) by {}
        }
        return false;
    }
    let n = p.components.len();
    let mut a: usize = 1;
    while a < n
        invariant
            1 <= a,
            n == p@.len(),
            classify(l@, r@, m@, p@) == Some(e@),
            forall|b: int| 0 < b < a ==> !hidden_by(l@, r@, m@, p@, b),
        decreases n - a,
    {
        let q = p.prefix(a);
        match classify_path(l, r, m, &q) {
            Some(anc) => {
                let hides = match e.diff_type {
                    DiffType::LeftOnly => matches!(anc.diff_type, DiffType::LeftOnly) && matches!(anc.left_is_dir, Some(true)),
                    DiffType::RightOnly => matches!(anc.diff_type, DiffType::RightOnly) && matches!(anc.right_is_dir, Some(true)),
                    _ => false,
                };
                if hides {
                    proof {
                        assert(q@ == p@.take(a as int));
                        assert(classify(l@, r@, m@, p@.take(a as int)) == Some(anc@));
                        assert(hiding_kind(anc@) == Some(e@.diff_type));
                        assert(hidden_by(l@, r@, m@, p@, a as int));
                    }
                    return true;
                }
            },
            None => {},
        }
        a += 1;
    }
    false
}

/// Adds `p` to the strictly increasing `u`, unless it is already there.
fn insert_sorted(u: &mut Vec<RelPath>, p: &RelPath)
    requires
        sorted_paths(old(u)@),
    ensures
        sorted_paths(final(u)@),
        forall|q: Seq<Seq<char>>|
            #[trigger] holds_path(final(u)@, q) <==> (q == p@ || holds_path(old(u)@, q)),
{
    let ghost orig = u@;
    let n = u.len();
    let mut k: usize = 0;
    while k < n && path_before(&u[k], p)
        invariant
            k <= n == u@.len(),
            u@ == orig,
            sorted_paths(orig),
            forall|j: int| 0 <= j < k ==> path_lt((#[trigger] orig[j])@, p@),
        decreases n - k,
    {
        k += 1;
    }
    if k < n && same_path(&u[k], p) {
        proof {
            assert forall|q: Seq<Seq<char>>|
                #[trigger] holds_path(u@, q) <==> (q == p@ || holds_path(orig, q)) by {
                if q == p@ {
                    assert(u@[k as int]@ == q);
                }
            }
        }
        return;
    }
    proof {
        if k < n {
            lemma_path_lt_total(orig[k as int]@, p@);
            assert(path_lt(p@, orig[k as int]@));
            assert forall|j: int| k < j < n implies path_lt(p@, (#[trigger] orig[j])@) by {
                lemma_path_lt_transitive(p@, orig[k as int]@, orig[j]@);
            }
        }
    }
    u.insert(k, p.clone_path());
    proof {
        let nu = u@;
        assert(nu[k as int]@ == p@);
        assert forall|i: int, j: int| 0 <= i < j < nu.len() implies path_lt(
            (#[trigger] nu[i])@,
            (#[trigger] nu[j])@,
        ) by {
            if j < k {
                assert(nu[i] == orig[i] && nu[j] == orig[j]);
            } else if j == k {
                assert(nu[i] == orig[i]);
            } else if i < k {
                assert(nu[i] == orig[i] && nu[j] == orig[j - 1]);
                lemma_path_lt_transitive(orig[i]@, p@, orig[j - 1]@);
            } else if i == k {
                assert(nu[j] == orig[j - 1]);
            } else {
                assert(nu[i] == orig[i - 1] && nu[j] == orig[j - 1]);
            }
        }
        assert forall|q: Seq<Seq<char>>|
            #[trigger] holds_path(nu, q) <==> (q == p@ || holds_path(orig, q)) by {
            if q == p@ {
                assert(nu[k as int]@ == q);
            }
            if exists|i: int| 0 <= i < nu.len() && (#[trigger] nu[i])@ == q {
                let i = choose|i: int| 0 <= i < nu.len() && (#[trigger] nu[i])@ == q;
                if i < k {
                    assert(nu[i] == orig[i]);
                } else if i > k {
                    assert(nu[i] == orig[i - 1]);
                }
            }
            if exists|i: int| 0 <= i < orig.len() && (#[trigger] orig[i])@ == q {
                let i = choose|i: int| 0 <= i < orig.len() && (#[trigger] orig[i])@ == q;
                if i < k {
                    assert(nu[i] == orig[i]);
                } else {
                    assert(nu[i + 1] == orig[i]);
                }
            }
        }
    }
}

/// `p` is a file in both listings: its contents decide whether it is
/// `Modified`.
pub open spec fn shared_file(l: Seq<PathEntry>, r: Seq<PathEntry>, p: Seq<Seq<char>>) -> bool {
    kind_in(l, p) == Some(false) && kind_in(r, p) == Some(false)
}

/// The paths that are files on both sides, whose contents are to be
/// compared before the trees are.
pub fn shared_files(left: &Vec<PathEntry>, right: &Vec<PathEntry>) -> (out: Vec<RelPath>)
    ensures
        forall|i: int| 0 <= i < out@.len() ==> shared_file(left@, right@, (#[trigger] out@[i])@),
        forall|p: Seq<Seq<char>>| shared_file(left@, right@, p) ==> holds_path(out@, p),
{
    let mut out: Vec<RelPath> = Vec::new();
    let mut i: usize = 0;
    while i < left.len()
        invariant
            i <= left@.len(),
            forall|j: int| 0 <= j < out@.len() ==> shared_file(left@, right@, (#[trigger] out@[j])@),
            forall|j: int|
                0 <= j < i && shared_file(left@, right@, (#[trigger] left@[j]).path@) ==> holds_path(
                    out@,
                    left@[j].path@,
                ),
        decreases left.len() - i,
    {
        let p = &left[i].path;
        let lk = lookup_kind(left, p);
        let rk = lookup_kind(right, p);
        if matches!(lk, Some(false)) && matches!(rk, Some(false)) {
            let ghost prev = out@;
            out.push(p.clone_path());
            proof {
                assert(out@[prev.len() as int]@ == p@);
                assert forall|j: int|
                    0 <= j < i + 1 && shared_file(left@, right@, (#[trigger] left@[j]).path@) implies holds_path(
                        out@,
                        left@[j].path@,
                    ) by {
                    if j < i {
                        let k = choose|k: int| 0 <= k < prev.len() && (#[trigger] prev[k])@ == left@[j].path@;
                        assert(out@[k] == prev[k]);
                    } else {
                        assert(out@[prev.len() as int]@ == left@[j].path@);
                    }
                }
            }
        }
        i += 1;
    }
    proof {
        assert forall|p: Seq<Seq<char>>| shared_file(left@, right@, p) implies holds_path(out@, p) by {
            lemma_kind_in_holds(left@, p);
            let j = choose|j: int| 0 <= j < left@.len() && (#[trigger] left@[j]).path@ == p;
        }
    }
    out
}

/// Adds every path of `l` to the strictly increasing `u`.
fn insert_listing(u: &mut Vec<RelPath>, l: &Vec<PathEntry>)
    requires
        sorted_paths(old(u)@),
    ensures
        sorted_paths(final(u)@),
        forall|q: Seq<Seq<char>>|
            #[trigger] holds_path(final(u)@, q) <==> (listed(l@, q) || holds_path(old(u)@, q)),
{
    let ghost orig = u@;
    let mut i: usize = 0;
    while i < l.len()
        invariant
            i <= l@.len(),
            sorted_paths(u@),
            forall|q: Seq<Seq<char>>|
                #[trigger] holds_path(u@, q) <==> (listed(l@.take(i as int), q) || holds_path(orig, q)),
        decreases l.len() - i,
    {
        let ghost before = u@;
        insert_sorted(u, &l[i].path);
        proof {
            assert forall|q: Seq<Seq<char>>|
                #[trigger] holds_path(u@, q) <==> (listed(l@.take(i + 1), q) || holds_path(orig, q)) by {
                assert(holds_path(u@, q) <==> (q == l@[i as int].path@ || holds_path(before, q)));
                if listed(l@.take(i + 1), q) {
                    let j = choose|j: int| 0 <= j < i + 1 && (#[trigger] l@.take(i + 1)[j]).path@ == q;
                    if j < i {
                        assert(l@.take(i as int)[j] == l@.take(i + 1)[j]);
                    }
                }
                if listed(l@.take(i as int), q) {
                    let j = choose|j: int| 0 <= j < i && (#[trigger] l@.take(i as int)[j]).path@ == q;
                    assert(l@.take(i as int)[j] == l@.take(i + 1)[j]);
                }
                if q == l@[i as int].path@ {
                    assert(l@.take(i + 1)[i as int] == l@[i as int]);
                }
            }
        }
        i += 1;
    }
    proof {
        assert(l@.take(l@.len() as int) == l@);
    }
}

/// `out` holds the entries of the first `k` paths of the increasing `u`.
#[verifier::opaque]
pub open spec fn progress(
    l: Seq<PathEntry>,
    r: Seq<PathEntry>,
    m: Seq<RelPath>,
    u: Seq<RelPath>,
    k: int,
    out: Seq<DiffEntry>,
) -> bool {
    &&& forall|i: int, j: int|
        0 <= i < j < out.len() ==> path_lt((#[trigger] out[i])@.path, (#[trigger] out[j])@.path)
    &&& forall|i: int|
        0 <= i < out.len() ==> kept(l, r, m, (#[trigger] out[i])@.path) && classify(
            l,
            r,
            m,
            out[i]@.path,
        ) == Some(out[i]@)
    &&& forall|i: int|
        0 <= i < out.len() ==> exists|j: int| 0 <= j < k && (#[trigger] u[j])@ == (#[trigger] out[i])@.path
    &&& forall|j: int|
        0 <= j < k && kept(l, r, m, (#[trigger] u[j])@) ==> exists|i: int|
            0 <= i < out.len() && (#[trigger] out[i])@.path == u[j]@
}

/// Classifies the path `u[k]` and appends its entry where it is kept.
fn compare_step(
    left: &Vec<PathEntry>,
    right: &Vec<PathEntry>,
    modified: &Vec<RelPath>,
    u: &Vec<RelPath>,
    k: usize,
    out: &mut Vec<DiffEntry>,
)
    requires
        k < u@.len(),
        sorted_paths(u@),
        progress(left@, right@, modified@, u@, k as int, old(out)@),
    ensures
        progress(left@, right@, modified@, u@, k + 1, final(out)@),
{
    reveal(progress);
    let ghost lv = left@;
    let ghost rv = right@;
    let ghost mv = modified@;
    let p = &u[k];
    match classify_path(left, right, modified, p) {
        Some(e) => {
            if !is_suppressed(left, right, modified, p, &e) {
                let ghost prev = out@;
                let ghost ev = e@;
                out.push(e);
                proof {
                    assert(out@[prev.len() as int]@ == ev);
                    assert forall|i: int|
                        0 <= i < out@.len() implies kept(lv, rv, mv, (#[trigger] out@[i])@.path)
                            && classify(lv, rv, mv, out@[i]@.path) == Some(out@[i]@) by {
                        if i < prev.len() {
                            assert(out@[i] == prev[i]);
                        }
                    }
                    assert forall|i: int, j: int|
                        0 <= i < j < out@.len() implies path_lt(
                        (#[trigger] out@[i])@.path,
                        (#[trigger] out@[j])@.path,
                    ) by {
                        if j == prev.len() {
                            assert(out@[i] == prev[i]);
                            let jj = choose|jj: int| 0 <= jj < k && (#[trigger] u@[jj])@ == prev[i]@.path;
                            assert(path_lt(u@[jj]@, u@[k as int]@));
                        } else {
                            assert(out@[i] == prev[i] && out@[j] == prev[j]);
                        }
                    }
                    assert forall|i: int| 0 <= i < out@.len() implies exists|j: int|
                        0 <= j < k + 1 && (#[trigger] u@[j])@ == (#[trigger] out@[i])@.path by {
                        if i < prev.len() {
                            assert(out@[i] == prev[i]);
                            let jj = choose|jj: int| 0 <= jj < k && (#[trigger] u@[jj])@ == prev[i]@.path;
                            assert(u@[jj]@ == out@[i]@.path);
                        } else {
                            assert(u@[k as int]@ == out@[i]@.path);
                        }
                    }
                    assert forall|j: int|
                        0 <= j < k + 1 && kept(lv, rv, mv, (#[trigger] u@[j])@) implies exists|i: int|
                            0 <= i < out@.len() && (#[trigger] out@[i])@.path == u@[j]@ by {
                        if j < k {
                            let i = choose|i: int| 0 <= i < prev.len() && (#[trigger] prev[i])@.path == u@[j]@;
                            assert(out@[i] == prev[i]);
                        } else {
                            assert(out@[prev.len() as int]@.path == u@[j]@);
                        }
                    }
                }
            }
        },
        None => {},
    }
}

/// The differences between two trees, given the paths walked under each
/// root (`left`, `right`) and the paths that are files on both sides with
/// different contents (`modified`). Each path of either side has at most
/// one entry, as classified, in increasing path order; the entries below a
/// directory present on one side only, of that same kind, are dropped.
pub fn compare_directories(
    left: &Vec<PathEntry>,
    right: &Vec<PathEntry>,
    modified: &Vec<RelPath>,
) -> (out: Vec<DiffEntry>)
    ensures
        is_comparison(left@, right@, modified@, out@.map_values(|e: DiffEntry| e@)),
{
    let mut u: Vec<RelPath> = Vec::new();
    insert_listing(&mut u, left);
    insert_listing(&mut u, right);
    let mut out: Vec<DiffEntry> = Vec::new();
    let mut k: usize = 0;
    proof {
        reveal(progress);
    }
    while k < u.len()
        invariant
            k <= u@.len(),
            sorted_paths(u@),
            progress(left@, right@, modified@, u@, k as int, out@),
        decreases u.len() - k,
    {
        compare_step(left, right, modified, &u, k, &mut out);
        k += 1;
    }
    proof {
        reveal(progress);
        let lv = left@;
        let rv = right@;
        let mv = modified@;
        let om = out@.map_values(|e: DiffEntry| e@);
        assert forall|pp: Seq<Seq<char>>| kept(lv, rv, mv, pp) implies exists|i: int|
            0 <= i < om.len() && (#[trigger] om[i]).path == pp by {
            lemma_kind_in_holds(lv, pp);
            lemma_kind_in_holds(rv, pp);
            assert(holds_path(u@, pp));
            let j = choose|j: int| 0 <= j < u@.len() && (#[trigger] u@[j])@ == pp;
            let i = choose|i: int| 0 <= i < out@.len() && (#[trigger] out@[i])@.path == u@[j]@;
            assert(om[i] == out@[i]@);
        }
        assert forall|i: int, j: int| 0 <= i < j < om.len() implies path_lt(om[i].path, om[j].path) by {
            assert(om[i] == out@[i]@ && om[j] == out@[j]@);
        }
        assert forall|i: int| 0 <= i < om.len() implies kept(lv, rv, mv, (#[trigger] om[i]).path) && classify(
            lv,
            rv,
            mv,
            om[i].path,
        ) == Some(om[i]) by {
            assert(om[i] == out@[i]@);
        }
    }
    out
}

/// Every ancestor of a path in `l` is in `l` too, as a walk lists it.
pub open spec fn ancestor_closed(l: Seq<PathEntry>) -> bool {
    forall|i: int, a: int|
        0 <= i < l.len() && 0 < a < l[i].path@.len() ==> #[trigger] listed(l, l[i].path@.take(a))
}

/// When a directory is present on one side only, no entry of the
/// comparison lies below it, at any depth.
pub proof fn lemma_nested_suppression(
    l: Seq<PathEntry>,
    r: Seq<PathEntry>,
    m: Seq<RelPath>,
    out: Seq<EntryModel>,
    d: int,
    i: int,
)
    requires
        ancestor_closed(l),
        ancestor_closed(r),
        is_comparison(l, r, m, out),
        0 <= d < out.len(),
        0 <= i < out.len(),
        hiding_kind(out[d]) is Some,
    ensures
        !strictly_under(out[i].path, out[d].path),
{
    let dp = out[d].path;
    let p = out[i].path;
    if strictly_under(p, dp) {
        let a = dp.len() as int;
        assert(kept(l, r, m, p) && classify(l, r, m, p) == Some(out[i]));
        assert(kept(l, r, m, dp) && classify(l, r, m, dp) == Some(out[d]));
        lemma_kind_in_holds(l, p);
        lemma_kind_in_holds(r, p);
        lemma_kind_in_holds(l, dp);
        lemma_kind_in_holds(r, dp);
        if out[d].diff_type == DiffType::LeftOnly {
            if listed(r, p) {
                let j = choose|j: int| 0 <= j < r.len() && (#[trigger] r[j]).path@ == p;
                assert(listed(r, r[j].path@.take(a)));
            }
        } else {
            if listed(l, p) {
                let j = choose|j: int| 0 <= j < l.len() && (#[trigger] l[j]).path@ == p;
                assert(listed(l, l[j].path@.take(a)));
            }
        }
        assert(hidden_by(l, r, m, p, a));
    }
}

/// The kind of difference seen from the other side.
pub open spec fn mirror_type(t: DiffType) -> DiffType {
    match t {
        DiffType::LeftOnly => DiffType::RightOnly,
        DiffType::RightOnly => DiffType::LeftOnly,
        _ => t,
    }
}

/// An entry seen from the other side: the one-sided kinds and the two
/// directory flags trade places.
pub open spec fn mirror(e: EntryModel) -> EntryModel {
    EntryModel {
        path: e.path,
        diff_type: mirror_type(e.diff_type),
        left_is_dir: e.right_is_dir,
        right_is_dir: e.left_is_dir,
    }
}

proof fn lemma_classify_mirror(l: Seq<PathEntry>, r: Seq<PathEntry>, m: Seq<RelPath>, p: Seq<Seq<char>>)
    ensures
        classify(r, l, m, p) == (match classify(l, r, m, p) {
            Some(e) => Some(mirror(e)),
            None => None,
        }),
        suppressed(r, l, m, p) == suppressed(l, r, m, p),
        kept(r, l, m, p) == kept(l, r, m, p),
{
    assert forall|a: int| 0 < a < p.len() implies #[trigger] hidden_by(r, l, m, p, a) == hidden_by(
        l,
        r,
        m,
        p,
        a,
    ) by {
    }
    if suppressed(l, r, m, p) {
        let a = choose|a: int| 0 < a < p.len() && #[trigger] hidden_by(l, r, m, p, a);
        assert(hidden_by(r, l, m, p, a));
    }
    if suppressed(r, l, m, p) {
        let a = choose|a: int| 0 < a < p.len() && #[trigger] hidden_by(r, l, m, p, a);
        assert(hidden_by(l, r, m, p, a));
    }
}

/// Two strictly increasing sequences of paths with the same members are
/// equal.
proof fn lemma_sorted_unique(x: Seq<Seq<Seq<char>>>, y: Seq<Seq<Seq<char>>>)
    requires
        forall|i: int, j: int| 0 <= i < j < x.len() ==> path_lt(x[i], x[j]),
        forall|i: int, j: int| 0 <= i < j < y.len() ==> path_lt(y[i], y[j]),
        forall|p: Seq<Seq<char>>| x.contains(p) <==> y.contains(p),
    ensures
        x == y,
    decreases x.len(),
{
    if x.len() == 0 {
        if y.len() > 0 {
            assert(y.contains(y[0]));
        }
        assert(x =~= y);
    } else {
        assert(x.contains(x[0]));
        let j = choose|j: int| 0 <= j < y.len() && y[j] == x[0];
        assert(y.contains(y[0]));
        let i = choose|i: int| 0 <= i < x.len() && x[i] == y[0];
        if j > 0 {
            if i > 0 {
                lemma_path_lt_asymmetric(x[0], x[i]);
            } else {
                lemma_path_lt_irreflexive(x[0]);
            }
        }
        let x1 = x.drop_first();
        let y1 = y.drop_first();
        assert forall|p: Seq<Seq<char>>| x1.contains(p) <==> y1.contains(p) by {
            if x1.contains(p) {
                let k = choose|k: int| 0 <= k < x1.len() && x1[k] == p;
                assert(x[k + 1] == p);
                assert(x.contains(p));
                lemma_path_lt_irreflexive(p);
                let t = choose|t: int| 0 <= t < y.len() && y[t] == p;
                assert(t != 0);
                assert(y1[t - 1] == p);
            }
            if y1.contains(p) {
                let k = choose|k: int| 0 <= k < y1.len() && y1[k] == p;
                assert(y[k + 1] == p);
                assert(y.contains(p));
                lemma_path_lt_irreflexive(p);
                let t = choose|t: int| 0 <= t < x.len() && x[t] == p;
                assert(t != 0);
                assert(x1[t - 1] == p);
            }
        }
        lemma_sorted_unique(x1, y1);
        lemma_seq_head(x, y);
    }
}

/// The comparison of two listings is unique.
pub proof fn lemma_comparison_unique(
    l: Seq<PathEntry>,
    r: Seq<PathEntry>,
    m: Seq<RelPath>,
    x: Seq<EntryModel>,
    y: Seq<EntryModel>,
)
    requires
        is_comparison(l, r, m, x),
        is_comparison(l, r, m, y),
    ensures
        x == y,
{
    let xp = x.map_values(|e: EntryModel| e.path);
    let yp = y.map_values(|e: EntryModel| e.path);
    assert forall|p: Seq<Seq<char>>| xp.contains(p) <==> yp.contains(p) by {
        if xp.contains(p) {
            let k = choose|k: int| 0 <= k < xp.len() && xp[k] == p;
            assert(kept(l, r, m, x[k].path));
            let t = choose|t: int| 0 <= t < y.len() && (#[trigger] y[t]).path == p;
            assert(yp[t] == p);
        }
        if yp.contains(p) {
            let k = choose|k: int| 0 <= k < yp.len() && yp[k] == p;
            assert(kept(l, r, m, y[k].path));
            let t = choose|t: int| 0 <= t < x.len() && (#[trigger] x[t]).path == p;
            assert(xp[t] == p);
        }
    }
    lemma_sorted_unique(xp, yp);
    assert forall|k: int| 0 <= k < x.len() implies x[k] == y[k] by {
        assert(xp[k] == yp[k]);
        assert(classify(l, r, m, x[k].path) == Some(x[k]));
        assert(classify(l, r, m, y[k].path) == Some(y[k]));
    }
    assert(x =~= y);
}

/// Comparing the trees the other way round gives the same entries, with
/// `LeftOnly` and `RightOnly` swapped and the directory flags of each entry
/// exchanged; `Modified` and `TypeMismatch` keep their kind.
pub proof fn lemma_side_symmetry(
    a: Seq<PathEntry>,
    b: Seq<PathEntry>,
    m: Seq<RelPath>,
    out_ab: Seq<EntryModel>,
    out_ba: Seq<EntryModel>,
)
    requires
        is_comparison(a, b, m, out_ab),
        is_comparison(b, a, m, out_ba),
    ensures
        out_ba == out_ab.map_values(|e: EntryModel| mirror(e)),
{
    let s = out_ab.map_values(|e: EntryModel| mirror(e));
    assert forall|i: int| 0 <= i < s.len() implies kept(b, a, m, (#[trigger] s[i]).path) && classify(
        b,
        a,
        m,
        s[i].path,
    ) == Some(s[i]) by {
        lemma_classify_mirror(a, b, m, out_ab[i].path);
    }
    assert forall|p: Seq<Seq<char>>| kept(b, a, m, p) implies exists|i: int|
        0 <= i < s.len() && (#[trigger] s[i]).path == p by {
        lemma_classify_mirror(a, b, m, p);
        let i = choose|i: int| 0 <= i < out_ab.len() && (#[trigger] out_ab[i]).path == p;
        assert(s[i].path == p);
    }
    assert forall|i: int, j: int| 0 <= i < j < s.len() implies path_lt(s[i].path, s[j].path) by {
        assert(s[i].path == out_ab[i].path && s[j].path == out_ab[j].path);
    }
    lemma_comparison_unique(b, a, m, out_ba, s);
}

} // verus!
