use vstd::prelude::*;
use crate::error::{ScaffoldError, ScaffoldResult};
use crate::text::{
    chars_cmp, chars_eq, copy_text, lemma_seq_lt_asymmetric, lemma_seq_lt_irreflexive,
    lemma_seq_lt_total, lemma_seq_lt_transitive, push_text, seq_lt, Text,
};

verus! {

/// A directory subtree held in memory: either a file with its text content,
/// or a directory mapping names to subtrees. Directory entries are kept in
/// strictly ascending name order, so a tree is a canonical value.
pub enum FileTree {
    File { content: Text },
    Directory { entries: Vec<(Text, FileTree)> },
}

/// The mathematical shape of a `FileTree`, with text as `Seq<char>`.
pub enum TreeV {
    File(Seq<char>),
    Dir(Seq<(Seq<char>, TreeV)>),
}

/// A path is a sequence of name segments, independent of any separator
/// convention.
pub type TreePath = Vec<Text>;

pub type PathV = Seq<Seq<char>>;

impl FileTree {
    pub open spec fn view(self) -> TreeV
        decreases self, 1int,
    {
        match self {
            FileTree::File { content } => TreeV::File(content@),
            FileTree::Directory { entries } => TreeV::Dir(entries_view(entries@)),
        }
    }
}

pub open spec fn entries_view(es: Seq<(Text, FileTree)>) -> Seq<(Seq<char>, TreeV)>
    decreases es, 0int,
{
    if es.len() == 0 {
        Seq::empty()
    } else {
        entries_view(es.drop_last()).push((es.last().0@, es.last().1.view()))
    }
}

pub proof fn lemma_entries_view(es: Seq<(Text, FileTree)>)
    ensures
        entries_view(es).len() == es.len(),
        forall|i: int|
            0 <= i < es.len() ==> #[trigger] entries_view(es)[i] == (es[i].0@, es[i].1.view()),
    decreases es.len(),
{
    if es.len() > 0 {
        lemma_entries_view(es.drop_last());
        assert(forall|i: int| 0 <= i < es.len() - 1 ==> es.drop_last()[i] == es[i]);
    }
}

/// Directory names strictly ascending: sorted and free of duplicates.
pub open spec fn sorted_names(es: Seq<(Seq<char>, TreeV)>) -> bool {
    forall|i: int, j: int| 0 <= i < j < es.len() ==> seq_lt(es[i].0, es[j].0)
}

/// A well-formed tree: every directory's names are strictly ascending, at
/// every level.
pub open spec fn wf(t: TreeV) -> bool
    decreases t, 1int,
{
    match t {
        TreeV::File(_) => true,
        TreeV::Dir(es) => sorted_names(es) && wf_entries(es),
    }
}

pub open spec fn wf_entries(es: Seq<(Seq<char>, TreeV)>) -> bool
    decreases es, 0int,
{
    if es.len() == 0 {
        true
    } else {
        wf_entries(es.drop_last()) && wf(es.last().1)
    }
}

pub proof fn lemma_wf_entries_index(es: Seq<(Seq<char>, TreeV)>)
    ensures
        wf_entries(es) <==> (forall|i: int| 0 <= i < es.len() ==> wf(#[trigger] es[i].1)),
    decreases es.len(),
{
    if es.len() > 0 {
        lemma_wf_entries_index(es.drop_last());
        assert(forall|i: int| 0 <= i < es.len() - 1 ==> es.drop_last()[i] == es[i]);
        if forall|i: int| 0 <= i < es.len() ==> wf(#[trigger] es[i].1) {
            assert(wf(es.last().1));
        }
    }
}

/// The subtree bound to `name`, scanning entries left to right.
pub open spec fn assoc(es: Seq<(Seq<char>, TreeV)>, name: Seq<char>) -> Option<TreeV>
    decreases es.len(),
{
    if es.len() == 0 {
        None
    } else if es[0].0 == name {
        Some(es[0].1)
    } else {
        assoc(es.drop_first(), name)
    }
}

/// The node reached by descending along `p` from `t`.
pub open spec fn get_at(t: TreeV, p: PathV) -> Option<TreeV>
    decreases p.len(),
{
    if p.len() == 0 {
        Some(t)
    } else {
        match t {
            TreeV::File(_) => None,
            TreeV::Dir(es) => match assoc(es, p[0]) {
                None => None,
                Some(sub) => get_at(sub, p.drop_first()),
            },
        }
    }
}

/// The content of the file at `p`, if `p` resolves to a file.
pub open spec fn file_at(t: TreeV, p: PathV) -> Option<Seq<char>> {
    match get_at(t, p) {
        Some(TreeV::File(c)) => Some(c),
        _ => None,
    }
}

/// The entries of the directory at `p`, if `p` resolves to a directory.
pub open spec fn dir_at(t: TreeV, p: PathV) -> Option<Seq<(Seq<char>, TreeV)>> {
    match get_at(t, p) {
        Some(TreeV::Dir(es)) => Some(es),
        _ => None,
    }
}

/// Index of the entry named `name`, if any.
fn find_entry(entries: &Vec<(Text, FileTree)>, name: &Text) -> (r: Option<usize>)
    ensures
        match r {
            Some(i) => i < entries@.len() && entries@[i as int].0@ == name@ && assoc(
                entries_view(entries@),
                name@,
            ) == Some(entries@[i as int].1.view()),
            None => assoc(entries_view(entries@), name@) is None,
        },
{
    proof {
        lemma_entries_view(entries@);
    }
    let ghost ev = entries_view(entries@);
    proof {
        assert(ev.skip(0) =~= ev);
    }
    let mut i: usize = 0;
    while i < entries.len()
        invariant
            0 <= i <= entries@.len(),
            entries@.len() == entries.len(),
            ev == entries_view(entries@),
            ev.len() == entries@.len(),
            forall|k: int|
                0 <= k < entries@.len() ==> #[trigger] ev[k] == (
                    entries@[k].0@,
                    entries@[k].1.view(),
                ),
            assoc(ev, name@) == assoc(ev.skip(i as int), name@),
        decreases entries@.len() - i,
    {
        if chars_eq(&entries[i].0, name) {
            proof {
                assert(ev.skip(i as int)[0] == ev[i as int]);
            }
            return Some(i);
        }
        proof {
            assert(ev.skip(i as int)[0] == ev[i as int]);
            assert(ev.skip(i as int).drop_first() =~= ev.skip(i + 1));
        }
        i = i + 1;
    }
    proof {
        assert(ev.skip(i as int).len() == 0);
    }
    None
}

fn file_content_from(tree: &FileTree, path: &TreePath, from: usize) -> (r: Option<Text>)
    requires
        from <= path@.len(),
    ensures
        match r {
            Some(c) => file_at(tree.view(), path.deep_view().skip(from as int)) == Some(c@),
            None => file_at(tree.view(), path.deep_view().skip(from as int)) is None,
        },
    decreases path@.len() - from,
{
    let ghost p = path.deep_view().skip(from as int);
    if from == path.len() {
        match tree {
            FileTree::File { content } => Some(copy_text(content)),
            FileTree::Directory { .. } => None,
        }
    } else {
        match tree {
            FileTree::File { .. } => None,
            FileTree::Directory { entries } => {
                proof {
                    assert(p[0] == path@[from as int].deep_view());
                    assert(path@[from as int].deep_view() =~= path@[from as int]@);
                }
                match find_entry(entries, &path[from]) {
                    None => None,
                    Some(i) => {
                        proof {
                            assert(p.drop_first() =~= path.deep_view().skip(from + 1));
                        }
                        file_content_from(&entries[i].1, path, from + 1)
                    },
                }
            },
        }
    }
}

/// The content of the file at `path`, or `PathNotFound`.
pub fn file_content(file_tree: &FileTree, path: &TreePath) -> (r: ScaffoldResult<Text>)
    ensures
        match r {
            Ok(c) => file_at(file_tree.view(), path.deep_view()) == Some(c@),
            Err(e) => file_at(file_tree.view(), path.deep_view()) is None && e is PathNotFound,
        },
{
    proof {
        assert(path.deep_view().skip(0) =~= path.deep_view());
    }
    match file_content_from(file_tree, path, 0) {
        Some(c) => Ok(c),
        None => Err(ScaffoldError::PathNotFound { path: join_path(path) }),
    }
}

impl FileTree {
    /// A fresh deep copy with the same shape and contents.
    #[verifier::loop_isolation(false)]
    pub fn duplicate(&self) -> (r: FileTree)
        ensures
            r.view() == self.view(),
        decreases self,
    {
        match self {
            FileTree::File { content } => FileTree::File { content: copy_text(content) },
            FileTree::Directory { entries } => {
                let mut out: Vec<(Text, FileTree)> = Vec::new();
                let mut i: usize = 0;
                while i < entries.len()
                    invariant
                        0 <= i <= entries@.len(),
                        entries@.len() == entries.len(),
                        out@.len() == i,
                        forall|k: int|
                            0 <= k < i ==> #[trigger] out@[k].0@ == entries@[k].0@ && out@[k].1.view()
                                == entries@[k].1.view(),
                    decreases entries@.len() - i,
                {
                    let name = copy_text(&entries[i].0);
                    proof {
                        assert(decreases_to!(*self => *entries));
                        assert(decreases_to!(*entries => entries@));
                        assert(decreases_to!(entries@ => entries@[i as int]));
                        assert(decreases_to!(entries@[i as int] => entries@[i as int].1));
                    }
                    let sub = entries[i].1.duplicate();
                    out.push((name, sub));
                    i = i + 1;
                }
                proof {
                    lemma_entries_view(out@);
                    lemma_entries_view(entries@);
                    assert(entries_view(out@) =~= entries_view(entries@));
                }
                FileTree::Directory { entries: out }
            },
        }
    }
}

fn dir_entries_from<'a>(tree: &'a FileTree, path: &TreePath, from: usize) -> (r: Option<
    &'a Vec<(Text, FileTree)>,
>)
    requires
        from <= path@.len(),
    ensures
        match r {
            Some(es) => dir_at(tree.view(), path.deep_view().skip(from as int)) == Some(
                entries_view(es@),
            ),
            None => dir_at(tree.view(), path.deep_view().skip(from as int)) is None,
        },
    decreases path@.len() - from,
{
    let ghost p = path.deep_view().skip(from as int);
    if from == path.len() {
        match tree {
            FileTree::File { .. } => None,
            FileTree::Directory { entries } => Some(entries),
        }
    } else {
        match tree {
            FileTree::File { .. } => None,
            FileTree::Directory { entries } => {
                proof {
                    assert(p[0] == path@[from as int].deep_view());
                    assert(path@[from as int].deep_view() =~= path@[from as int]@);
                }
                match find_entry(entries, &path[from]) {
                    None => None,
                    Some(i) => {
                        proof {
                            assert(p.drop_first() =~= path.deep_view().skip(from + 1));
                        }
                        dir_entries_from(&entries[i].1, path, from + 1)
                    },
                }
            },
        }
    }
}

/// The entries of the directory at `path`, copied, or `PathNotFound`.
pub fn dir_content(file_tree: &FileTree, path: &TreePath) -> (r: ScaffoldResult<
    Vec<(Text, FileTree)>,
>)
    ensures
        match r {
            Ok(es) => dir_at(file_tree.view(), path.deep_view()) == Some(entries_view(es@)),
            Err(e) => dir_at(file_tree.view(), path.deep_view()) is None && e is PathNotFound,
        },
{
    proof {
        assert(path.deep_view().skip(0) =~= path.deep_view());
    }
    match dir_entries_from(file_tree, path, 0) {
        Some(es) => {
            let mut out: Vec<(Text, FileTree)> = Vec::new();
            let mut i: usize = 0;
            while i < es.len()
                invariant
                    0 <= i <= es@.len(),
                    es@.len() == es.len(),
                    out@.len() == i,
                    forall|k: int|
                        0 <= k < i ==> #[trigger] out@[k].0@ == es@[k].0@ && out@[k].1.view()
                            == es@[k].1.view(),
                decreases es@.len() - i,
            {
                let name = copy_text(&es[i].0);
                let sub = es[i].1.duplicate();
                out.push((name, sub));
                i = i + 1;
            }
            proof {
                lemma_entries_view(out@);
                lemma_entries_view(es@);
                assert(entries_view(out@) =~= entries_view(es@));
            }
            Ok(out)
        },
        None => Err(ScaffoldError::PathNotFound { path: join_path(path) }),
    }
}

/// Whether `path` resolves to a directory.
pub fn dir_exists(file_tree: &FileTree, path: &TreePath) -> (r: bool)
    ensures
        r == (dir_at(file_tree.view(), path.deep_view()) is Some),
{
    proof {
        assert(path.deep_view().skip(0) =~= path.deep_view());
    }
    match dir_entries_from(file_tree, path, 0) {
        Some(_) => true,
        None => false,
    }
}

/// The segments joined with `/` between them.
pub open spec fn spec_join(ps: Seq<Seq<char>>) -> Seq<char>
    decreases ps.len(),
{
    if ps.len() == 0 {
        Seq::empty()
    } else if ps.len() == 1 {
        ps[0]
    } else {
        spec_join(ps.drop_last()) + seq!['/'] + ps.last()
    }
}

pub fn join_path(p: &TreePath) -> (r: Text)
    ensures
        r@ == spec_join(p.deep_view()),
{
    let mut out: Text = Vec::new();
    let mut i: usize = 0;
    while i < p.len()
        invariant
            0 <= i <= p@.len(),
            p@.len() == p.len(),
            out@ == spec_join(p.deep_view().take(i as int)),
        decreases p@.len() - i,
    {
        if i > 0 {
            out.push('/');
        }
        push_text(&mut out, &p[i]);
        proof {
            let dv = p.deep_view();
            assert(dv.take(i + 1).drop_last() =~= dv.take(i as int));
            assert(dv.take(i + 1).last() == dv[i as int]);
            assert(dv[i as int] == p@[i as int].deep_view());
            if i == 0 {
                assert(out@ =~= spec_join(dv.take(1)));
            } else {
                assert(out@ =~= spec_join(dv.take(i as int)) + seq!['/'] + dv[i as int]);
            }
        }
        i = i + 1;
    }
    proof {
        assert(p.deep_view().take(p@.len() as int) =~= p.deep_view());
    }
    out
}


/// One flattened entry: a path, and the file content, or nothing for an
/// otherwise-empty directory.
pub type FlatEntryV = (Seq<Seq<char>>, Option<Seq<char>>);

pub open spec fn fentry_view(e: (TreePath, Option<Text>)) -> FlatEntryV {
    (
        e.0.deep_view(),
        match e.1 {
            Some(c) => Some(c@),
            None => None,
        },
    )
}

pub open spec fn fentries_view(s: Seq<(TreePath, Option<Text>)>) -> Seq<FlatEntryV> {
    s.map_values(|e: (TreePath, Option<Text>)| fentry_view(e))
}

/// The flattened form of the subtree `t` that sits at path `pre`: every file
/// with its content, every otherwise-empty directory as a `None` entry, in
/// depth-first entry order.
pub open spec fn flat_pre(pre: PathV, t: TreeV) -> Seq<FlatEntryV>
    decreases t, 1int,
{
    match t {
        TreeV::File(c) => seq![(pre, Some(c))],
        TreeV::Dir(es) => {
            if es.len() == 0 {
                seq![(pre, None::<Seq<char>>)]
            } else {
                flat_entries_pre(pre, es)
            }
        },
    }
}

pub open spec fn flat_entries_pre(pre: PathV, es: Seq<(Seq<char>, TreeV)>) -> Seq<FlatEntryV>
    decreases es, 0int,
{
    if es.len() == 0 {
        Seq::empty()
    } else {
        flat_entries_pre(pre, es.drop_last()) + flat_pre(pre.push(es.last().0), es.last().1)
    }
}

/// The flattened form of a whole tree. A file at the root is listed under the
/// empty path; an empty root directory has no entries.
pub open spec fn flat(t: TreeV) -> Seq<FlatEntryV> {
    match t {
        TreeV::File(c) => seq![(Seq::<Seq<char>>::empty(), Some(c))],
        TreeV::Dir(es) => flat_entries_pre(Seq::empty(), es),
    }
}

/// A fresh copy of a path.
pub fn copy_path(p: &TreePath) -> (r: TreePath)
    ensures
        r.deep_view() == p.deep_view(),
{
    let mut out: TreePath = Vec::new();
    let mut i: usize = 0;
    while i < p.len()
        invariant
            0 <= i <= p@.len(),
            p@.len() == p.len(),
            out@.len() == i,
            forall|k: int| 0 <= k < i ==> #[trigger] out@[k]@ == p@[k]@,
        decreases p@.len() - i,
    {
        out.push(copy_text(&p[i]));
        i = i + 1;
    }
    proof {
        assert(out.deep_view() =~~= p.deep_view());
    }
    out
}

#[verifier::loop_isolation(false)]
fn flatten_entries(
    pre: &TreePath,
    entries: &Vec<(Text, FileTree)>,
    out: &mut Vec<(TreePath, Option<Text>)>,
)
    ensures
        fentries_view(final(out)@) == fentries_view(old(out)@) + flat_entries_pre(
            pre.deep_view(),
            entries_view(entries@),
        ),
    decreases *entries, 0int,
{
    proof {
        lemma_entries_view(entries@);
    }
    let ghost ev = entries_view(entries@);
    let ghost out0 = out@;
    let mut i: usize = 0;
    while i < entries.len()
        invariant
            0 <= i <= entries@.len(),
            fentries_view(out@) == fentries_view(out0) + flat_entries_pre(
                pre.deep_view(),
                ev.take(i as int),
            ),
        decreases entries@.len() - i,
    {
        let mut pre2 = copy_path(pre);
        pre2.push(copy_text(&entries[i].0));
        proof {
            assert(pre2.deep_view() =~~= pre.deep_view().push(entries@[i as int].0@));
            assert(decreases_to!(*entries => entries@));
            assert(decreases_to!(entries@ => entries@[i as int]));
            assert(decreases_to!(entries@[i as int] => entries@[i as int].1));
        }
        flatten_into(&pre2, &entries[i].1, out);
        proof {
            assert(ev.take(i + 1).drop_last() =~= ev.take(i as int));
            assert(ev.take(i + 1).last() == ev[i as int]);
            assert(flat_entries_pre(pre.deep_view(), ev.take(i + 1)) == flat_entries_pre(
                pre.deep_view(),
                ev.take(i as int),
            ) + flat_pre(pre.deep_view().push(ev[i as int].0), ev[i as int].1));
            assert(fentries_view(out@) =~= fentries_view(out0) + flat_entries_pre(
                pre.deep_view(),
                ev.take(i + 1),
            ));
        }
        i = i + 1;
    }
    proof {
        assert(ev.take(entries@.len() as int) =~= ev);
    }
}

fn flatten_into(pre: &TreePath, t: &FileTree, out: &mut Vec<(TreePath, Option<Text>)>)
    ensures
        fentries_view(final(out)@) == fentries_view(old(out)@) + flat_pre(
            pre.deep_view(),
            t.view(),
        ),
    decreases *t, 1int,
{
    match t {
        FileTree::File { content } => {
            let ghost out0 = out@;
            out.push((copy_path(pre), Some(copy_text(content))));
            proof {
                assert(fentries_view(out@) =~= fentries_view(out0) + flat_pre(
                    pre.deep_view(),
                    t.view(),
                ));
            }
        },
        FileTree::Directory { entries } => {
            if entries.len() == 0 {
                let ghost out0 = out@;
                out.push((copy_path(pre), None));
                proof {
                    lemma_entries_view(entries@);
                    assert(fentries_view(out@) =~= fentries_view(out0) + flat_pre(
                        pre.deep_view(),
                        t.view(),
                    ));
                }
            } else {
                proof {
                    lemma_entries_view(entries@);
                    assert(decreases_to!(*t => *entries));
                }
                flatten_entries(pre, entries, out);
            }
        },
    }
}

/// Flatten a tree into the list of its files and otherwise-empty
/// directories, in depth-first order; with sorted directories this order is
/// lexicographic by path.
pub fn flatten_file_tree(t: &FileTree) -> (r: Vec<(TreePath, Option<Text>)>)
    ensures
        fentries_view(r@) == flat(t.view()),
{
    let mut out: Vec<(TreePath, Option<Text>)> = Vec::new();
    match t {
        FileTree::File { content } => {
            let empty_path: TreePath = Vec::new();
            proof {
                assert(empty_path.deep_view() =~~= Seq::<Seq<char>>::empty());
            }
            out.push((empty_path, Some(copy_text(content))));
            proof {
                assert(fentries_view(out@) =~= flat(t.view()));
            }
        },
        FileTree::Directory { entries } => {
            let pre: TreePath = Vec::new();
            proof {
                lemma_entries_view(entries@);
                assert(pre.deep_view() =~~= Seq::<Seq<char>>::empty());
                assert(fentries_view(out@) =~= Seq::<FlatEntryV>::empty());
            }
            flatten_entries(&pre, entries, &mut out);
        },
    }
    out
}


/// How many leading entries have names strictly below `name`; with sorted
/// names this is the insertion position for `name`.
pub open spec fn lb_count(es: Seq<(Seq<char>, TreeV)>, name: Seq<char>) -> int
    decreases es.len(),
{
    if es.len() == 0 {
        0
    } else if seq_lt(es[0].0, name) {
        1 + lb_count(es.drop_first(), name)
    } else {
        0
    }
}

pub proof fn lemma_lb_count_bounds(es: Seq<(Seq<char>, TreeV)>, name: Seq<char>)
    ensures
        0 <= lb_count(es, name) <= es.len(),
    decreases es.len(),
{
    if es.len() > 0 && seq_lt(es[0].0, name) {
        lemma_lb_count_bounds(es.drop_first(), name);
    }
}

/// The entry list with `name` bound to `sub`: replaces the entry at the
/// insertion position when its name is `name`, otherwise inserts there.
pub open spec fn set_entry(es: Seq<(Seq<char>, TreeV)>, name: Seq<char>, sub: TreeV) -> Seq<
    (Seq<char>, TreeV),
> {
    let j = lb_count(es, name);
    if j < es.len() && es[j].0 == name {
        es.take(j) + seq![(name, sub)] + es.skip(j + 1)
    } else {
        es.take(j) + seq![(name, sub)] + es.skip(j)
    }
}

pub open spec fn opt_text_view(o: Option<Text>) -> Option<Seq<char>> {
    match o {
        Some(c) => Some(c@),
        None => None,
    }
}

/// The tree after placing `node` at path `p`: a file content, or `None` for
/// an empty-directory marker. Missing intermediate directories are created.
/// The result is `None` exactly when the placement conflicts with a file
/// already on the way, with a non-empty directory where the file would go,
/// or with a file where the directory marker points.
pub open spec fn insert_at(t: TreeV, p: PathV, node: Option<Seq<char>>) -> Option<TreeV>
    decreases p.len(),
{
    if p.len() == 0 {
        match node {
            None => match t {
                TreeV::Dir(_) => Some(t),
                TreeV::File(_) => None,
            },
            Some(c) => match t {
                TreeV::File(_) => Some(TreeV::File(c)),
                TreeV::Dir(es) => {
                    if es.len() == 0 {
                        Some(TreeV::File(c))
                    } else {
                        None
                    }
                },
            },
        }
    } else {
        match t {
            TreeV::File(_) => None,
            TreeV::Dir(es) => {
                let j = lb_count(es, p[0]);
                let child = if j < es.len() && es[j].0 == p[0] {
                    es[j].1
                } else {
                    TreeV::Dir(Seq::empty())
                };
                match insert_at(child, p.drop_first(), node) {
                    None => None,
                    Some(nc) => Some(TreeV::Dir(set_entry(es, p[0], nc))),
                }
            },
        }
    }
}

fn copy_opt_text(o: &Option<Text>) -> (r: Option<Text>)
    ensures
        opt_text_view(r) == opt_text_view(*o),
{
    match o {
        Some(c) => Some(copy_text(c)),
        None => None,
    }
}

/// Well-formedness is kept by `set_entry` when the new name lands at its
/// sorted position.
pub proof fn lemma_set_entry_wf(es: Seq<(Seq<char>, TreeV)>, name: Seq<char>, sub: TreeV)
    requires
        sorted_names(es),
        wf_entries(es),
        wf(sub),
    ensures
        sorted_names(set_entry(es, name, sub)),
        wf_entries(set_entry(es, name, sub)),
{
    lemma_lb_count_bounds(es, name);
    lemma_lb_pos(es, name);
    let j = lb_count(es, name);
    let r = set_entry(es, name, sub);
    lemma_wf_entries_index(es);
    if j < es.len() && es[j].0 == name {
        assert(r.len() == es.len());
        assert(forall|k: int| 0 <= k < r.len() && k != j ==> r[k] == es[k]);
        assert(r[j].0 == es[j].0);
        assert(sorted_names(r));
        assert forall|k: int| 0 <= k < r.len() implies wf(#[trigger] r[k].1) by {
            if k != j {
                assert(r[k] == es[k]);
            }
        }
        lemma_wf_entries_index(r);
    } else {
        assert(r.len() == es.len() + 1);
        assert(forall|k: int| 0 <= k < j ==> r[k] == es[k]);
        assert(r[j] == (name, sub));
        assert(forall|k: int| j < k < r.len() ==> r[k] == es[k - 1]);
        assert forall|a: int, b: int| 0 <= a < b < r.len() implies seq_lt(r[a].0, r[b].0) by {
            if a < j && b == j {
            } else if a == j {
                if b == j + 1 {
                } else {
                    lemma_seq_lt_transitive(name, es[j].0, es[b - 1].0);
                }
            } else if b == j {
            } else if a < j && b > j {
                if b == j + 1 && j == es.len() {
                } else {
                }
            }
        }
        assert forall|k: int| 0 <= k < r.len() implies wf(#[trigger] r[k].1) by {
            if k < j {
                assert(r[k] == es[k]);
            } else if k > j {
                assert(r[k] == es[k - 1]);
            }
        }
        lemma_wf_entries_index(r);
    }
}

/// Every name before the insertion position is below `name`; the name at the
/// position, if any, is not below it.
pub proof fn lemma_lb_pos(es: Seq<(Seq<char>, TreeV)>, name: Seq<char>)
    ensures
        forall|k: int| 0 <= k < lb_count(es, name) ==> seq_lt(#[trigger] es[k].0, name),
        lb_count(es, name) < es.len() ==> !seq_lt(es[lb_count(es, name)].0, name),
        sorted_names(es) && lb_count(es, name) < es.len() && es[lb_count(es, name)].0 != name
            ==> seq_lt(name, es[lb_count(es, name)].0),
    decreases es.len(),
{
    lemma_lb_count_bounds(es, name);
    let j = lb_count(es, name);
    if es.len() == 0 {
    } else if seq_lt(es[0].0, name) {
        lemma_lb_count_bounds(es.drop_first(), name);
        lemma_lb_pos(es.drop_first(), name);
        assert(forall|k: int| 0 <= k < es.len() - 1 ==> #[trigger] es.drop_first()[k] == es[k + 1]);
        assert forall|k: int| 0 <= k < j implies seq_lt(#[trigger] es[k].0, name) by {
            if k > 0 {
                assert(es.drop_first()[k - 1] == es[k]);
            }
        }
        if j < es.len() {
            assert(es.drop_first()[j - 1] == es[j]);
        }
        if sorted_names(es) && j < es.len() && es[j].0 != name {
            assert(sorted_names(es.drop_first()));
        }
    } else {
        if j < es.len() && es[j].0 != name {
            lemma_seq_lt_total(es[0].0, name);
        }
    }
}


/// Position where `name` sits or would be inserted.
fn lb_position(entries: &Vec<(Text, FileTree)>, name: &Text) -> (j: usize)
    ensures
        j <= entries@.len(),
        j as int == lb_count(entries_view(entries@), name@),
{
    proof {
        lemma_entries_view(entries@);
    }
    let ghost ev = entries_view(entries@);
    proof {
        assert(ev.skip(0) =~= ev);
    }
    let mut j: usize = 0;
    loop
        invariant
            0 <= j <= entries@.len(),
            entries@.len() == entries.len(),
            ev == entries_view(entries@),
            ev.len() == entries@.len(),
            forall|k: int|
                0 <= k < entries@.len() ==> #[trigger] ev[k] == (
                    entries@[k].0@,
                    entries@[k].1.view(),
                ),
            lb_count(ev, name@) == j + lb_count(ev.skip(j as int), name@),
        decreases entries@.len() - j,
    {
        if j == entries.len() {
            proof {
                assert(ev.skip(j as int).len() == 0);
            }
            return j;
        }
        let c = chars_cmp(&entries[j].0, name);
        if c != -1 {
            proof {
                assert(ev.skip(j as int)[0] == ev[j as int]);
                if c == 0 {
                    lemma_seq_lt_irreflexive(name@);
                } else {
                    lemma_seq_lt_asymmetric(entries@[j as int].0@, name@);
                }
            }
            return j;
        }
        proof {
            assert(ev.skip(j as int)[0] == ev[j as int]);
            assert(ev.skip(j as int).drop_first() =~= ev.skip(j + 1));
        }
        j = j + 1;
    }
}

/// Place `node` at `path[from..]` in `t`, keeping the tree well-formed; an
/// error is a conflict, exactly when the model placement has none.
#[verifier::loop_isolation(false)]
fn tree_insert_at(t: FileTree, path: &TreePath, from: usize, node: &Option<Text>) -> (r: Result<
    FileTree,
    (),
>)
    requires
        from <= path@.len(),
        wf(t.view()),
    ensures
        match r {
            Ok(t2) => insert_at(t.view(), path.deep_view().skip(from as int), opt_text_view(*node))
                == Some(t2.view()) && wf(t2.view()),
            Err(_) => insert_at(
                t.view(),
                path.deep_view().skip(from as int),
                opt_text_view(*node),
            ) is None,
        },
    decreases path@.len() - from,
{
    let ghost t0 = t.view();
    let ghost p = path.deep_view().skip(from as int);
    if from == path.len() {
        match node {
            None => match t {
                FileTree::Directory { .. } => Ok(t),
                FileTree::File { .. } => Err(()),
            },
            Some(c) => match t {
                FileTree::File { .. } => Ok(FileTree::File { content: copy_text(c) }),
                FileTree::Directory { entries } => {
                    proof {
                        lemma_entries_view(entries@);
                    }
                    if entries.len() == 0 {
                        Ok(FileTree::File { content: copy_text(c) })
                    } else {
                        Err(())
                    }
                },
            },
        }
    } else {
        match t {
            FileTree::File { .. } => Err(()),
            FileTree::Directory { mut entries } => {
                proof {
                    lemma_entries_view(entries@);
                    assert(p[0] == path@[from as int].deep_view());
                    assert(path@[from as int].deep_view() =~= path@[from as int]@);
                }
                let ghost ev = entries_view(entries@);
                let ghost name = p[0];
                let j = lb_position(&entries, &path[from]);
                let hit = if j < entries.len() {
                    chars_eq(&entries[j].0, &path[from])
                } else {
                    false
                };
                proof {
                    lemma_wf_entries_index(ev);
                }
                let pair = if hit {
                    entries.remove(j)
                } else {
                    (copy_text(&path[from]), FileTree::Directory { entries: Vec::new() })
                };
                let (childname, child) = pair;
                proof {
                    if hit {
                        assert(child.view() == ev[j as int].1);
                    } else {
                        assert(child.view() =~= TreeV::Dir(Seq::empty()));
                    }
                    assert(wf(child.view()));
                    assert(p.drop_first() =~= path.deep_view().skip(from + 1));
                }
                match tree_insert_at(child, path, from + 1, node) {
                    Err(_) => Err(()),
                    Ok(nc) => {
                        let ghost ncv = nc.view();
                        let ghost pre_ins = entries@;
                        entries.insert(j, (childname, nc));
                        proof {
                            lemma_entries_view(pre_ins);
                            lemma_entries_view(entries@);
                            lemma_lb_count_bounds(ev, name);
                            assert(entries_view(entries@) =~= set_entry(ev, name, ncv));
                            lemma_set_entry_wf(ev, name, ncv);
                        }
                        Ok(FileTree::Directory { entries })
                    },
                }
            },
        }
    }
}

/// Whether some entry of `s` has path `p`.
pub open spec fn key_in(s: Seq<FlatEntryV>, p: PathV) -> bool {
    exists|k: int| 0 <= k < s.len() && s[k].0 == p
}

/// The entries with only the last occurrence of each path kept, in the order
/// of those last occurrences.
pub open spec fn dedup_last(s: Seq<FlatEntryV>) -> Seq<FlatEntryV>
    decreases s.len(),
{
    if s.len() == 0 {
        Seq::empty()
    } else if key_in(s.drop_first(), s[0].0) {
        dedup_last(s.drop_first())
    } else {
        seq![s[0]] + dedup_last(s.drop_first())
    }
}

/// The tree grown from `t` by placing each entry in order; `None` as soon as
/// one placement conflicts.
pub open spec fn build_tree(t: Option<TreeV>, s: Seq<FlatEntryV>) -> Option<TreeV>
    decreases s.len(),
{
    match t {
        None => None,
        Some(t0) => {
            if s.len() == 0 {
                Some(t0)
            } else {
                build_tree(insert_at(t0, s[0].0, s[0].1), s.drop_first())
            }
        },
    }
}

/// The tree described by a flattened entry list: later entries override
/// earlier ones with the same path, and the result is `None` exactly when
/// some path would have to be both a file and hold children.
pub open spec fn unflat(s: Seq<FlatEntryV>) -> Option<TreeV> {
    build_tree(Some(TreeV::Dir(Seq::empty())), dedup_last(s))
}

/// Whether two paths are the same sequence of segments.
pub fn path_key_eq(a: &TreePath, b: &TreePath) -> (r: bool)
    ensures
        r == (a.deep_view() == b.deep_view()),
{
    if a.len() != b.len() {
        proof {
            assert(a.deep_view().len() == a@.len());
            assert(b.deep_view().len() == b@.len());
        }
        return false;
    }
    let mut i: usize = 0;
    while i < a.len()
        invariant
            0 <= i <= a@.len(),
            a@.len() == a.len(),
            b@.len() == b.len(),
            a@.len() == b@.len(),
            forall|k: int| 0 <= k < i ==> #[trigger] a@[k]@ == b@[k]@,
        decreases a@.len() - i,
    {
        if !chars_eq(&a[i], &b[i]) {
            proof {
                assert(a@[i as int].deep_view() =~= a@[i as int]@);
                assert(b@[i as int].deep_view() =~= b@[i as int]@);
                assert(a.deep_view()[i as int] == a@[i as int].deep_view());
                assert(b.deep_view()[i as int] == b@[i as int].deep_view());
            }
            return false;
        }
        i = i + 1;
    }
    proof {
        assert(a.deep_view() =~~= b.deep_view());
    }
    true
}

/// Whether the path of entry `i` occurs again strictly after `i`.
fn path_recurs_later(entries: &Vec<(TreePath, Option<Text>)>, i: usize) -> (r: bool)
    requires
        i < entries@.len(),
    ensures
        r == key_in(
            fentries_view(entries@).skip(i + 1),
            fentries_view(entries@)[i as int].0,
        ),
{
    let ghost fv = fentries_view(entries@);
    let ghost p = fv[i as int].0;
    let total = entries.len();
    proof {
        assert(i < total);
    }
    let mut k: usize = i + 1;
    while k < entries.len()
        invariant
            i < k <= entries@.len(),
            entries@.len() == entries.len(),
            fv == fentries_view(entries@),
            fv.len() == entries@.len(),
            p == fv[i as int].0,
            forall|m: int| i < m < k ==> #[trigger] fv[m].0 != p,
        decreases entries@.len() - k,
    {
        if path_key_eq(&entries[i].0, &entries[k].0) {
            proof {
                assert(fv[k as int] == fentry_view(entries@[k as int]));
                assert(fv[i as int] == fentry_view(entries@[i as int]));
                assert(fv.skip(i + 1)[k - i - 1] == fv[k as int]);
            }
            return true;
        }
        proof {
            assert(fv[k as int] == fentry_view(entries@[k as int]));
            assert(fv[i as int] == fentry_view(entries@[i as int]));
        }
        k = k + 1;
    }
    proof {
        if key_in(fv.skip(i + 1), p) {
            let w = choose|w: int| 0 <= w < fv.skip(i + 1).len() && #[trigger] fv.skip(i + 1)[w].0
                == p;
            assert(fv.skip(i + 1)[w] == fv[w + i + 1]);
        }
    }
    false
}

/// Rebuild the nested tree a flattened entry list describes. Later entries
/// win over earlier ones with the same path; a path that would have to be a
/// file and hold children at once is a `TreeConflict`.
pub fn unflatten_file_tree(entries: &Vec<(TreePath, Option<Text>)>) -> (r: ScaffoldResult<
    FileTree,
>)
    ensures
        match r {
            Ok(t) => unflat(fentries_view(entries@)) == Some(t.view()) && wf(t.view()),
            Err(e) => unflat(fentries_view(entries@)) is None && e is TreeConflict,
        },
{
    let ghost fv = fentries_view(entries@);
    let mut kept: Vec<(TreePath, Option<Text>)> = Vec::new();
    let mut i: usize = 0;
    proof {
        assert(fv.skip(0) =~= fv);
        assert(fentries_view(kept@) =~= Seq::<FlatEntryV>::empty());
    }
    while i < entries.len()
        invariant
            0 <= i <= entries@.len(),
            entries@.len() == entries.len(),
            fv == fentries_view(entries@),
            fv.len() == entries@.len(),
            dedup_last(fv) == fentries_view(kept@) + dedup_last(fv.skip(i as int)),
        decreases entries@.len() - i,
    {
        let later = path_recurs_later(entries, i);
        proof {
            assert(fv.skip(i as int)[0] == fv[i as int]);
            assert(fv.skip(i as int).drop_first() =~= fv.skip(i + 1));
        }
        if !later {
            let ghost kept0 = fentries_view(kept@);
            let e = (copy_path(&entries[i].0), copy_opt_text(&entries[i].1));
            proof {
                assert(fentry_view(e) == fv[i as int]);
            }
            kept.push(e);
            proof {
                assert(fentries_view(kept@) =~= kept0 + seq![fv[i as int]]);
                assert((kept0 + seq![fv[i as int]]) + dedup_last(fv.skip(i + 1)) =~= kept0 + (seq![
                    fv[i as int],
                ] + dedup_last(fv.skip(i + 1))));
            }
        }
        i = i + 1;
    }
    proof {
        assert(fv.skip(fv.len() as int).len() == 0);
        assert(fentries_view(kept@) + dedup_last(fv.skip(fv.len() as int)) =~= fentries_view(
            kept@,
        ));
    }
    let ghost kv = fentries_view(kept@);
    let mut cur = FileTree::Directory { entries: Vec::new() };
    proof {
        lemma_entries_view(Seq::<(Text, FileTree)>::empty());
        assert(cur.view() =~= TreeV::Dir(Seq::empty()));
        assert(kv.skip(0) =~= kv);
    }
    let mut n: usize = 0;
    while n < kept.len()
        invariant
            0 <= n <= kept@.len(),
            kept@.len() == kept.len(),
            kv == fentries_view(kept@),
            kv.len() == kept@.len(),
            fv == fentries_view(entries@),
            wf(cur.view()),
            unflat(fv) == build_tree(Some(cur.view()), kv.skip(n as int)),
        decreases kept@.len() - n,
    {
        proof {
            assert(kv.skip(n as int)[0] == kv[n as int]);
            assert(kv[n as int] == fentry_view(kept@[n as int]));
            assert(kv.skip(n as int).drop_first() =~= kv.skip(n + 1));
            assert(kept@[n as int].0.deep_view().skip(0) =~= kept@[n as int].0.deep_view());
        }
        let ghost curv = cur.view();
        cur = match tree_insert_at(cur, &kept[n].0, 0, &kept[n].1) {
            Ok(t2) => t2,
            Err(_) => {
                proof {
                    assert(kv[n as int].0 == kept@[n as int].0.deep_view());
                    assert(kv[n as int].1 == opt_text_view(kept@[n as int].1));
                    assert(insert_at(curv, kv[n as int].0, kv[n as int].1) is None);
                    assert(unflat(fv) == build_tree(Some(curv), kv.skip(n as int)));
                    assert(build_tree(Some(curv), kv.skip(n as int)) == build_tree(
                        insert_at(curv, kv.skip(n as int)[0].0, kv.skip(n as int)[0].1),
                        kv.skip(n as int).drop_first(),
                    ));
                    assert(build_tree(None::<TreeV>, kv.skip(n + 1)) is None);
                    assert(unflat(fv) is None);
                }
                return Err(ScaffoldError::TreeConflict { path: join_path(&kept[n].0) });
            },
        };
        n = n + 1;
    }
    proof {
        assert(kv.skip(kv.len() as int).len() == 0);
    }
    Ok(cur)
}

} // verus!
