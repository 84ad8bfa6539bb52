//! The traverser: expands a root path into the list of regular files under
//! it, one filesystem observation at a time. The caller looks the next
//! pending path up (its metadata, and a directory's children) and hands the
//! outcome in as an [`EntryKind`]; every decision in between is made here.
//! Pending paths are kept on a stack, so files are discovered depth-first;
//! the order across files is a design freedom and not part of any contract.

use vstd::prelude::*;

verus! {

/// What the filesystem shows for one pending path.
pub enum EntryKind {
    /// The path has no metadata: it does not exist or is inaccessible.
    /// Dropped with a diagnostic; traversal goes on.
    Missing,
    /// The path is a directory with these immediate children. A directory
    /// whose children cannot be listed is handed in with no children.
    Directory(Vec<String>),
    /// The path is a regular file.
    RegularFile,
}

/// The mathematical counterpart of [`EntryKind`].
pub enum EntryModel {
    Missing,
    Directory(Seq<Seq<char>>),
    RegularFile,
}

impl View for EntryKind {
    type V = EntryModel;

    open spec fn view(&self) -> EntryModel {
        match self {
            EntryKind::Missing => EntryModel::Missing,
            EntryKind::Directory(cs) => EntryModel::Directory(
                Seq::new(cs@.len(), |i: int| cs@[i]@),
            ),
            EntryKind::RegularFile => EntryModel::RegularFile,
        }
    }
}

/// The mathematical state of a traversal: the paths still to classify and
/// the regular files found so far.
pub struct TraversalModel {
    pub pending: Seq<Seq<char>>,
    pub files: Seq<Seq<char>>,
}

/// The state a traversal starts in: the root pending, no file found.
pub open spec fn spec_init(root: Seq<char>) -> TraversalModel {
    TraversalModel { pending: seq![root], files: Seq::empty() }
}

/// One traversal step, classifying the most recently pending path: a missing
/// path is dropped, a directory is replaced by its children, a regular file
/// moves to the file list.
pub open spec fn spec_step(t: TraversalModel, e: EntryModel) -> TraversalModel {
    let p = t.pending.last();
    let rest = t.pending.drop_last();
    match e {
        EntryModel::Missing => TraversalModel { pending: rest, files: t.files },
        EntryModel::Directory(cs) => TraversalModel { pending: rest + cs, files: t.files },
        EntryModel::RegularFile => TraversalModel { pending: rest, files: t.files.push(p) },
    }
}

/// A traversal in progress.
pub struct Traversal {
    pub pending: Vec<String>,
    pub files: Vec<String>,
}

impl View for Traversal {
    type V = TraversalModel;

    open spec fn view(&self) -> TraversalModel {
        TraversalModel {
            pending: Seq::new(self.pending@.len(), |i: int| self.pending@[i]@),
            files: Seq::new(self.files@.len(), |i: int| self.files@[i]@),
        }
    }
}

impl Traversal {
    /// Starts a traversal at `root`.
    pub fn new(root: String) -> (t: Traversal)
        ensures
            t@ == spec_init(root@),
    {
        let mut pending: Vec<String> = Vec::new();
        pending.push(root);
        let t = Traversal { pending, files: Vec::new() };
        proof {
            assert(t@.pending =~= spec_init(root@).pending);
            assert(t@.files =~= spec_init(root@).files);
        }
        t
    }

    /// Whether every path has been classified.
    pub fn done(&self) -> (r: bool)
        ensures
            r == (self@.pending.len() == 0),
    {
        self.pending.len() == 0
    }

    /// The path the next step will classify.
    pub fn next_path(&self) -> (r: &String)
        requires
            self@.pending.len() > 0,
        ensures
            r@ == self@.pending.last(),
    {
        &self.pending[self.pending.len() - 1]
    }

    /// Performs one step on the pending path that `next_path` names, given
    /// what the filesystem shows for it.
    pub fn step(&mut self, kind: EntryKind)
        requires
            old(self)@.pending.len() > 0,
        ensures
            final(self)@ == spec_step(old(self)@, kind@),
    {
        let ghost t0 = self@;
        let ghost e = kind@;
        match kind {
            EntryKind::Missing => {
                let _ = self.pending.pop();
                proof {
                    assert(self@.pending =~= spec_step(t0, e).pending);
                    assert(self@.files =~= spec_step(t0, e).files);
                }
            },
            EntryKind::Directory(mut cs) => {
                let ghost csv = cs@;
                let _ = self.pending.pop();
                self.pending.append(&mut cs);
                proof {
                    assert forall|i: int| 0 <= i < self@.pending.len() implies self@.pending[i]
                        == spec_step(t0, e).pending[i] by {
                        if i < t0.pending.len() - 1 {
                            assert(self.pending@[i] == old(self).pending@[i]);
                        } else {
                            assert(self.pending@[i] == csv[i - (t0.pending.len() - 1)]);
                        }
                    };
                    assert(self@.pending =~= spec_step(t0, e).pending);
                    assert(self@.files =~= spec_step(t0, e).files);
                }
            },
            EntryKind::RegularFile => {
                let p_opt = self.pending.pop();
                let p = p_opt.unwrap();
                self.files.push(p);
                proof {
                    assert(self@.pending =~= spec_step(t0, e).pending);
                    assert(self@.files =~= spec_step(t0, e).files);
                }
            },
        }
    }

    /// Hands the accumulated file list out once traversal is complete.
    pub fn into_files(self) -> (r: Vec<String>)
        ensures
            Seq::new(r@.len(), |i: int| r@[i]@) == self@.files,
    {
        let ghost fv = self@.files;
        let files = self.files;
        proof {
            assert(Seq::new(files@.len(), |i: int| files@[i]@) =~= fv);
        }
        files
    }
}

/// The union of `reach` over a list of pending paths: every regular file
/// such a traversal front may still discover.
pub open spec fn union_list(
    reach: spec_fn(Seq<char>) -> Set<Seq<char>>,
    ps: Seq<Seq<char>>,
) -> Set<Seq<char>>
    decreases ps.len(),
{
    if ps.len() == 0 {
        Set::empty()
    } else {
        union_list(reach, ps.drop_last()).union(reach(ps.last()))
    }
}

pub proof fn lemma_union_list_member(
    reach: spec_fn(Seq<char>) -> Set<Seq<char>>,
    ps: Seq<Seq<char>>,
    x: Seq<char>,
)
    ensures
        union_list(reach, ps).contains(x) <==> exists|i: int|
            0 <= i < ps.len() && reach(#[trigger] ps[i]).contains(x),
    decreases ps.len(),
{
    if ps.len() > 0 {
        let dl = ps.drop_last();
        lemma_union_list_member(reach, dl, x);
        assert(ps.last() == ps[ps.len() - 1]);
        if union_list(reach, ps).contains(x) {
            if union_list(reach, dl).contains(x) {
                let i = choose|i: int| 0 <= i < dl.len() && reach(#[trigger] dl[i]).contains(x);
                assert(dl[i] == ps[i]);
                assert(reach(ps[i]).contains(x));
            } else {
                assert(reach(ps[ps.len() - 1]).contains(x));
            }
        }
        if exists|i: int| 0 <= i < ps.len() && reach(#[trigger] ps[i]).contains(x) {
            let i = choose|i: int| 0 <= i < ps.len() && reach(#[trigger] ps[i]).contains(x);
            if i < ps.len() - 1 {
                assert(dl[i] == ps[i]);
                assert(union_list(reach, dl).contains(x));
            }
        }
    }
}

pub proof fn lemma_union_list_concat(
    reach: spec_fn(Seq<char>) -> Set<Seq<char>>,
    a: Seq<Seq<char>>,
    b: Seq<Seq<char>>,
)
    ensures
        union_list(reach, a + b) == union_list(reach, a).union(union_list(reach, b)),
    decreases b.len(),
{
    if b.len() == 0 {
        assert(a + b =~= a);
        assert(union_list(reach, a).union(union_list(reach, b)) =~= union_list(reach, a));
    } else {
        lemma_union_list_concat(reach, a, b.drop_last());
        assert((a + b).drop_last() =~= a + b.drop_last());
        assert((a + b).last() == b.last());
        assert(union_list(reach, a).union(union_list(reach, b.drop_last())).union(reach(b.last()))
            =~= union_list(reach, a).union(union_list(reach, b)));
    }
}

/// What the filesystem must show for `p` if the ghost assignment `reach` is
/// to give, for every path, the set of regular files reachable from it in a
/// directory tree: a missing path reaches nothing, a regular file reaches
/// itself alone, and a directory reaches exactly what its children reach,
/// with no file reachable from two different children.
pub open spec fn event_consistent(
    reach: spec_fn(Seq<char>) -> Set<Seq<char>>,
    p: Seq<char>,
    e: EntryModel,
) -> bool {
    match e {
        EntryModel::Missing => reach(p) == Set::<Seq<char>>::empty(),
        EntryModel::RegularFile => reach(p) == set![p],
        EntryModel::Directory(cs) => {
            &&& reach(p) == union_list(reach, cs)
            &&& forall|i: int, j: int|
                0 <= i < j < cs.len() ==> reach(#[trigger] cs[i]).disjoint(reach(#[trigger] cs[j]))
        },
    }
}

/// The invariant every traversal keeps: the files found so far, together
/// with the files still reachable from the pending paths, are exactly the
/// files reachable from the root; no two pending subtrees share a file; no
/// found file is still reachable; and no file was recorded twice.
pub open spec fn traversal_inv(
    reach: spec_fn(Seq<char>) -> Set<Seq<char>>,
    root: Seq<char>,
    t: TraversalModel,
) -> bool {
    &&& t.files.to_set().union(union_list(reach, t.pending)) == reach(root)
    &&& forall|i: int, j: int|
        0 <= i < j < t.pending.len() ==> reach(#[trigger] t.pending[i]).disjoint(
            reach(#[trigger] t.pending[j]),
        )
    &&& t.files.to_set().disjoint(union_list(reach, t.pending))
    &&& forall|i: int, j: int| 0 <= i < j < t.files.len() ==> t.files[i] != t.files[j]
}

/// A fresh traversal satisfies the invariant.
pub proof fn lemma_traversal_init(reach: spec_fn(Seq<char>) -> Set<Seq<char>>, root: Seq<char>)
    ensures
        traversal_inv(reach, root, spec_init(root)),
{
    let t = spec_init(root);
    assert(t.pending.drop_last() =~= Seq::<Seq<char>>::empty());
    assert(t.pending.last() == root);
    assert(union_list(reach, Seq::<Seq<char>>::empty()) == Set::<Seq<char>>::empty());
    assert(union_list(reach, t.pending) =~= reach(root));
    assert(t.files.to_set() =~= Set::<Seq<char>>::empty());
    assert(t.files.to_set().union(union_list(reach, t.pending)) =~= reach(root));
}

/// One consistent step preserves the invariant: this, applied at every
/// step, is why the traversal as a whole returns exactly the reachable
/// regular files of the tree, whatever order the pending paths are taken in.
pub proof fn lemma_traversal_step(
    reach: spec_fn(Seq<char>) -> Set<Seq<char>>,
    root: Seq<char>,
    t: TraversalModel,
    e: EntryModel,
)
    requires
        traversal_inv(reach, root, t),
        t.pending.len() > 0,
        event_consistent(reach, t.pending.last(), e),
    ensures
        traversal_inv(reach, root, spec_step(t, e)),
{
    let p = t.pending.last();
    let rest = t.pending.drop_last();
    let t2 = spec_step(t, e);
    assert(t.pending.last() == t.pending[t.pending.len() - 1]);
    assert(union_list(reach, t.pending) == union_list(reach, rest).union(reach(p)));
    assert(forall|i: int| 0 <= i < rest.len() ==> rest[i] == t.pending[i]);
    assert forall|i: int, j: int| 0 <= i < j < rest.len() implies reach(
        #[trigger] rest[i],
    ).disjoint(reach(#[trigger] rest[j])) by {
        assert(reach(t.pending[i]).disjoint(reach(t.pending[j])));
    };
    assert(union_list(reach, rest).subset_of(union_list(reach, t.pending)));
    match e {
        EntryModel::Missing => {
            assert(t2.files.to_set().union(union_list(reach, t2.pending))
                =~= t.files.to_set().union(union_list(reach, t.pending)));
        },
        EntryModel::RegularFile => {
            assert(reach(p).contains(p));
            // p has not been seen: it is still reachable from a pending path
            assert(union_list(reach, t.pending).contains(p));
            assert(!t.files.to_set().contains(p));
            assert(!t.files.contains(p));
            // p is reachable from no other pending path
            assert(!union_list(reach, rest).contains(p)) by {
                lemma_union_list_member(reach, rest, p);
                if exists|i: int| 0 <= i < rest.len() && reach(#[trigger] rest[i]).contains(p) {
                    let i = choose|i: int|
                        0 <= i < rest.len() && reach(#[trigger] rest[i]).contains(p);
                    assert(reach(t.pending[i]).disjoint(reach(p)));
                }
            };
            assert(t2.files.to_set() =~= t.files.to_set().insert(p)) by {
                assert forall|x: Seq<char>| t2.files.contains(x) <==> (t.files.contains(x) || x
                    == p) by {
                    if t2.files.contains(x) {
                        let i = choose|i: int| 0 <= i < t2.files.len() && t2.files[i] == x;
                        if i < t.files.len() {
                            assert(t.files[i] == x);
                        }
                    }
                    if t.files.contains(x) {
                        let i = choose|i: int| 0 <= i < t.files.len() && t.files[i] == x;
                        assert(t2.files[i] == x);
                    }
                    if x == p {
                        assert(t2.files[t2.files.len() - 1] == x);
                    }
                };
            };
            assert(t2.files.to_set().union(union_list(reach, t2.pending))
                =~= t.files.to_set().union(union_list(reach, t.pending)));
            assert forall|i: int, j: int| 0 <= i < j < t2.files.len() implies t2.files[i]
                != t2.files[j] by {
                if j < t.files.len() {
                } else {
                    assert(t2.files[j] == p);
                    assert(t2.files[i] == t.files[i]);
                    assert(!t.files.contains(p));
                }
            };
        },
        EntryModel::Directory(cs) => {
            lemma_union_list_concat(reach, rest, cs);
            assert(union_list(reach, t2.pending) =~= union_list(reach, t.pending));
            assert(t2.files.to_set().union(union_list(reach, t2.pending))
                =~= t.files.to_set().union(union_list(reach, t.pending)));
            assert forall|k: int| 0 <= k < cs.len() implies reach(#[trigger] cs[k]).subset_of(
                reach(p),
            ) by {
                assert forall|x: Seq<char>| #[trigger] reach(cs[k]).contains(x) implies reach(
                    p,
                ).contains(x) by {
                    lemma_union_list_member(reach, cs, x);
                };
            };
            assert forall|i: int, j: int| 0 <= i < j < t2.pending.len() implies reach(
                #[trigger] t2.pending[i],
            ).disjoint(reach(#[trigger] t2.pending[j])) by {
                if j < rest.len() {
                    assert(t2.pending[i] == rest[i] && t2.pending[j] == rest[j]);
                } else if i < rest.len() {
                    assert(t2.pending[i] == rest[i]);
                    assert(t2.pending[j] == cs[j - rest.len()]);
                    assert(reach(t.pending[i]).disjoint(reach(p)));
                    assert(reach(cs[j - rest.len()]).subset_of(reach(p)));
                } else {
                    assert(t2.pending[i] == cs[i - rest.len()]);
                    assert(t2.pending[j] == cs[j - rest.len()]);
                }
            };
        },
    }
}

/// An empty pending list ends the traversal: the file list then holds
/// exactly the regular files reachable from the root, each of them once.
pub proof fn lemma_traversal_done(
    reach: spec_fn(Seq<char>) -> Set<Seq<char>>,
    root: Seq<char>,
    t: TraversalModel,
)
    requires
        traversal_inv(reach, root, t),
        t.pending.len() == 0,
    ensures
        t.files.to_set() == reach(root),
        forall|i: int, j: int| 0 <= i < j < t.files.len() ==> t.files[i] != t.files[j],
{
    assert(t.files.to_set().union(union_list(reach, t.pending)) =~= t.files.to_set());
}

/// A root that is itself a regular file: one step ends the traversal with
/// that single file in the list.
pub proof fn lemma_root_regular_file(root: Seq<char>)
    ensures
        spec_step(spec_init(root), EntryModel::RegularFile).pending.len() == 0,
        spec_step(spec_init(root), EntryModel::RegularFile).files == seq![root],
{
    let t = spec_step(spec_init(root), EntryModel::RegularFile);
    assert(spec_init(root).pending.last() == root);
    assert(t.pending =~= Seq::<Seq<char>>::empty());
    assert(t.files =~= seq![root]);
}

/// A root that does not exist: one step ends the traversal with an empty
/// file list, and nothing fails.
pub proof fn lemma_root_missing(root: Seq<char>)
    ensures
        spec_step(spec_init(root), EntryModel::Missing).pending.len() == 0,
        spec_step(spec_init(root), EntryModel::Missing).files == Seq::<Seq<char>>::empty(),
{
    let t = spec_step(spec_init(root), EntryModel::Missing);
    assert(t.pending =~= Seq::<Seq<char>>::empty());
}

} // verus!
