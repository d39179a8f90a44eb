//! Recursive enumeration of the regular files under a path, as a state
//! machine: the caller lists each directory that the walk asks for and hands
//! the listing back.

use vstd::multiset::Multiset;
use vstd::prelude::*;

verus! {

/// A node of a file tree: a regular file, a directory with its entries, or
/// anything else (a socket, a fifo, a dangling or unfollowed link).
pub enum FsTree {
    File(Seq<char>),
    Dir(Seq<char>, Seq<FsTree>),
    Other(Seq<char>),
}

impl FsTree {
    pub open spec fn path(self) -> Seq<char> {
        match self {
            FsTree::File(p) => p,
            FsTree::Dir(p, _) => p,
            FsTree::Other(p) => p,
        }
    }

    /// How a listing reports this node.
    pub open spec fn kind(self) -> EntryKind {
        match self {
            FsTree::File(_) => EntryKind::File,
            FsTree::Dir(_, _) => EntryKind::Dir,
            FsTree::Other(_) => EntryKind::Other,
        }
    }
}

/// The regular files among the first `n` trees of `f` and everything below
/// them.
pub open spec fn forest_files(f: Seq<FsTree>, n: int) -> Multiset<Seq<char>>
    decreases f, n,
{
    if n <= 0 || n > f.len() {
        Multiset::empty()
    } else {
        forest_files(f, n - 1).add(
            match f[n - 1] {
                FsTree::File(p) => Multiset::singleton(p),
                FsTree::Dir(_, ch) => forest_files(ch, ch.len() as int),
                FsTree::Other(_) => Multiset::empty(),
            },
        )
    }
}

/// The regular files of a tree.
pub open spec fn tree_files(t: FsTree) -> Multiset<Seq<char>> {
    forest_files(seq![t], 1)
}

/// The number of nodes among the first `n` trees of `f` and below them.
pub open spec fn forest_size(f: Seq<FsTree>, n: int) -> nat
    decreases f, n,
{
    if n <= 0 || n > f.len() {
        0
    } else {
        forest_size(f, n - 1) + 1 + match f[n - 1] {
            FsTree::File(_) => 0,
            FsTree::Dir(_, ch) => forest_size(ch, ch.len() as int),
            FsTree::Other(_) => 0,
        }
    }
}

/// What a walk knows: the directories still to list, last one next, and the
/// files found so far.
pub struct WalkModel {
    pub pending: Seq<Seq<char>>,
    pub files: Seq<Seq<char>>,
}

/// The regular files among the first `n` entries of a listing, in order; a
/// listing gives each entry's path and kind.
pub open spec fn listed_files(l: Seq<(Seq<char>, EntryKind)>, n: int) -> Seq<Seq<char>>
    decreases n,
{
    if n <= 0 || n > l.len() {
        Seq::empty()
    } else if l[n - 1].1 == EntryKind::File {
        listed_files(l, n - 1).push(l[n - 1].0)
    } else {
        listed_files(l, n - 1)
    }
}

/// The directories among the first `n` entries of a listing, in order.
pub open spec fn listed_dirs(l: Seq<(Seq<char>, EntryKind)>, n: int) -> Seq<Seq<char>>
    decreases n,
{
    if n <= 0 || n > l.len() {
        Seq::empty()
    } else if l[n - 1].1 == EntryKind::Dir {
        listed_dirs(l, n - 1).push(l[n - 1].0)
    } else {
        listed_dirs(l, n - 1)
    }
}

/// The walk after it has taken in the listing `l` of a directory: its regular
/// files are found, its subdirectories wait to be listed, and any other entry
/// is passed over.
pub open spec fn add_listing(m: WalkModel, l: Seq<(Seq<char>, EntryKind)>) -> WalkModel {
    WalkModel {
        pending: m.pending + listed_dirs(l, l.len() as int),
        files: m.files + listed_files(l, l.len() as int),
    }
}

/// The walk before any listing: a directory root waits to be listed, any
/// other root is itself the one file found.
pub open spec fn start_walk(root: Seq<char>, root_is_dir: bool) -> WalkModel {
    if root_is_dir {
        WalkModel { pending: seq![root], files: Seq::empty() }
    } else {
        WalkModel { pending: Seq::empty(), files: seq![root] }
    }
}

/// The walk once its next directory has been taken out to be listed.
pub open spec fn take_next(m: WalkModel) -> WalkModel {
    WalkModel { pending: m.pending.drop_last(), files: m.files }
}

/// The listing that a directory with the children `ch` gives.
pub open spec fn listing_of(ch: Seq<FsTree>) -> Seq<(Seq<char>, EntryKind)> {
    ch.map_values(|t: FsTree| (t.path(), t.kind()))
}

/// The subdirectories among the first `n` children, in order.
pub open spec fn dirs_of(ch: Seq<FsTree>, n: int) -> Seq<FsTree>
    decreases n,
{
    if n <= 0 || n > ch.len() {
        Seq::empty()
    } else if ch[n - 1] is Dir {
        dirs_of(ch, n - 1).push(ch[n - 1])
    } else {
        dirs_of(ch, n - 1)
    }
}

/// Runs the walk for at most `fuel` listings, each answered truthfully from
/// the trees `p` that stand for its pending directories, and returns the files
/// found.
pub open spec fn run_walk(p: Seq<FsTree>, m: WalkModel, fuel: nat) -> Seq<Seq<char>>
    decreases fuel,
{
    if fuel == 0 || p.len() == 0 {
        m.files
    } else {
        let ch = match p.last() {
            FsTree::Dir(_, c) => c,
            _ => Seq::empty(),
        };
        run_walk(
            p.drop_last() + dirs_of(ch, ch.len() as int),
            add_listing(take_next(m), listing_of(ch)),
            (fuel - 1) as nat,
        )
    }
}

/// The walk of a whole tree, answered from the tree itself.
pub open spec fn walk_of_tree(root: FsTree) -> Seq<Seq<char>> {
    let p = if root is Dir { seq![root] } else { Seq::empty() };
    run_walk(p, start_walk(root.path(), root is Dir), forest_size(seq![root], 1))
}

/// The files and the size of the first `n` trees depend on those trees alone.
proof fn lemma_forest_prefix(x: Seq<FsTree>, y: Seq<FsTree>, n: int)
    requires
        0 <= n <= x.len(),
        n <= y.len(),
        x.take(n) == y.take(n),
    ensures
        forest_files(x, n) == forest_files(y, n),
        forest_size(x, n) == forest_size(y, n),
    decreases n,
{
    if n > 0 {
        assert(x[n - 1] == x.take(n)[n - 1]);
        assert(y[n - 1] == y.take(n)[n - 1]);
        assert(x.take(n - 1) =~= x.take(n).take(n - 1));
        assert(y.take(n - 1) =~= y.take(n).take(n - 1));
        lemma_forest_prefix(x, y, n - 1);
    }
}

/// Files and sizes add up over two forests side by side.
proof fn lemma_forest_concat(a: Seq<FsTree>, b: Seq<FsTree>)
    ensures
        forest_files(a + b, (a.len() + b.len()) as int) == forest_files(a, a.len() as int).add(
            forest_files(b, b.len() as int),
        ),
        forest_size(a + b, (a.len() + b.len()) as int) == forest_size(a, a.len() as int) + forest_size(
            b,
            b.len() as int,
        ),
    decreases b.len(),
{
    if b.len() == 0 {
        assert(a + b =~= a);
        assert(forest_files(a, a.len() as int).add(Multiset::empty()) =~= forest_files(
            a,
            a.len() as int,
        ));
    } else {
        let b1 = b.drop_last();
        let n = (a.len() + b.len()) as int;
        lemma_forest_concat(a, b1);
        assert((a + b).take(n - 1) =~= (a + b1).take(n - 1));
        lemma_forest_prefix(a + b, a + b1, n - 1);
        assert(b.take(b.len() - 1) =~= b1.take(b.len() - 1));
        lemma_forest_prefix(b, b1, b.len() - 1);
        assert((a + b)[n - 1] == b[b.len() - 1]);
        assert(forest_files(a + b, n) =~= forest_files(a, a.len() as int).add(
            forest_files(b, b.len() as int),
        ));
    }
}

/// The children of a directory split into its listed files and its
/// subdirectories, which are listed in order and are no larger together.
proof fn lemma_children_split(ch: Seq<FsTree>, n: int)
    requires
        0 <= n <= ch.len(),
    ensures
        forest_files(ch, n) == listed_files(listing_of(ch), n).to_multiset().add(
            forest_files(dirs_of(ch, n), dirs_of(ch, n).len() as int),
        ),
        forest_size(dirs_of(ch, n), dirs_of(ch, n).len() as int) <= forest_size(ch, n),
        listed_dirs(listing_of(ch), n) == dirs_of(ch, n).map_values(|t: FsTree| t.path()),
        forall|i: int| 0 <= i < dirs_of(ch, n).len() ==> #[trigger] dirs_of(ch, n)[i] is Dir,
    decreases n,
{
    broadcast use vstd::seq_lib::group_to_multiset_ensures;

    let l = listing_of(ch);
    if n == 0 {
        assert(listed_files(l, 0).to_multiset() =~= Multiset::empty());
        assert(Multiset::<Seq<char>>::empty().add(Multiset::empty()) =~= Multiset::empty());
        assert(dirs_of(ch, 0).map_values(|t: FsTree| t.path()) =~= Seq::empty());
    } else {
        lemma_children_split(ch, n - 1);
        let t = ch[n - 1];
        assert(l[n - 1] == (t.path(), t.kind()));
        let d0 = dirs_of(ch, n - 1);
        match t {
            FsTree::File(p) => {
                assert(listed_files(l, n) == listed_files(l, n - 1).push(p));
                assert(forest_files(ch, n) =~= listed_files(l, n).to_multiset().add(
                    forest_files(d0, d0.len() as int),
                ));
            },
            FsTree::Other(_) => {
                assert(forest_files(ch, n) =~= listed_files(l, n).to_multiset().add(
                    forest_files(d0, d0.len() as int),
                ));
            },
            FsTree::Dir(_, c) => {
                let d = dirs_of(ch, n);
                assert(d == d0.push(t));
                assert(d0.push(t) =~= d0 + seq![t]);
                lemma_forest_concat(d0, seq![t]);
                assert(seq![t][0] == t);
                assert(forest_files(seq![t], 0) == Multiset::<Seq<char>>::empty());
                assert(forest_size(seq![t], 0) == 0);
                assert(forest_files(seq![t], 1) =~= Multiset::empty().add(
                    forest_files(c, c.len() as int),
                ));
                assert(forest_size(seq![t], 1) == 1 + forest_size(c, c.len() as int));
                assert(forest_files(ch, n) =~= listed_files(l, n).to_multiset().add(
                    forest_files(d, d.len() as int),
                ));
                assert(d.map_values(|t: FsTree| t.path()) =~= d0.map_values(
                    |t: FsTree| t.path(),
                ).push(t.path()));
                assert forall|i: int| 0 <= i < d.len() implies #[trigger] d[i] is Dir by {
                    if i < d0.len() {
                        assert(d[i] == d0[i]);
                    }
                }
            },
        }
    }
}

/// A walk whose pending directories stand for the trees `p`, run for at least
/// as many listings as `p` has nodes, finds its files so far and every file
/// of `p`, each once.
proof fn lemma_run_walk(p: Seq<FsTree>, m: WalkModel, fuel: nat)
    requires
        fuel >= forest_size(p, p.len() as int),
        forall|i: int| 0 <= i < p.len() ==> #[trigger] p[i] is Dir,
        m.pending == p.map_values(|t: FsTree| t.path()),
    ensures
        run_walk(p, m, fuel).to_multiset() == m.files.to_multiset().add(
            forest_files(p, p.len() as int),
        ),
    decreases fuel,
{
    if p.len() == 0 {
        assert(m.files.to_multiset().add(Multiset::empty()) =~= m.files.to_multiset());
    } else {
        let t = p.last();
        let ch = match t {
            FsTree::Dir(_, c) => c,
            _ => Seq::empty(),
        };
        let p0 = p.drop_last();
        let d = dirs_of(ch, ch.len() as int);
        let p1 = p0 + d;
        let l = listing_of(ch);
        let m1 = add_listing(take_next(m), l);
        assert(l.len() == ch.len());
        lemma_children_split(ch, ch.len() as int);
        lemma_forest_concat(p0, d);
        assert(p.take(p.len() - 1) =~= p0.take(p.len() - 1));
        lemma_forest_prefix(p, p0, p.len() - 1);
        assert(p[p.len() - 1] is Dir);
        assert(forest_size(p, p.len() as int) == forest_size(p0, p0.len() as int) + 1
            + forest_size(ch, ch.len() as int));
        assert(forest_files(p, p.len() as int) == forest_files(p0, p0.len() as int).add(
            forest_files(ch, ch.len() as int),
        ));
        assert forall|i: int| 0 <= i < p1.len() implies #[trigger] p1[i] is Dir by {
            if i < p0.len() {
                assert(p1[i] == p[i]);
            } else {
                assert(p1[i] == d[i - p0.len()]);
            }
        }
        assert(m.pending.drop_last() =~= p0.map_values(|t: FsTree| t.path()));
        assert(m1.pending =~= p1.map_values(|t: FsTree| t.path()));
        lemma_run_walk(p1, m1, (fuel - 1) as nat);
        vstd::seq_lib::lemma_multiset_commutative(m.files, listed_files(l, l.len() as int));
        assert(run_walk(p, m, fuel) == run_walk(p1, m1, (fuel - 1) as nat));
        assert(m1.files.to_multiset().add(forest_files(p1, p1.len() as int))
            =~= m.files.to_multiset().add(forest_files(p, p.len() as int)));
    }
}

/// A walk whose listings are answered truthfully from a file tree finds every
/// regular file of the tree exactly once, and nothing else: no directory and
/// no entry of another kind.
pub proof fn lemma_walk_finds_all_files(root: FsTree)
    requires
        !(root is Other),
    ensures
        walk_of_tree(root).to_multiset() == tree_files(root),
{
    broadcast use vstd::seq_lib::group_to_multiset_ensures;

    let p = if root is Dir { seq![root] } else { Seq::empty() };
    let m = start_walk(root.path(), root is Dir);
    let fuel = forest_size(seq![root], 1);
    match root {
        FsTree::File(f) => {
            assert(walk_of_tree(root) == seq![f]);
            assert(seq![f] =~= Seq::<Seq<char>>::empty().push(f));
            assert(seq![root][0] == root);
            assert(forest_files(seq![root], 0) == Multiset::<Seq<char>>::empty());
            assert(tree_files(root) =~= Multiset::empty().add(Multiset::singleton(f)));
            assert(seq![f].to_multiset() =~= Multiset::singleton(f));
        },
        FsTree::Other(_) => {},
        FsTree::Dir(_, _) => {
            assert(m.pending =~= p.map_values(|t: FsTree| t.path()));
            lemma_run_walk(p, m, fuel);
            assert(m.files.to_multiset() =~= Multiset::empty());
            assert(Multiset::<Seq<char>>::empty().add(forest_files(p, 1)) =~= tree_files(root));
        },
    }
}

/// A root that is not a directory is the walk's one result.
pub proof fn lemma_walk_of_file(path: Seq<char>)
    ensures
        walk_of_tree(FsTree::File(path)) == seq![path],
{
}

/// What a directory entry is.
#[derive(Clone, Copy, Debug, PartialEq, Eq, Structural)]
pub enum EntryKind {
    /// A regular file.
    File,
    /// A directory to descend into.
    Dir,
    /// Anything else; the walk passes over it.
    Other,
}

/// One entry of a directory listing.
#[derive(Debug)]
pub struct DirEntry {
    pub path: String,
    pub kind: EntryKind,
}

/// How the walk reads a listed entry.
pub open spec fn entry_view(e: DirEntry) -> (Seq<char>, EntryKind) {
    (e.path@, e.kind)
}

/// How the walk reads a listing.
pub open spec fn listing_view(l: Seq<DirEntry>) -> Seq<(Seq<char>, EntryKind)> {
    l.map_values(|e: DirEntry| entry_view(e))
}

/// The views of a list of strings.
pub open spec fn strings_view(v: Seq<String>) -> Seq<Seq<char>> {
    v.map_values(|s: String| s@)
}

/// A walk in progress over a local tree.
pub struct DirWalk {
    pending: Vec<String>,
    files: Vec<String>,
}

impl View for DirWalk {
    type V = WalkModel;

    closed spec fn view(&self) -> WalkModel {
        WalkModel { pending: strings_view(self.pending@), files: strings_view(self.files@) }
    }
}

/// Starts the walk of `root`: a directory is listed first; any other root
/// is the one file that the walk finds.
pub fn walk_dir(root: String, root_is_dir: bool) -> (w: DirWalk)
    ensures
        w@ == start_walk(root@, root_is_dir),
{
    let mut pending: Vec<String> = Vec::new();
    let mut files: Vec<String> = Vec::new();
    if root_is_dir {
        pending.push(root);
    } else {
        files.push(root);
    }
    let w = DirWalk { pending, files };
    proof {
        assert(w@.pending =~= start_walk(root@, root_is_dir).pending);
        assert(w@.files =~= start_walk(root@, root_is_dir).files);
    }
    w
}

impl DirWalk {
    /// Whether every directory has been listed.
    pub fn is_done(&self) -> (r: bool)
        ensures
            r == (self@.pending.len() == 0),
    {
        self.pending.len() == 0
    }

    /// Takes out the next directory to list, or `None` once the walk is done.
    pub fn next_dir(&mut self) -> (r: Option<String>)
        ensures
            old(self)@.pending.len() == 0 ==> r is None && final(self)@ == old(self)@,
            old(self)@.pending.len() > 0 ==> r is Some && r->0@ == old(self)@.pending.last()
                && final(self)@ == take_next(old(self)@),
    {
        let r = self.pending.pop();
        proof {
            if old(self).pending@.len() > 0 {
                assert(self@.pending =~= old(self)@.pending.drop_last());
            }
        }
        r
    }

    /// Takes in the listing of the directory last taken out: its regular
    /// files are found, its subdirectories wait to be listed, other entries
    /// are passed over.
    pub fn add_entries(&mut self, entries: Vec<DirEntry>)
        ensures
            final(self)@ == add_listing(old(self)@, listing_view(entries@)),
    {
        let ghost l = listing_view(entries@);
        let ghost start = self@;
        let n = entries.len();
        let mut i: usize = 0;
        while i < n
            invariant
                n == entries@.len(),
                n == l.len(),
                i <= n,
                l == listing_view(entries@),
                self@.pending == start.pending + listed_dirs(l, i as int),
                self@.files == start.files + listed_files(l, i as int),
            decreases n - i,
        {
            let e = &entries[i];
            let ghost before = self@;
            let path = e.path.clone();
            assert(l[i as int] == entry_view(entries@[i as int]));
            if e.kind == EntryKind::Dir {
                self.pending.push(path);
                proof {
                    assert(strings_view(self.pending@) =~= before.pending.push(path@));
                    assert(self@.files == before.files);
                }
            } else if e.kind == EntryKind::Other {
            } else {
                self.files.push(path);
                proof {
                    assert(strings_view(self.files@) =~= before.files.push(path@));
                    assert(self@.pending == before.pending);
                }
            }
            i = i + 1;
        }
        proof {
            assert(self@.pending =~= add_listing(start, l).pending);
            assert(self@.files =~= add_listing(start, l).files);
        }
    }

    /// The files found, in the order found.
    pub fn into_files(self) -> (r: Vec<String>)
        ensures
            strings_view(r@) == self@.files,
    {
        self.files
    }
}

} // verus!
