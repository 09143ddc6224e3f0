//! Library scanning and reading progress.
//!
//! A library is just a directory tree containing `.cbz` files. Paths are text,
//! with `/` between their components.

use vstd::prelude::*;

pub use crate::progress::{ProgressStore, ReadingProgress};
use crate::sorting::{is_stable_sort, sorted_positions, Collation};
use crate::text::{chars_of, endings_are_what_comes_last, ends_with, finishes_with, join, joined,
    joined_paths_lie_below, letter_case_is_ascii, lowered, replace_char, replaced,
    replacing_touches_occurrences_only, starts_with_char, texts, to_lower};

verus! {

/// A manga archive discovered in the library directory.
#[derive(Debug, Clone, PartialEq, Eq)]
pub struct LibraryEntry {
    pub path: String,
    /// Path relative to the library root, used as the progress key.
    pub relative_path: String,
}

/// An item of a directory, as the file system lists it.
#[derive(Debug, Clone, PartialEq, Eq)]
pub struct DirItem {
    pub name: String,
    pub is_dir: bool,
}

/// An item that a scan has yet to look at: its path relative to the library
/// root, its name, and whether it is a directory.
pub struct Visit {
    pub path: Seq<char>,
    pub name: Seq<char>,
    pub is_dir: bool,
}

impl Visit {
    /// The item `name` of the directory `dir`.
    pub open spec fn of(dir: Seq<char>, name: Seq<char>, is_dir: bool) -> Visit {
        Visit { path: joined(dir, name), name, is_dir }
    }

    /// Whether the item is hidden from scans.
    pub open spec fn is_hidden(self) -> bool {
        self.name.len() > 0 && self.name[0] == '.'
    }

    /// Whether a scan descends into the item. Profile libraries live in
    /// `@name` subdirectories; a scan of the root (the default profile) must
    /// not see other profiles' books. The `@` prefix keeps them apart from
    /// series directories.
    pub open spec fn is_entered(self) -> bool {
        self.is_dir && !self.is_hidden() && !(self.name.len() > 0 && self.name[0] == '@')
    }

    /// Whether the item is an archive to list.
    pub open spec fn is_book(self) -> bool {
        !self.is_dir && !self.is_hidden() && finishes_with(lowered(self.name), ".cbz"@)
    }
}

/// The paths of the archives among some items.
pub open spec fn books(items: Seq<Visit>) -> Seq<Seq<char>>
    decreases items.len(),
{
    if items.len() == 0 {
        Seq::empty()
    } else {
        let before = books(items.drop_last());
        if items.last().is_book() {
            before.push(items.last().path)
        } else {
            before
        }
    }
}

/// How many items come before the first one that a scan descends into.
pub open spec fn items_before_dir(items: Seq<Visit>) -> int
    decreases items.len(),
{
    if items.len() == 0 || items[0].is_entered() {
        0
    } else {
        1 + items_before_dir(items.drop_first())
    }
}

/// The items of a listing of `dir`.
pub open spec fn visits(dir: Seq<char>, items: Seq<DirItem>) -> Seq<Visit> {
    items.map_values(|i: DirItem| Visit::of(dir, i.name@, i.is_dir))
}

struct Pending {
    path: String,
    name: String,
    is_dir: bool,
}

/// A depth-first scan of a directory tree for archives.
///
/// The scan names a directory to list ([`LibraryScan::next_dir`]) and is told
/// what the listing holds ([`LibraryScan::listed`]), until it asks for no
/// further directory. Directories are named relative to the library root.
pub struct LibraryScan {
    /// What is left to look at, the next item last.
    pending: Vec<Pending>,
    found: Vec<String>,
}

impl LibraryScan {
    /// What is left to look at, the next item first.
    pub closed spec fn pending(&self) -> Seq<Visit> {
        self.pending@.map_values(
            |p: Pending| Visit { path: p.path@, name: p.name@, is_dir: p.is_dir },
        ).reverse()
    }

    /// The archives found so far, in the order in which they were found.
    pub closed spec fn found(&self) -> Seq<Seq<char>> {
        texts(self.found@)
    }

    /// A scan that knows what the library root holds.
    pub fn new(root_items: &Vec<DirItem>) -> (res: Self)
        ensures
            res.pending() == visits(Seq::empty(), root_items@),
            res.found() == Seq::<Seq<char>>::empty(),
    {
        let mut res = LibraryScan { pending: Vec::new(), found: Vec::new() };
        assert(res.pending() =~= Seq::<Visit>::empty());
        res.listed("", root_items);
        proof {
            reveal_strlit("");
            assert(""@ =~= Seq::<char>::empty());
            assert(res.pending() =~= visits(Seq::empty(), root_items@));
        }
        res
    }

    /// Takes note of what the directory `dir` holds: its items are next.
    pub fn listed(&mut self, dir: &str, items: &Vec<DirItem>)
        ensures
            final(self).pending() == visits(dir@, items@) + old(self).pending(),
            final(self).found() == old(self).found(),
    {
        let ghost before = self.pending();
        let mut i: usize = items.len();
        assert(visits(dir@, items@).skip(items@.len() as int) =~= Seq::<Visit>::empty());
        assert(self.pending() =~= visits(dir@, items@).skip(i as int) + before);
        while i > 0
            invariant
                i <= items@.len(),
                self.pending() == visits(dir@, items@).skip(i as int) + before,
                self.found() == old(self).found(),
            decreases i,
        {
            i = i - 1;
            let ghost prev = self.pending();
            let path = join(dir, items[i].name.as_str());
            let name = items[i].name.clone();
            let is_dir = items[i].is_dir;
            self.pending.push(Pending { path, name, is_dir });
            proof {
                let visit = visits(dir@, items@)[i as int];
                assert(self.pending() =~= seq![visit] + prev);
                assert(visits(dir@, items@).skip(i as int) =~= seq![visit] + visits(
                    dir@,
                    items@,
                ).skip(i + 1));
                assert(self.pending() =~= visits(dir@, items@).skip(i as int) + before);
            }
        }
        assert(visits(dir@, items@).skip(0) =~= visits(dir@, items@));
    }

    /// The next directory to list, after taking in the archives that come
    /// before it; `None` when the scan is complete.
    pub fn next_dir(&mut self) -> (res: Option<String>)
        ensures
            ({
                let p = old(self).pending();
                let n = items_before_dir(p);
                &&& 0 <= n <= p.len()
                &&& final(self).found() == old(self).found() + books(p.take(n))
                &&& res is Some == (n < p.len())
                &&& res matches Some(dir) ==> dir@ == p[n].path && final(self).pending() == p.skip(
                    n + 1,
                )
                &&& res is None ==> final(self).pending().len() == 0
            }),
    {
        let ghost p = self.pending();
        let ghost found = self.found();
        let ghost mut k: int = 0;
        proof {
            lemma_items_before_dir(p);
            assert(p.skip(0) =~= p);
            assert(p.take(0) =~= Seq::<Visit>::empty());
            assert(self.found() =~= found + books(p.take(0)));
        }
        while self.pending.len() > 0
            invariant
                p == old(self).pending(),
                found == old(self).found(),
                0 <= k <= p.len(),
                self.pending() == p.skip(k),
                self.found() == found + books(p.take(k)),
                forall|i: int| 0 <= i < k ==> !(#[trigger] p[i]).is_entered(),
                0 <= items_before_dir(p) <= p.len(),
                forall|i: int| 0 <= i < items_before_dir(p) ==> !(#[trigger] p[i]).is_entered(),
                items_before_dir(p) < p.len() ==> p[items_before_dir(p)].is_entered(),
            decreases self.pending@.len(),
        {
            let ghost prev = self.pending@;
            let ghost prev_view = self.pending();
            let next = self.pending.pop().unwrap();
            let ghost visit = p[k];
            proof {
                assert(prev_view.len() == prev.len());
                assert(prev_view.len() == p.len() - k);
                assert(prev_view[0] == visit);
                assert forall|i: int| 0 <= i < self.pending().len() implies self.pending()[i]
                    == p.skip(k + 1)[i] by {
                    assert(self.pending()[i] == prev_view[i + 1]);
                    assert(prev_view[i + 1] == p.skip(k)[i + 1]);
                }
                assert(self.pending() =~= p.skip(k + 1));
                assert(p.take(k + 1).drop_last() =~= p.take(k));
            }
            let hidden = starts_with_char(next.name.as_str(), '.');
            if !hidden {
                if next.is_dir {
                    if !starts_with_char(next.name.as_str(), '@') {
                        assert(visit.is_entered());
                        assert(k == items_before_dir(p));
                        return Some(next.path);
                    }
                } else {
                    let lower = to_lower(next.name.as_str());
                    let letters = chars_of(lower.as_str());
                    if ends_with(&letters, ".cbz") {
                        let ghost before = self.found();
                        self.found.push(next.path);
                        assert(self.found() =~= before.push(visit.path));
                    }
                }
            }
            proof {
                assert(self.found() =~= found + books(p.take(k + 1)));
                k = k + 1;
            }
        }
        assert(k == p.len());
        assert(items_before_dir(p) == p.len());
        None
    }

    /// The archives found, in the order in which they were found.
    pub fn into_found(self) -> (res: Vec<String>)
        ensures
            texts(res@) == self.found(),
    {
        self.found
    }
}

proof fn lemma_items_before_dir(p: Seq<Visit>)
    ensures
        0 <= items_before_dir(p) <= p.len(),
        forall|i: int| 0 <= i < items_before_dir(p) ==> !(#[trigger] p[i]).is_entered(),
        items_before_dir(p) < p.len() ==> p[items_before_dir(p)].is_entered(),
    decreases p.len(),
{
    if p.len() > 0 && !p[0].is_entered() {
        let q = p.drop_first();
        lemma_items_before_dir(q);
        assert forall|i: int| 0 <= i < items_before_dir(p) implies !(#[trigger] p[i]).is_entered() by {
            if i > 0 {
                assert(p[i] == q[i - 1]);
            }
        }
        if items_before_dir(q) < q.len() {
            assert(q[items_before_dir(q)] == p[items_before_dir(p)]);
        }
    }
}

/// An item of a directory tree with all that lies below it.
pub struct Tree {
    pub name: Seq<char>,
    pub is_dir: bool,
    pub children: Seq<Tree>,
}

impl Tree {
    /// The item at the top of the tree, in the directory `dir`.
    pub open spec fn top(self, dir: Seq<char>) -> Visit {
        Visit::of(dir, self.name, self.is_dir)
    }
}

/// The archives in a tree that stands in the directory `dir`, depth first.
pub open spec fn walk(dir: Seq<char>, tree: Tree) -> Seq<Seq<char>>
    decreases tree,
{
    let top = tree.top(dir);
    if top.is_entered() {
        walk_all(top.path, tree.children)
    } else if top.is_book() {
        seq![top.path]
    } else {
        Seq::empty()
    }
}

/// The archives in the trees of the directory `dir`, depth first.
pub open spec fn walk_all(dir: Seq<char>, trees: Seq<Tree>) -> Seq<Seq<char>>
    decreases trees,
{
    if trees.len() == 0 {
        Seq::empty()
    } else {
        walk_all(dir, trees.drop_last()) + walk(dir, trees.last())
    }
}

/// The archives in some trees, each with the directory it stands in.
pub open spec fn walk_each(rooted: Seq<(Seq<char>, Tree)>) -> Seq<Seq<char>>
    decreases rooted.len(),
{
    if rooted.len() == 0 {
        Seq::empty()
    } else {
        walk_each(rooted.drop_last()) + walk(rooted.last().0, rooted.last().1)
    }
}

/// The items at the tops of some trees.
pub open spec fn tops(rooted: Seq<(Seq<char>, Tree)>) -> Seq<Visit> {
    rooted.map_values(|r: (Seq<char>, Tree)| r.1.top(r.0))
}

/// The trees directly below a tree that stands in a given directory.
pub open spec fn below(r: (Seq<char>, Tree)) -> Seq<(Seq<char>, Tree)> {
    r.1.children.map_values(|t: Tree| (r.1.top(r.0).path, t))
}

proof fn lemma_walk_concat(a: Seq<(Seq<char>, Tree)>, b: Seq<(Seq<char>, Tree)>)
    ensures
        walk_each(a + b) == walk_each(a) + walk_each(b),
    decreases b.len(),
{
    if b.len() == 0 {
        assert(a + b =~= a);
        assert(walk_each(a) + walk_each(b) =~= walk_each(a));
    } else {
        lemma_walk_concat(a, b.drop_last());
        assert((a + b).drop_last() =~= a + b.drop_last());
        assert(walk_each(a + b) =~= walk_each(a) + walk_each(b));
    }
}

proof fn lemma_walk_children(dir: Seq<char>, trees: Seq<Tree>)
    ensures
        walk_each(trees.map_values(|t: Tree| (dir, t))) == walk_all(dir, trees),
    decreases trees.len(),
{
    let rooted = trees.map_values(|t: Tree| (dir, t));
    if trees.len() > 0 {
        lemma_walk_children(dir, trees.drop_last());
        assert(rooted.drop_last() =~= trees.drop_last().map_values(|t: Tree| (dir, t)));
    }
}

proof fn lemma_walk_no_dir(rooted: Seq<(Seq<char>, Tree)>)
    requires
        forall|i: int| 0 <= i < rooted.len() ==> !(#[trigger] tops(rooted)[i]).is_entered(),
    ensures
        walk_each(rooted) == books(tops(rooted)),
    decreases rooted.len(),
{
    if rooted.len() > 0 {
        let r = rooted.drop_last();
        assert(tops(rooted).drop_last() =~= tops(r));
        assert forall|i: int| 0 <= i < r.len() implies !(#[trigger] tops(r)[i]).is_entered() by {
            assert(tops(r)[i] == tops(rooted)[i]);
        }
        lemma_walk_no_dir(r);
        assert(!tops(rooted)[rooted.len() - 1].is_entered());
        assert(walk_each(rooted) =~= books(tops(rooted)));
    }
}

/// A scan that is answered truthfully finds the archives of the whole tree,
/// depth first: at each step, what is still to be found is what is taken in
/// now, followed by what is to be found once the directory asked for has been
/// answered with its items.
pub proof fn scan_walks_the_tree(rooted: Seq<(Seq<char>, Tree)>)
    ensures
        ({
            let n = items_before_dir(tops(rooted));
            let now = books(tops(rooted).take(n));
            &&& n == rooted.len() ==> walk_each(rooted) == now
            &&& n < rooted.len() ==> {
                &&& tops(below(rooted[n]) + rooted.skip(n + 1)) == tops(below(rooted[n])) + tops(
                    rooted,
                ).skip(n + 1)
                &&& walk_each(rooted) == now + walk_each(below(rooted[n]) + rooted.skip(n + 1))
            }
        }),
{
    let n = items_before_dir(tops(rooted));
    lemma_items_before_dir(tops(rooted));
    let head = rooted.take(n);
    assert(tops(head) =~= tops(rooted).take(n));
    assert forall|i: int| 0 <= i < head.len() implies !(#[trigger] tops(head)[i]).is_entered() by {
        assert(tops(head)[i] == tops(rooted)[i]);
    }
    lemma_walk_no_dir(head);
    if n < rooted.len() {
        let r = rooted[n];
        let tail = rooted.skip(n + 1);
        assert(tops(below(r) + tail) =~= tops(below(r)) + tops(rooted).skip(n + 1));
        assert(rooted =~= head + seq![r] + tail);
        lemma_walk_concat(head + seq![r], tail);
        lemma_walk_concat(head, seq![r]);
        lemma_walk_concat(below(r), tail);
        assert(seq![r].drop_last() =~= Seq::<(Seq<char>, Tree)>::empty());
        assert(walk_each(seq![r]) =~= walk(r.0, r.1)) by {
            reveal_with_fuel(walk_each, 2);
        }
        lemma_walk_children(r.1.top(r.0).path, r.1.children);
        assert(walk_each(rooted) =~= walk_each(head) + (walk_each(below(r)) + walk_each(tail)));
    } else {
        assert(head =~= rooted);
    }
}

/// A scan that is answered truthfully, on its way: the trees whose tops are left
/// to look at, and the archives found so far.
pub struct ScanState {
    pub rooted: Seq<(Seq<char>, Tree)>,
    pub found: Seq<Seq<char>>,
}

impl ScanState {
    /// How many items the scan looks at before it asks for a directory.
    pub open spec fn lead(self) -> int {
        items_before_dir(tops(self.rooted))
    }

    /// Whether the scan asks for no further directory.
    pub open spec fn is_complete(self) -> bool {
        self.lead() == self.rooted.len()
    }

    /// The archives found once the items before the next directory are taken in.
    pub open spec fn found_next(self) -> Seq<Seq<char>> {
        self.found + books(tops(self.rooted).take(self.lead()))
    }

    /// The scan once the directory that it asks for has been answered with its
    /// items.
    pub open spec fn answered(self) -> ScanState {
        ScanState {
            rooted: below(self.rooted[self.lead()]) + self.rooted.skip(self.lead() + 1),
            found: self.found_next(),
        }
    }
}

/// Whether the state at `i` asks for a directory, and the next one is the state
/// in which it has been answered.
pub open spec fn is_answered_at(states: Seq<ScanState>, i: int) -> bool {
    !states[i].is_complete() && states[i + 1] == states[i].answered()
}

/// Whether each state of a scan but the last is followed by the one in which its
/// question has been answered.
pub open spec fn is_run(states: Seq<ScanState>) -> bool {
    forall|i: int| 0 <= i < states.len() - 1 ==> #[trigger] is_answered_at(states, i)
}

/// A complete scan has found every archive of the tree, depth first, and nothing
/// else.
pub proof fn complete_scan_finds_every_archive(states: Seq<ScanState>)
    requires
        states.len() > 0,
        is_run(states),
        states.last().is_complete(),
    ensures
        states.last().found_next() == states[0].found + walk_each(states[0].rooted),
    decreases states.len(),
{
    let s = states[0];
    scan_walks_the_tree(s.rooted);
    lemma_items_before_dir(tops(s.rooted));
    if states.len() > 1 {
        let rest = states.drop_first();
        assert(is_answered_at(states, 0));
        assert forall|i: int| 0 <= i < rest.len() - 1 implies #[trigger] is_answered_at(rest, i) by {
            assert(is_answered_at(states, i + 1));
        }
        complete_scan_finds_every_archive(rest);
        assert(rest.last() == states.last());
        assert(states.last().found_next() =~= s.found + walk_each(s.rooted));
    }
}

/// How many items a tree has.
pub open spec fn size(tree: Tree) -> nat
    decreases tree,
{
    1 + size_all(tree.children)
}

/// How many items some trees have.
pub open spec fn size_all(trees: Seq<Tree>) -> nat
    decreases trees,
{
    if trees.len() == 0 {
        0
    } else {
        size_all(trees.drop_last()) + size(trees.last())
    }
}

/// How many items a scan has left, with all that lies below them.
pub open spec fn size_left(rooted: Seq<(Seq<char>, Tree)>) -> nat
    decreases rooted.len(),
{
    if rooted.len() == 0 {
        0
    } else {
        size_left(rooted.drop_last()) + size(rooted.last().1)
    }
}

proof fn lemma_size_concat(a: Seq<(Seq<char>, Tree)>, b: Seq<(Seq<char>, Tree)>)
    ensures
        size_left(a + b) == size_left(a) + size_left(b),
    decreases b.len(),
{
    if b.len() == 0 {
        assert(a + b =~= a);
    } else {
        lemma_size_concat(a, b.drop_last());
        assert((a + b).drop_last() =~= a + b.drop_last());
    }
}

proof fn lemma_size_children(dir: Seq<char>, trees: Seq<Tree>)
    ensures
        size_left(trees.map_values(|t: Tree| (dir, t))) == size_all(trees),
    decreases trees.len(),
{
    let rooted = trees.map_values(|t: Tree| (dir, t));
    if trees.len() > 0 {
        lemma_size_children(dir, trees.drop_last());
        assert(rooted.drop_last() =~= trees.drop_last().map_values(|t: Tree| (dir, t)));
    }
}

/// A scan comes to an end: each answer leaves fewer items to look at.
pub proof fn scan_ends(s: ScanState)
    requires
        !s.is_complete(),
    ensures
        size_left(s.answered().rooted) < size_left(s.rooted),
{
    let n = s.lead();
    lemma_items_before_dir(tops(s.rooted));
    let r = s.rooted[n];
    let head = s.rooted.take(n);
    let tail = s.rooted.skip(n + 1);
    assert(s.rooted =~= head + seq![r] + tail);
    lemma_size_concat(head + seq![r], tail);
    lemma_size_concat(head, seq![r]);
    lemma_size_concat(below(r), tail);
    assert(seq![r].drop_last() =~= Seq::<(Seq<char>, Tree)>::empty());
    assert(size_left(seq![r]) == size(r.1)) by {
        reveal_with_fuel(size_left, 2);
    }
    lemma_size_children(r.1.top(r.0).path, r.1.children);
}

/// Nothing inside a profile directory or a hidden directory is ever found.
pub proof fn other_profiles_are_invisible(dir: Seq<char>, tree: Tree)
    requires
        tree.is_dir,
        tree.name.len() > 0,
        tree.name[0] == '@' || tree.name[0] == '.',
    ensures
        walk(dir, tree) == Seq::<Seq<char>>::empty(),
{
}

/// The entry for the archive at `relative` below `root`.
pub open spec fn is_entry_of(e: LibraryEntry, root: Seq<char>, relative: Seq<char>) -> bool {
    &&& e.path@ == joined(root, relative)
    &&& e.relative_path@ == replaced(relative, '\\', '/')
}

/// The progress keys of some archives.
pub open spec fn keys_of(found: Seq<Seq<char>>) -> Seq<Seq<char>> {
    found.map_values(|relative: Seq<char>| replaced(relative, '\\', '/'))
}

/// A scanned library rooted at a directory.
#[derive(Debug, Clone, PartialEq, Eq)]
pub struct Library {
    root: String,
}

impl Library {
    /// The directory that the library is rooted at.
    pub closed spec fn root_text(&self) -> Seq<char> {
        self.root@
    }

    /// The library rooted at `root`.
    pub fn new(root: String) -> (res: Self)
        ensures
            res.root_text() == root@,
    {
        Library { root }
    }

    /// The directory that the library is rooted at.
    pub fn root(&self) -> (res: &str)
        ensures
            res@ == self.root_text(),
    {
        self.root.as_str()
    }

    /// The entries for the archives that a [`LibraryScan`] found, in natural
    /// order; those that rank the same stay in the order in which they were
    /// found.
    pub fn scan(&self, found: &Vec<String>) -> (res: Vec<LibraryEntry>)
        ensures
            exists|p: Seq<usize>| #[trigger]
                is_stable_sort(keys_of(texts(found@)), Collation::Natural, p) && res@.len()
                    == p.len() && forall|i: int|
                    0 <= i < p.len() ==> is_entry_of(
                        #[trigger] res@[i],
                        self.root_text(),
                        found@[p[i] as int]@,
                    ),
    {
        let mut keys: Vec<String> = Vec::new();
        let mut i: usize = 0;
        while i < found.len()
            invariant
                i <= found@.len(),
                keys@.len() == i,
                forall|k: int|
                    0 <= k < i ==> (#[trigger] keys@[k])@ == replaced(found@[k]@, '\\', '/'),
            decreases found@.len() - i,
        {
            keys.push(replace_char(found[i].as_str(), '\\', '/'));
            i = i + 1;
        }
        assert(texts(keys@) =~= keys_of(texts(found@)));
        let p = sorted_positions(&keys, Collation::Natural);
        let mut res: Vec<LibraryEntry> = Vec::new();
        let mut n: usize = 0;
        while n < p.len()
            invariant
                n <= p@.len(),
                keys@.len() == found@.len(),
                forall|k: int|
                    0 <= k < keys@.len() ==> (#[trigger] keys@[k])@ == replaced(
                        found@[k]@,
                        '\\',
                        '/',
                    ),
                is_stable_sort(texts(keys@), Collation::Natural, p@),
                res@.len() == n,
                forall|i: int|
                    0 <= i < n ==> is_entry_of(
                        #[trigger] res@[i],
                        self.root_text(),
                        found@[p@[i] as int]@,
                    ),
            decreases p@.len() - n,
        {
            let k: usize = p[n];
            let path = join(self.root.as_str(), found[k].as_str());
            let relative_path = keys[k].clone();
            res.push(LibraryEntry { path, relative_path });
            n = n + 1;
        }
        res
    }
}

/// A scan goes by the names: it descends into a directory, whatever its path,
/// exactly when its name begins with neither `.` nor `@`, and it lists a file,
/// whatever its path, exactly when its name does not begin with `.` and ends in
/// `.cbz` in any letter case.
pub proof fn names_decide_what_is_scanned(v: Visit)
    ensures
        v.is_entered() <==> v.is_dir && (v.name.len() == 0 || (v.name[0] as int != 0x2e
            && v.name[0] as int != 0x40)),
        v.is_book() <==> {
            let n = v.name.len();
            &&& !v.is_dir
            &&& n >= 4
            &&& v.name[0] as int != 0x2e
            &&& v.name[n - 4] as int == 0x2e
            &&& v.name[n - 3] as int == 0x63 || v.name[n - 3] as int == 0x43
            &&& v.name[n - 2] as int == 0x62 || v.name[n - 2] as int == 0x42
            &&& v.name[n - 1] as int == 0x7a || v.name[n - 1] as int == 0x5a
        },
{
    reveal_strlit(".cbz");
    let n = v.name.len();
    let l = lowered(v.name);
    if n >= 4 {
        let t = l.skip(n - 4);
        assert(t[0] == l[n - 4] && t[1] == l[n - 3] && t[2] == l[n - 2] && t[3] == l[n - 1]);
        letter_case_is_ascii(v.name, n - 4);
        letter_case_is_ascii(v.name, n - 3);
        letter_case_is_ascii(v.name, n - 2);
        letter_case_is_ascii(v.name, n - 1);
        if t[0] == '.' && t[1] == 'c' && t[2] == 'b' && t[3] == 'z' {
            assert(t =~= ".cbz"@);
        }
    }
}

/// Whether each item of `way` lies directly below the one before it.
pub open spec fn is_way(way: Seq<Tree>) -> bool {
    forall|k: int| #![trigger way[k]] 0 < k < way.len() ==> way[k - 1].children.contains(way[k])
}

/// The path at which `way` ends, from the directory `dir` on.
pub open spec fn path_along(dir: Seq<char>, way: Seq<Tree>) -> Seq<char>
    decreases way.len(),
{
    if way.len() == 0 {
        dir
    } else {
        path_along(joined(dir, way[0].name), way.drop_first())
    }
}

/// Whether the names on a way down a tree let its last item be listed: every
/// item but the last is a directory whose name begins with neither `.` nor `@`,
/// and the last is a file whose name does not begin with `.` and, in lower case,
/// ends in `.cbz`.
pub open spec fn leads_to_archive(way: Seq<Tree>) -> bool {
    &&& way.len() > 0
    &&& is_way(way)
    &&& forall|k: int|
        0 <= k < way.len() - 1 ==> (#[trigger] way[k]).is_dir && !(way[k].name.len() > 0 && (
        way[k].name[0] == '.' || way[k].name[0] == '@'))
    &&& !way.last().is_dir
    &&& !(way.last().name.len() > 0 && way.last().name[0] == '.')
    &&& exists|stem: Seq<char>| lowered(way.last().name) == #[trigger] (stem + ".cbz"@)
}

proof fn lemma_walk_all_contains(dir: Seq<char>, trees: Seq<Tree>, i: int, x: Seq<char>)
    requires
        0 <= i < trees.len(),
        walk(dir, trees[i]).contains(x),
    ensures
        walk_all(dir, trees).contains(x),
    decreases trees.len(),
{
    let before = walk_all(dir, trees.drop_last());
    let last = walk(dir, trees.last());
    if i == trees.len() - 1 {
        let k = choose|k: int| 0 <= k < last.len() && last[k] == x;
        assert((before + last)[before.len() + k] == x);
    } else {
        lemma_walk_all_contains(dir, trees.drop_last(), i, x);
        let k = choose|k: int| 0 <= k < before.len() && before[k] == x;
        assert((before + last)[k] == x);
    }
}

proof fn lemma_walk_each_contains(rooted: Seq<(Seq<char>, Tree)>, i: int, x: Seq<char>)
    requires
        0 <= i < rooted.len(),
        walk(rooted[i].0, rooted[i].1).contains(x),
    ensures
        walk_each(rooted).contains(x),
    decreases rooted.len(),
{
    let before = walk_each(rooted.drop_last());
    let last = walk(rooted.last().0, rooted.last().1);
    if i == rooted.len() - 1 {
        let k = choose|k: int| 0 <= k < last.len() && last[k] == x;
        assert((before + last)[before.len() + k] == x);
    } else {
        lemma_walk_each_contains(rooted.drop_last(), i, x);
        let k = choose|k: int| 0 <= k < before.len() && before[k] == x;
        assert((before + last)[k] == x);
    }
}

proof fn lemma_way_is_walked(dir: Seq<char>, way: Seq<Tree>)
    requires
        leads_to_archive(way),
    ensures
        walk(dir, way[0]).contains(path_along(dir, way)),
    decreases way.len(),
{
    let top = way[0].top(dir);
    names_decide_what_is_scanned(top);
    if way.len() == 1 {
        let stem = choose|stem: Seq<char>| lowered(way.last().name) == #[trigger] (stem + ".cbz"@);
        endings_are_what_comes_last(stem, stem, ".cbz"@);
        assert(top.is_book());
        assert(way.drop_first().len() == 0);
        assert(path_along(top.path, way.drop_first()) == top.path);
        assert(walk(dir, way[0])[0] == top.path);
    } else {
        let rest = way.drop_first();
        assert forall|k: int| #![trigger rest[k]] 0 < k < rest.len() implies rest[k - 1].children.contains(
            rest[k],
        ) by {
            assert(way[k + 1 - 1].children.contains(way[k + 1]));
        }
        assert forall|k: int| 0 <= k < rest.len() - 1 implies (#[trigger] rest[k]).is_dir && !(
        rest[k].name.len() > 0 && (rest[k].name[0] == '.' || rest[k].name[0] == '@')) by {
            assert(rest[k] == way[k + 1]);
        }
        assert(rest.last() == way.last());
        lemma_way_is_walked(top.path, rest);
        assert(way[1 - 1].children.contains(way[1]));
        assert(rest[0] == way[1]);
        let i = choose|i: int| 0 <= i < way[0].children.len() && way[0].children[i] == way[1];
        assert(way[0].is_dir);
        lemma_walk_all_contains(top.path, way[0].children, i, path_along(dir, way));
    }
}

/// At any depth: a file whose name does not begin with `.` and, in lower case,
/// ends in `.cbz`, and none of whose enclosing directories' names begins with `.`
/// or `@`, is among the archives that a complete scan finds.
pub proof fn archives_are_found_at_any_depth(
    states: Seq<ScanState>,
    i: int,
    way: Seq<Tree>,
)
    requires
        states.len() > 0,
        is_run(states),
        states.last().is_complete(),
        0 <= i < states[0].rooted.len(),
        leads_to_archive(way),
        states[0].rooted[i].1 == way[0],
    ensures
        states.last().found_next().contains(path_along(states[0].rooted[i].0, way)),
{
    let dir = states[0].rooted[i].0;
    let x = path_along(dir, way);
    let before = states[0].found;
    let walked = walk_each(states[0].rooted);
    complete_scan_finds_every_archive(states);
    lemma_way_is_walked(dir, way);
    lemma_walk_each_contains(states[0].rooted, i, x);
    let k = choose|k: int| 0 <= k < walked.len() && walked[k] == x;
    assert((before + walked)[before.len() + k] == x);
}

proof fn lemma_walked_has_way(dir: Seq<char>, tree: Tree, x: Seq<char>) -> (way: Seq<Tree>)
    requires
        walk(dir, tree).contains(x),
    ensures
        leads_to_archive(way),
        way[0] == tree,
        path_along(dir, way) == x,
    decreases tree,
{
    let top = tree.top(dir);
    if top.is_entered() {
        let (i, below) = lemma_walked_below(top.path, tree.children, x);
        let way = seq![tree] + below;
        assert(way.drop_first() =~= below);
        assert forall|k: int| #![trigger way[k]] 0 < k < way.len() implies way[k - 1].children.contains(
            way[k],
        ) by {
            if k == 1 {
                assert(way[1] == below[0]);
                assert(tree.children[i] == below[0]);
            } else {
                assert(way[k] == below[k - 1] && way[k - 1] == below[k - 2]);
            }
        }
        assert forall|k: int| 0 <= k < way.len() - 1 implies (#[trigger] way[k]).is_dir && !(
        way[k].name.len() > 0 && (way[k].name[0] == '.' || way[k].name[0] == '@')) by {
            if k > 0 {
                assert(way[k] == below[k - 1]);
            }
        }
        assert(way.last() == below.last());
        way
    } else {
        assert(top.is_book());
        let way = seq![tree];
        assert(way.drop_first().len() == 0);
        assert(path_along(top.path, way.drop_first()) == top.path);
        let l = lowered(tree.name);
        endings_are_what_comes_last(l, l, ".cbz"@);
        assert(l == l.take(l.len() - ".cbz"@.len()) + ".cbz"@);
        way
    }
}

proof fn lemma_walked_below(dir: Seq<char>, trees: Seq<Tree>, x: Seq<char>) -> (res: (
    int,
    Seq<Tree>,
))
    requires
        walk_all(dir, trees).contains(x),
    ensures
        0 <= res.0 < trees.len(),
        leads_to_archive(res.1),
        res.1[0] == trees[res.0],
        path_along(dir, res.1) == x,
    decreases trees,
{
    let before = walk_all(dir, trees.drop_last());
    let last = walk(dir, trees.last());
    let k = choose|k: int| 0 <= k < (before + last).len() && (before + last)[k] == x;
    if k < before.len() {
        assert(before[k] == x);
        let res = lemma_walked_below(dir, trees.drop_last(), x);
        res
    } else {
        assert(last[k - before.len()] == x);
        let way = lemma_walked_has_way(dir, trees.last(), x);
        (trees.len() - 1, way)
    }
}

/// Nothing but such archives is found: every path that a complete scan adds is
/// that of a file at the end of a way down whose names let it be listed.
pub proof fn only_archives_are_found(states: Seq<ScanState>, k: int) -> (res: (int, Seq<Tree>))
    requires
        states.len() > 0,
        is_run(states),
        states.last().is_complete(),
        states[0].found.len() <= k < states.last().found_next().len(),
    ensures
        0 <= res.0 < states[0].rooted.len(),
        leads_to_archive(res.1),
        res.1[0] == states[0].rooted[res.0].1,
        states.last().found_next()[k] == path_along(states[0].rooted[res.0].0, res.1),
{
    complete_scan_finds_every_archive(states);
    let walked = walk_each(states[0].rooted);
    let x = states.last().found_next()[k];
    assert(walked[k - states[0].found.len()] == x);
    lemma_walked_each(states[0].rooted, x)
}

proof fn lemma_walked_each(rooted: Seq<(Seq<char>, Tree)>, x: Seq<char>) -> (res: (int, Seq<Tree>))
    requires
        walk_each(rooted).contains(x),
    ensures
        0 <= res.0 < rooted.len(),
        leads_to_archive(res.1),
        res.1[0] == rooted[res.0].1,
        path_along(rooted[res.0].0, res.1) == x,
    decreases rooted.len(),
{
    let before = walk_each(rooted.drop_last());
    let last = walk(rooted.last().0, rooted.last().1);
    let k = choose|k: int| 0 <= k < (before + last).len() && (before + last)[k] == x;
    if k < before.len() {
        assert(before[k] == x);
        let res = lemma_walked_each(rooted.drop_last(), x);
        res
    } else {
        assert(last[k - before.len()] == x);
        let way = lemma_walked_has_way(rooted.last().0, rooted.last().1, x);
        (rooted.len() - 1, way)
    }
}

/// A listing is taken in item by item: each keeps its name, its kind and its
/// place, and its path is its name below the directory.
pub proof fn listings_are_taken_in_whole(dir: Seq<char>, items: Seq<DirItem>, i: int)
    requires
        0 <= i < items.len(),
    ensures
        visits(dir, items).len() == items.len(),
        visits(dir, items)[i].name == items[i].name@,
        visits(dir, items)[i].is_dir == items[i].is_dir,
        !items[i].name@.contains('/') && dir.len() == 0 ==> visits(dir, items)[i].path
            == items[i].name@,
        !items[i].name@.contains('/') && dir.len() > 0 && dir.last() != '/' ==> visits(
            dir,
            items,
        )[i].path == dir.push('/') + items[i].name@,
{
    let name = items[i].name@;
    joined_paths_lie_below(dir, name);
    if name.len() > 0 && name[0] == '/' {
        assert(name.contains(name[0]));
    }
}

/// The archives among some items are taken in one by one, in order, each with its
/// path, and the items before a directory are those that are not descended into.
pub proof fn items_are_looked_at_in_order(items: Seq<Visit>, v: Visit)
    ensures
        books(Seq::empty()) == Seq::<Seq<char>>::empty(),
        v.is_book() ==> books(items.push(v)) == books(items).push(v.path),
        !v.is_book() ==> books(items.push(v)) == books(items),
        0 <= items_before_dir(items) <= items.len(),
        forall|i: int| 0 <= i < items_before_dir(items) ==> !(#[trigger] items[i]).is_entered(),
        items_before_dir(items) < items.len() ==> items[items_before_dir(items)].is_entered(),
{
    assert(items.push(v).drop_last() =~= items);
    lemma_items_before_dir(items);
}

/// An entry leads to its archive below the root, and its key has slashes where
/// the relative path has backslashes and agrees with it elsewhere.
pub proof fn entries_lead_to_their_archives(
    e: LibraryEntry,
    root: Seq<char>,
    relative: Seq<char>,
    i: int,
)
    requires
        is_entry_of(e, root, relative),
        0 <= i < relative.len(),
    ensures
        root.len() > 0 && root.last() != '/' && relative[0] != '/' ==> e.path@ == root.push('/')
            + relative,
        e.relative_path@.len() == relative.len(),
        relative[i] == '\\' ==> e.relative_path@[i] == '/',
        relative[i] != '\\' ==> e.relative_path@[i] == relative[i],
        keys_of(seq![relative]) == seq![e.relative_path@],
{
    joined_paths_lie_below(root, relative);
    replacing_touches_occurrences_only(relative, '\\', '/', i);
    assert(keys_of(seq![relative]) =~= seq![e.relative_path@]);
}

/// Keys are made one by one.
pub proof fn keys_are_made_one_by_one(found: Seq<Seq<char>>, i: int)
    requires
        0 <= i < found.len(),
    ensures
        keys_of(found).len() == found.len(),
        keys_of(found)[i] == keys_of(seq![found[i]])[0],
{
}

} // verus!
