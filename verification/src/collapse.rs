//! Collapsed directories, and the entries of the tree that stay visible.

use crate::rows::ints;
use crate::tree::{entry_views, string_views, EntryKindView, EntryView, TreeEntry, TreeEntryKind};
use vstd::prelude::*;

verus! {

/// A set of paths.
#[derive(Debug)]
pub struct PathSet {
    paths: Vec<String>,
}

impl View for PathSet {
    type V = Set<Seq<char>>;

    closed spec fn view(&self) -> Set<Seq<char>> {
        string_views(self.paths@).to_set()
    }
}

impl PathSet {
    /// The empty set.
    pub fn new() -> (set: PathSet)
        ensures
            set@ == Set::<Seq<char>>::empty(),
    {
        let set = PathSet { paths: Vec::new() };
        assert(string_views(set.paths@) =~= seq![]);
        assert(set@ =~= Set::<Seq<char>>::empty());
        set
    }

    /// Whether `path` is in the set.
    pub fn contains(&self, path: &String) -> (r: bool)
        ensures
            r == self@.contains(path@),
    {
        for i in 0..self.paths.len()
            invariant
                forall|j: int| 0 <= j < i ==> (#[trigger] string_views(self.paths@)[j]) != path@,
        {
            if self.paths[i] == *path {
                assert(string_views(self.paths@)[i as int] == path@);
                return true;
            }
        }
        false
    }

    /// Adds `path` to the set.
    pub fn insert(&mut self, path: String)
        ensures
            final(self)@ == old(self)@.insert(path@),
    {
        if self.contains(&path) {
            assert(self@ =~= old(self)@.insert(path@));
        } else {
            let ghost before = string_views(self.paths@);
            let ghost added = path@;
            self.paths.push(path);
            proof {
                let after = string_views(self.paths@);
                assert(after =~= before.push(added));
                assert(after[before.len() as int] == added);
                assert forall|p: Seq<char>| before.contains(p) implies after.contains(p) by {
                    let i = choose|i: int| 0 <= i < before.len() && before[i] == p;
                    assert(after[i] == p);
                }
                assert(self@ =~= old(self)@.insert(added));
            }
        }
    }

    /// Keeps the paths of the directories in a tree, drops all others.
    pub fn retain_dirs(&mut self, entries: &Vec<TreeEntry>)
        ensures
            final(self)@ == old(self)@.intersect(dir_paths(entry_views(entries@))),
    {
        let mut kept: Vec<String> = Vec::new();
        let ghost all = string_views(self.paths@);
        let ghost dirs = dir_paths(entry_views(entries@));
        for i in 0..self.paths.len()
            invariant
                all == string_views(self.paths@),
                dirs == dir_paths(entry_views(entries@)),
                string_views(kept@).to_set() == all.take(i as int).to_set().intersect(dirs),
        {
            let ghost before = string_views(kept@);
            let keep = has_dir(entries, &self.paths[i]);
            if keep {
                kept.push(self.paths[i].clone());
            }
            proof {
                let path = all[i as int];
                let after = string_views(kept@);
                assert(all.take(i + 1) =~= all.take(i as int).push(path));
                lemma_push_to_set(all.take(i as int), path);
                if keep {
                    assert(after =~= before.push(path));
                    lemma_push_to_set(before, path);
                }
                assert(after.to_set() =~= all.take(i + 1).to_set().intersect(dirs));
            }
        }
        assert(all.take(self.paths.len() as int) =~= all);
        self.paths = kept;
    }

    /// Takes `path` out of the set, and says whether it was in it.
    pub fn remove(&mut self, path: &String) -> (found: bool)
        ensures
            found == old(self)@.contains(path@),
            final(self)@ == old(self)@.remove(path@),
    {
        let found = self.contains(path);
        let mut kept: Vec<String> = Vec::new();
        let ghost all = string_views(self.paths@);
        for i in 0..self.paths.len()
            invariant
                all == string_views(self.paths@),
                string_views(kept@).to_set() == all.take(i as int).to_set().remove(path@),
        {
            let ghost before = string_views(kept@);
            let keep = self.paths[i] != *path;
            if keep {
                kept.push(self.paths[i].clone());
            }
            proof {
                let next = all[i as int];
                let after = string_views(kept@);
                assert(all.take(i + 1) =~= all.take(i as int).push(next));
                lemma_push_to_set(all.take(i as int), next);
                if keep {
                    assert(after =~= before.push(next));
                    lemma_push_to_set(before, next);
                }
                assert(after.to_set() =~= all.take(i + 1).to_set().remove(path@));
            }
        }
        assert(all.take(self.paths.len() as int) =~= all);
        self.paths = kept;
        found
    }

    /// Adds `path` to the set, or takes it out if it is in it.
    pub fn toggle(&mut self, path: String)
        ensures
            final(self)@ == toggled(old(self)@, path@),
    {
        if !self.remove(&path) {
            self.insert(path);
        }
        assert(self@ =~= toggled(old(self)@, path@));
    }
}

/// The set with `path` added, or taken out if it was in it.
pub open spec fn toggled(set: Set<Seq<char>>, path: Seq<char>) -> Set<Seq<char>> {
    if set.contains(path) {
        set.remove(path)
    } else {
        set.insert(path)
    }
}

/// Toggling a path twice gives back the set.
pub proof fn toggling_twice_changes_nothing(set: Set<Seq<char>>, path: Seq<char>)
    ensures
        toggled(toggled(set, path), path) == set,
{
    assert(toggled(toggled(set, path), path) =~= set);
}

proof fn lemma_push_to_set(s: Seq<Seq<char>>, x: Seq<char>)
    ensures
        s.push(x).to_set() == s.to_set().insert(x),
{
    let pushed = s.push(x);
    assert(pushed[s.len() as int] == x);
    assert forall|p: Seq<char>| s.contains(p) implies pushed.contains(p) by {
        let i = choose|i: int| 0 <= i < s.len() && s[i] == p;
        assert(pushed[i] == p);
    }
    assert(pushed.to_set() =~= s.to_set().insert(x));
}

/// Whether an entry is the directory at `path`.
pub open spec fn is_dir_at(entry: EntryView, path: Seq<char>) -> bool {
    entry.kind == (EntryKindView::Dir { path })
}

/// The paths of the directories in a tree.
pub open spec fn dir_paths(entries: Seq<EntryView>) -> Set<Seq<char>> {
    Set::new(
        |path: Seq<char>|
            exists|i: int| 0 <= i < entries.len() && is_dir_at(#[trigger] entries[i], path),
    )
}

fn has_dir(entries: &Vec<TreeEntry>, path: &String) -> (r: bool)
    ensures
        r == dir_paths(entry_views(entries@)).contains(path@),
{
    let ghost views = entry_views(entries@);
    for i in 0..entries.len()
        invariant
            views == entry_views(entries@),
            forall|j: int| 0 <= j < i ==> !is_dir_at(#[trigger] views[j], path@),
    {
        assert(views[i as int] == entries@[i as int]@);
        if let TreeEntryKind::Dir { path: dir } = &entries[i].kind {
            if *dir == *path {
                assert(is_dir_at(views[i as int], path@));
                return true;
            }
        }
    }
    false
}

// --- Visible entries -------------------------------------------------------

/// Whether entry `i` lies inside entry `j`: it comes after it, and everything
/// from there up to it is deeper.
pub open spec fn lies_inside(entries: Seq<EntryView>, i: int, j: int) -> bool {
    &&& 0 <= j < i < entries.len()
    &&& forall|k: int| j < k <= i ==> entries[j].depth < (#[trigger] entries[k]).depth
}

/// Whether an entry is a directory whose path is among the collapsed ones.
pub open spec fn is_collapsed(entry: EntryView, collapsed: Set<Seq<char>>) -> bool {
    match entry.kind {
        EntryKindView::Dir { path } => collapsed.contains(path),
        EntryKindView::File { .. } => false,
    }
}

/// Whether entry `i` is hidden: it lies inside a collapsed directory.
pub open spec fn is_hidden(entries: Seq<EntryView>, collapsed: Set<Seq<char>>, i: int) -> bool {
    exists|j: int| #[trigger] lies_inside(entries, i, j) && is_collapsed(entries[j], collapsed)
}

/// The indices of the entries before `n` that are not hidden, ascending.
pub open spec fn visible_before(entries: Seq<EntryView>, collapsed: Set<Seq<char>>, n: int) -> Seq<
    int,
>
    decreases n,
{
    if n <= 0 {
        seq![]
    } else if is_hidden(entries, collapsed, n - 1) {
        visible_before(entries, collapsed, n - 1)
    } else {
        visible_before(entries, collapsed, n - 1).push(n - 1)
    }
}

/// The indices of the entries that are not hidden, ascending.
pub open spec fn visible(entries: Seq<EntryView>, collapsed: Set<Seq<char>>) -> Seq<int> {
    visible_before(entries, collapsed, entries.len() as int)
}

/// Whether entry `j` is a collapsed directory with all entries between it and
/// `i` inside it.
spec fn open_until(entries: Seq<EntryView>, collapsed: Set<Seq<char>>, j: int, i: int) -> bool {
    &&& 0 <= j < i <= entries.len()
    &&& is_collapsed(entries[j], collapsed)
    &&& forall|k: int| j < k < i ==> entries[j].depth < (#[trigger] entries[k]).depth
}

/// Whether `hide` is the depth of the outermost collapsed directory that is open
/// until `i`.
spec fn hides(
    entries: Seq<EntryView>,
    collapsed: Set<Seq<char>>,
    i: int,
    hide: Option<usize>,
) -> bool {
    match hide {
        Some(depth) => {
            &&& exists|j: int| #[trigger]
                open_until(entries, collapsed, j, i) && entries[j].depth == depth
            &&& forall|j: int| #[trigger]
                open_until(entries, collapsed, j, i) ==> depth <= entries[j].depth
        },
        None => forall|j: int| !#[trigger] open_until(entries, collapsed, j, i),
    }
}

proof fn lemma_hides(
    entries: Seq<EntryView>,
    collapsed: Set<Seq<char>>,
    i: int,
    hide: Option<usize>,
)
    requires
        0 <= i < entries.len(),
        hides(entries, collapsed, i, hide),
    ensures
        is_hidden(entries, collapsed, i) <==> (hide matches Some(depth) && entries[i].depth > depth),
        is_hidden(entries, collapsed, i) ==> hides(entries, collapsed, i + 1, hide),
        !is_hidden(entries, collapsed, i) && !is_collapsed(entries[i], collapsed) ==> hides(
            entries,
            collapsed,
            i + 1,
            None,
        ),
{
    assert forall|j: int| #[trigger] open_until(entries, collapsed, j, i) && entries[i].depth
        > entries[j].depth implies is_hidden(entries, collapsed, i) by {
        assert(lies_inside(entries, i, j));
    }
    if is_hidden(entries, collapsed, i) {
        let j = choose|j: int| #[trigger]
            lies_inside(entries, i, j) && is_collapsed(entries[j], collapsed);
        assert(open_until(entries, collapsed, j, i));
        assert(entries[j].depth < entries[i].depth);
        let depth = hide->0;
        let outer = choose|j: int| #[trigger]
            open_until(entries, collapsed, j, i) && entries[j].depth == depth;
        assert(open_until(entries, collapsed, outer, i + 1));
        assert forall|j: int| #[trigger] open_until(entries, collapsed, j, i + 1) implies depth
            <= entries[j].depth by {
            if j < i {
                assert(open_until(entries, collapsed, j, i));
            }
        }
    } else {
        assert forall|j: int| j < i implies !#[trigger] open_until(
            entries,
            collapsed,
            j,
            i + 1,
        ) by {
            if open_until(entries, collapsed, j, i + 1) {
                assert(open_until(entries, collapsed, j, i));
                assert(entries[j].depth < entries[i].depth);
            }
        }
    }
}

proof fn lemma_hides_at_dir(entries: Seq<EntryView>, collapsed: Set<Seq<char>>, i: int, depth: usize)
    requires
        0 <= i < entries.len(),
        !is_hidden(entries, collapsed, i),
        is_collapsed(entries[i], collapsed),
        entries[i].depth == depth,
    ensures
        hides(entries, collapsed, i + 1, Some(depth)),
{
    assert(open_until(entries, collapsed, i, i + 1));
    assert forall|j: int| #[trigger] open_until(entries, collapsed, j, i + 1) implies depth
        <= entries[j].depth by {
        if j < i {
            assert(lies_inside(entries, i, j));
        }
    }
}

/// The indices of the entries that are shown while some directories are
/// collapsed.
pub fn visible_entries(entries: &[TreeEntry], collapsed: &PathSet) -> (shown: Vec<usize>)
    ensures
        ints(shown@) == visible(entry_views(entries@), collapsed@),
{
    let mut out: Vec<usize> = Vec::new();
    let mut hide_deeper_than: Option<usize> = None;
    let ghost views = entry_views(entries@);
    assert(ints(out@) =~= visible_before(views, collapsed@, 0));
    for ix in 0..entries.len()
        invariant
            views == entry_views(entries@),
            hides(views, collapsed@, ix as int, hide_deeper_than),
            ints(out@) == visible_before(views, collapsed@, ix as int),
    {
        let entry = &entries[ix];
        proof {
            assert(views[ix as int] == entry@);
            lemma_hides(views, collapsed@, ix as int, hide_deeper_than);
        }
        let hidden = match hide_deeper_than {
            Some(depth) => entry.depth > depth,
            None => false,
        };
        if !hidden {
            hide_deeper_than = None;
            let ghost before = ints(out@);
            out.push(ix);
            assert(ints(out@) =~= before.push(ix as int));
            if let TreeEntryKind::Dir { path } = &entry.kind {
                if collapsed.contains(path) {
                    hide_deeper_than = Some(entry.depth);
                    proof {
                        lemma_hides_at_dir(views, collapsed@, ix as int, entry.depth);
                    }
                }
            }
        }
    }
    out
}

/// The visible entries are those that are not hidden, each once, in order.
pub proof fn visible_is_not_hidden(entries: Seq<EntryView>, collapsed: Set<Seq<char>>, n: int)
    requires
        0 <= n <= entries.len(),
    ensures
        forall|i: int|
            #![trigger visible_before(entries, collapsed, n).contains(i)]
            #![trigger is_hidden(entries, collapsed, i)]
            visible_before(entries, collapsed, n).contains(i) <==> 0 <= i < n && !is_hidden(
                entries,
                collapsed,
                i,
            ),
        forall|a: int, b: int|
            0 <= a < b < visible_before(entries, collapsed, n).len() ==> visible_before(
                entries,
                collapsed,
                n,
            )[a] < visible_before(entries, collapsed, n)[b],
    decreases n,
{
    if n > 0 {
        visible_is_not_hidden(entries, collapsed, n - 1);
        let before = visible_before(entries, collapsed, n - 1);
        let all = visible_before(entries, collapsed, n);
        assert forall|a: int| 0 <= a < before.len() implies (#[trigger] before[a]) < n - 1 by {
            assert(before.contains(before[a]));
        }
        if !is_hidden(entries, collapsed, n - 1) {
            assert(all[before.len() as int] == n - 1);
            assert forall|i: int| before.contains(i) implies all.contains(i) by {
                let a = choose|a: int| 0 <= a < before.len() && before[a] == i;
                assert(all[a] == i);
            }
        }
        assert forall|i: int| #[trigger] all.contains(i) implies before.contains(i) || (i == n - 1
            && !is_hidden(entries, collapsed, i)) by {
            let a = choose|a: int| 0 <= a < all.len() && all[a] == i;
            if a < before.len() {
                assert(before[a] == i);
            }
        }
    }
}

/// With nothing collapsed, every entry is visible.
pub proof fn nothing_collapsed_shows_everything(entries: Seq<EntryView>)
    ensures
        visible(entries, Set::<Seq<char>>::empty()) == Seq::new(entries.len(), |i: int| i),
{
    lemma_all_visible(entries, entries.len() as int);
}

proof fn lemma_all_visible(entries: Seq<EntryView>, n: int)
    requires
        0 <= n <= entries.len(),
    ensures
        visible_before(entries, Set::<Seq<char>>::empty(), n) == Seq::new(n as nat, |i: int| i),
    decreases n,
{
    if n > 0 {
        lemma_all_visible(entries, n - 1);
    }
    assert(visible_before(entries, Set::<Seq<char>>::empty(), n) =~= Seq::new(
        n as nat,
        |i: int| i,
    ));
}

// --- What the sets and the lists hold --------------------------------------

/// Toggling a path puts it into a set or takes it out, and leaves all others as they
/// are.
pub proof fn toggling_changes_one_path(set: Set<Seq<char>>, path: Seq<char>, other: Seq<char>)
    ensures
        toggled(set, path).contains(path) == !set.contains(path),
        other != path ==> toggled(set, path).contains(other) == set.contains(other),
{
}

/// The directories of a tree are the paths of its directory entries.
pub proof fn directories_are_the_directory_entries(entries: Seq<EntryView>, path: Seq<char>)
    ensures
        dir_paths(entries).contains(path) <==> exists|i: int|
            0 <= i < entries.len() && (#[trigger] entries[i]).kind == (EntryKindView::Dir { path }),
{
    if exists|i: int|
        0 <= i < entries.len() && (#[trigger] entries[i]).kind == (EntryKindView::Dir { path }) {
        let i = choose|i: int|
            0 <= i < entries.len() && (#[trigger] entries[i]).kind == (EntryKindView::Dir { path });
        assert(is_dir_at(entries[i], path));
    }
}

/// The visible entries are, in order and once each, the entries above which no
/// collapsed directory stands with nothing but deeper entries down to them.
pub proof fn collapsing_hides_what_is_inside(
    entries: Seq<EntryView>,
    collapsed: Set<Seq<char>>,
    i: int,
)
    ensures
        visible(entries, collapsed).contains(i) <==> {
            &&& 0 <= i < entries.len()
            &&& !exists|j: int|
                0 <= j < i && ((#[trigger] entries[j]).kind matches EntryKindView::Dir { path }
                    && collapsed.contains(path)) && forall|k: int|
                    j < k <= i ==> entries[j].depth < (#[trigger] entries[k]).depth
        },
        forall|a: int, b: int|
            0 <= a < b < visible(entries, collapsed).len() ==> visible(entries, collapsed)[a]
                < visible(entries, collapsed)[b],
{
    visible_is_not_hidden(entries, collapsed, entries.len() as int);
    if 0 <= i < entries.len() {
        if is_hidden(entries, collapsed, i) {
            let j = choose|j: int| #[trigger]
                lies_inside(entries, i, j) && is_collapsed(entries[j], collapsed);
            assert(entries[j].kind is Dir);
        }
        assert forall|j: int|
            0 <= j < i && ((#[trigger] entries[j]).kind matches EntryKindView::Dir { path }
                && collapsed.contains(path)) && (forall|k: int|
                j < k <= i ==> entries[j].depth < (
                #[trigger] entries[k]).depth) implies is_hidden(entries, collapsed, i) by {
            assert(lies_inside(entries, i, j));
            assert(is_collapsed(entries[j], collapsed));
        }
    }
}

}
