//! The tree of changed files that the sidebar shows, as a flat list of entries.

use crate::diff::str_views;
use crate::text::{chars_of, precedes, str_precedes};
use vstd::prelude::*;

verus! {

/// One line of the tree.
#[derive(Debug)]
pub struct TreeEntry {
    pub depth: usize,
    pub name: String,
    pub kind: TreeEntryKind,
}

/// What an entry stands for: a directory with its path, or the file with an index.
#[derive(Debug)]
pub enum TreeEntryKind {
    Dir { path: String },
    File { file_ix: usize },
}

/// The mathematical model of a [`TreeEntryKind`].
pub enum EntryKindView {
    Dir { path: Seq<char> },
    File { file_ix: int },
}

/// The mathematical model of a [`TreeEntry`].
pub struct EntryView {
    pub depth: int,
    pub name: Seq<char>,
    pub kind: EntryKindView,
}

impl View for TreeEntryKind {
    type V = EntryKindView;

    open spec fn view(&self) -> EntryKindView {
        match *self {
            TreeEntryKind::Dir { path } => EntryKindView::Dir { path: path@ },
            TreeEntryKind::File { file_ix } => EntryKindView::File { file_ix: file_ix as int },
        }
    }
}

impl View for TreeEntry {
    type V = EntryView;

    open spec fn view(&self) -> EntryView {
        EntryView { depth: self.depth as int, name: self.name@, kind: self.kind@ }
    }
}

/// The models of a list of entries.
pub open spec fn entry_views(entries: Seq<TreeEntry>) -> Seq<EntryView> {
    entries.map_values(|entry: TreeEntry| entry@)
}

// --- Paths -----------------------------------------------------------------

/// The parts of a path between its slashes. There is always at least one.
pub open spec fn parts(path: Seq<char>) -> Seq<Seq<char>>
    decreases path.len(),
{
    if path.len() == 0 {
        seq![seq![]]
    } else {
        let before = parts(path.drop_last());
        if path.last() == '/' {
            before.push(seq![])
        } else {
            before.update(before.len() - 1, before.last().push(path.last()))
        }
    }
}

/// The directories of a path, from the outermost in.
pub open spec fn dirs_of(path: Seq<char>) -> Seq<Seq<char>> {
    parts(path).drop_last()
}

/// The name of the file at a path.
pub open spec fn name_of(path: Seq<char>) -> Seq<char> {
    parts(path).last()
}

proof fn lemma_parts_nonempty(path: Seq<char>)
    ensures
        parts(path).len() >= 1,
    decreases path.len(),
{
    if path.len() > 0 {
        lemma_parts_nonempty(path.drop_last());
    }
}

/// The models of a list of strings.
pub open spec fn string_views(strings: Seq<String>) -> Seq<Seq<char>> {
    strings.map_values(|s: String| s@)
}

/// Splits a path into its directories and the name of the file.
fn split_path(path: &str) -> (split: (Vec<String>, String))
    ensures
        string_views(split.0@) == dirs_of(path@),
        split.1@ == name_of(path@),
{
    let chars = chars_of(path);
    let mut dirs: Vec<String> = Vec::new();
    let mut start: usize = 0;
    assert(chars@.subrange(0, 0) =~= seq![]);
    assert(string_views(dirs@).push(chars@.subrange(0, 0)) =~= parts(chars@.take(0)));
    for i in 0..chars.len()
        invariant
            chars@ == path@,
            start <= i,
            string_views(dirs@).push(chars@.subrange(start as int, i as int)) == parts(
                chars@.take(i as int),
            ),
    {
        let ghost known = string_views(dirs@);
        let ghost part = chars@.subrange(start as int, i as int);
        proof {
            assert(chars@.take(i + 1).drop_last() =~= chars@.take(i as int));
            assert(chars@.take(i + 1).last() == chars@[i as int]);
            assert(known.push(part).last() == part);
        }
        if chars[i] == '/' {
            dirs.push(path.substring_char(start, i).to_owned());
            start = i + 1;
            proof {
                assert(chars@.subrange(start as int, i + 1) =~= seq![]);
                assert(string_views(dirs@) =~= known.push(part));
                assert(parts(chars@.take(i + 1)) =~= known.push(part).push(seq![]));
            }
        } else {
            proof {
                assert(chars@.subrange(start as int, i + 1) =~= part.push(chars@[i as int]));
                assert(known.push(part).update(known.len() as int, part.push(chars@[i as int]))
                    =~= known.push(part.push(chars@[i as int])));
            }
        }
    }
    let n: usize = chars.len();
    proof {
        assert(chars@.take(n as int) =~= path@);
        let part = chars@.subrange(start as int, n as int);
        assert(string_views(dirs@).push(part).drop_last() =~= string_views(dirs@));
    }
    let name = path.substring_char(start, n).to_owned();
    (dirs, name)
}

// --- The tree of directories -----------------------------------------------

/// A directory: its subdirectories by name, and its files by name and index.
pub struct Node {
    pub dirs: Seq<(Seq<char>, Node)>,
    pub files: Seq<(Seq<char>, int)>,
}

/// The directory without content.
pub open spec fn empty_node() -> Node {
    Node { dirs: seq![], files: seq![] }
}

/// The index of the first subdirectory whose name does not precede `name`.
pub open spec fn dir_slot(dirs: Seq<(Seq<char>, Node)>, name: Seq<char>) -> int
    decreases dirs.len(),
{
    if dirs.len() == 0 {
        0
    } else if precedes(dirs[0].0, name) {
        1 + dir_slot(dirs.drop_first(), name)
    } else {
        0
    }
}

/// The order of the files of a directory: by name, then by index.
pub open spec fn file_precedes(a: (Seq<char>, int), b: (Seq<char>, int)) -> bool {
    precedes(a.0, b.0) || (a.0 == b.0 && a.1 < b.1)
}

/// The index of the first file that does not come before `file`.
pub open spec fn file_slot(files: Seq<(Seq<char>, int)>, file: (Seq<char>, int)) -> int
    decreases files.len(),
{
    if files.len() == 0 {
        0
    } else if file_precedes(files[0], file) {
        1 + file_slot(files.drop_first(), file)
    } else {
        0
    }
}

/// The subdirectories with one called `name` among them, put in its place if it
/// was missing.
pub open spec fn with_dir(dirs: Seq<(Seq<char>, Node)>, name: Seq<char>) -> Seq<(Seq<char>, Node)> {
    let at = dir_slot(dirs, name);
    if at < dirs.len() && dirs[at].0 == name {
        dirs
    } else {
        dirs.insert(at, (name, empty_node()))
    }
}

/// The directory with one more file, under the given chain of subdirectories.
pub open spec fn with_file(node: Node, dirs: Seq<Seq<char>>, file: (Seq<char>, int)) -> Node
    decreases dirs.len(),
{
    if dirs.len() == 0 {
        Node { dirs: node.dirs, files: node.files.insert(file_slot(node.files, file), file) }
    } else {
        let at = dir_slot(node.dirs, dirs[0]);
        let children = with_dir(node.dirs, dirs[0]);
        Node {
            dirs: children.update(
                at,
                (dirs[0], with_file(children[at].1, dirs.drop_first(), file)),
            ),
            files: node.files,
        }
    }
}

/// The tree of a list of paths. A file is known by its index in the list.
pub open spec fn tree_node(paths: Seq<Seq<char>>) -> Node
    decreases paths.len(),
{
    if paths.len() == 0 {
        empty_node()
    } else {
        with_file(
            tree_node(paths.drop_last()),
            dirs_of(paths.last()),
            (name_of(paths.last()), paths.len() - 1),
        )
    }
}

// --- The listing -----------------------------------------------------------

/// The path of a directory called `name` in the directory at `prefix`.
pub open spec fn child_path(prefix: Seq<char>, name: Seq<char>) -> Seq<char> {
    if prefix.len() == 0 {
        name
    } else {
        prefix + seq!['/'] + name
    }
}

/// The entries of the files of a directory.
pub open spec fn files_listing(files: Seq<(Seq<char>, int)>, depth: int) -> Seq<EntryView> {
    files.map_values(
        |file: (Seq<char>, int)|
            EntryView { depth, name: file.0, kind: EntryKindView::File { file_ix: file.1 } },
    )
}

/// The entries of a directory's content: its subdirectories, then its files.
pub open spec fn listing(node: Node, prefix: Seq<char>, depth: int) -> Seq<EntryView>
    decreases node, 0int,
{
    dirs_listing(node.dirs, prefix, depth) + files_listing(node.files, depth)
}

/// The entries of a list of subdirectories, each with its content.
pub open spec fn dirs_listing(
    dirs: Seq<(Seq<char>, Node)>,
    prefix: Seq<char>,
    depth: int,
) -> Seq<EntryView>
    decreases dirs, 0int,
{
    if dirs.len() == 0 {
        seq![]
    } else {
        let (name, node) = dirs[dirs.len() - 1];
        dirs_listing(dirs.drop_last(), prefix, depth) + dir_listing(
            name,
            child_path(prefix, name),
            node,
            depth,
        )
    }
}

/// The entries of one directory. A directory that holds nothing but one
/// subdirectory shares its entry with it.
pub open spec fn dir_listing(
    label: Seq<char>,
    path: Seq<char>,
    node: Node,
    depth: int,
) -> Seq<EntryView>
    decreases node, 1int,
{
    if node.files.len() == 0 && node.dirs.len() == 1 {
        let (name, child) = node.dirs[0];
        dir_listing(label + seq!['/'] + name, path + seq!['/'] + name, child, depth)
    } else {
        seq![EntryView { depth, name: label, kind: EntryKindView::Dir { path } }] + listing(
            node,
            path,
            depth + 1,
        )
    }
}

/// The tree of a list of paths, as the sidebar shows it.
pub open spec fn tree(paths: Seq<Seq<char>>) -> Seq<EntryView> {
    listing(tree_node(paths), seq![], 0)
}

// --- Building the tree -----------------------------------------------------

/// The height of a directory: how many levels of subdirectories it has.
pub open spec fn height(node: Node) -> nat
    decreases node, 0int,
{
    dirs_height(node.dirs)
}

/// The height of a directory with these subdirectories.
pub open spec fn dirs_height(dirs: Seq<(Seq<char>, Node)>) -> nat
    decreases dirs, 0int,
{
    if dirs.len() == 0 {
        0
    } else {
        let others = dirs_height(dirs.drop_last());
        let last = 1 + height(dirs[dirs.len() - 1].1);
        if others >= last {
            others
        } else {
            last
        }
    }
}

proof fn lemma_child_height(dirs: Seq<(Seq<char>, Node)>, i: int)
    requires
        0 <= i < dirs.len(),
    ensures
        1 + height(dirs[i].1) <= dirs_height(dirs),
    decreases dirs.len(),
{
    if i < dirs.len() - 1 {
        lemma_child_height(dirs.drop_last(), i);
    }
}

/// The height of a list is that of its highest member.
proof fn lemma_height_bound(dirs: Seq<(Seq<char>, Node)>, bound: nat)
    requires
        forall|i: int| 0 <= i < dirs.len() ==> 1 + height((#[trigger] dirs[i]).1) <= bound,
    ensures
        dirs_height(dirs) <= bound,
    decreases dirs.len(),
{
    if dirs.len() > 0 {
        assert forall|i: int| 0 <= i < dirs.drop_last().len() implies 1 + height(
            (#[trigger] dirs.drop_last()[i]).1,
        ) <= bound by {
            assert(dirs.drop_last()[i] == dirs[i]);
        }
        lemma_height_bound(dirs.drop_last(), bound);
    }
}

pub(crate) proof fn lemma_dir_slot(dirs: Seq<(Seq<char>, Node)>, name: Seq<char>)
    ensures
        0 <= dir_slot(dirs, name) <= dirs.len(),
    decreases dirs.len(),
{
    if dirs.len() > 0 && precedes(dirs[0].0, name) {
        lemma_dir_slot(dirs.drop_first(), name);
    }
}

pub(crate) proof fn lemma_file_slot(files: Seq<(Seq<char>, int)>, file: (Seq<char>, int))
    ensures
        0 <= file_slot(files, file) <= files.len(),
    decreases files.len(),
{
    if files.len() > 0 && file_precedes(files[0], file) {
        lemma_file_slot(files.drop_first(), file);
    }
}

/// A file under `dirs` makes a tree no higher than that chain.
proof fn lemma_with_file_height(node: Node, dirs: Seq<Seq<char>>, file: (Seq<char>, int), bound: nat)
    requires
        height(node) <= bound,
        dirs.len() <= bound,
    ensures
        height(with_file(node, dirs, file)) <= bound,
    decreases dirs.len(),
{
    if dirs.len() > 0 {
        let at = dir_slot(node.dirs, dirs[0]);
        let children = with_dir(node.dirs, dirs[0]);
        let after = with_file(node, dirs, file).dirs;
        lemma_dir_slot(node.dirs, dirs[0]);
        assert forall|i: int| 0 <= i < children.len() implies 1 + height(
            (#[trigger] children[i]).1,
        ) <= bound by {
            if children.len() == node.dirs.len() || i < at {
                lemma_child_height(node.dirs, i);
            } else if i > at {
                lemma_child_height(node.dirs, i - 1);
                assert(children[i] == node.dirs[i - 1]);
            } else {
                assert(children[i].1 == empty_node());
                assert(height(empty_node()) == 0) by {
                    assert(empty_node().dirs.len() == 0);
                }
            }
        }
        assert(1 + height(children[at].1) <= bound);
        lemma_with_file_height(children[at].1, dirs.drop_first(), file, (bound - 1) as nat);
        lemma_height_bound(after, bound);
    }
}

/// A directory while the tree is built.
struct DirNode {
    dirs: Vec<(String, DirNode)>,
    files: Vec<(String, usize)>,
}

impl DirNode {
    /// The directory as a mathematical value.
    spec fn model(self) -> Node
        decreases self,
    {
        Node {
            dirs: Seq::new(
                self.dirs@.len(),
                |i: int|
                    if 0 <= i < self.dirs@.len() {
                        (self.dirs@[i].0@, self.dirs@[i].1.model())
                    } else {
                        arbitrary()
                    },
            ),
            files: self.files@.map_values(|file: (String, usize)| (file.0@, file.1 as int)),
        }
    }

    fn new() -> (node: DirNode)
        ensures
            node.model() == empty_node(),
    {
        let node = DirNode { dirs: Vec::new(), files: Vec::new() };
        assert(node.model().dirs =~= seq![]);
        assert(node.model().files =~= seq![]);
        node
    }

    fn slot_of_dir(&self, name: &String) -> (at: usize)
        ensures
            at == dir_slot(self.model().dirs, name@),
            at <= self.dirs.len(),
    {
        let ghost dirs = self.model().dirs;
        let mut at: usize = 0;
        assert(dirs.skip(0) =~= dirs);
        while at < self.dirs.len() && str_precedes(self.dirs[at].0.as_str(), name.as_str())
            invariant
                dirs == self.model().dirs,
                at <= self.dirs.len(),
                dir_slot(dirs, name@) == at + dir_slot(dirs.skip(at as int), name@),
            decreases self.dirs.len() - at,
        {
            assert(dirs.skip(at as int)[0] == dirs[at as int]);
            assert(dirs.skip(at as int).drop_first() =~= dirs.skip(at + 1));
            at += 1;
        }
        proof {
            if at < self.dirs.len() {
                assert(dirs.skip(at as int)[0] == dirs[at as int]);
            }
        }
        at
    }

    fn slot_of_file(&self, name: &String, ix: usize) -> (at: usize)
        ensures
            at == file_slot(self.model().files, (name@, ix as int)),
            at <= self.files.len(),
    {
        let ghost files = self.model().files;
        let mut at: usize = 0;
        assert(files.skip(0) =~= files);
        while at < self.files.len() && (str_precedes(self.files[at].0.as_str(), name.as_str()) || (
        self.files[at].0 == *name && self.files[at].1 < ix))
            invariant
                files == self.model().files,
                at <= self.files.len(),
                file_slot(files, (name@, ix as int)) == at + file_slot(
                    files.skip(at as int),
                    (name@, ix as int),
                ),
            decreases self.files.len() - at,
        {
            assert(files.skip(at as int)[0] == files[at as int]);
            assert(files.skip(at as int).drop_first() =~= files.skip(at + 1));
            at += 1;
        }
        proof {
            if at < self.files.len() {
                assert(files.skip(at as int)[0] == files[at as int]);
            }
        }
        at
    }

    /// Adds a file under the directories from the `from`-th on.
    fn add_file(&mut self, dirs: &Vec<String>, from: usize, name: String, ix: usize)
        requires
            from <= dirs.len(),
        ensures
            final(self).model() == with_file(
                old(self).model(),
                string_views(dirs@).skip(from as int),
                (name@, ix as int),
            ),
        decreases dirs.len() - from,
    {
        let ghost before = self.model();
        let ghost chain = string_views(dirs@).skip(from as int);
        let ghost file = (name@, ix as int);
        if from == dirs.len() {
            let at = self.slot_of_file(&name, ix);
            self.files.insert(at, (name, ix));
            proof {
                assert(self.model().files =~= before.files.insert(at as int, file));
                assert(self.model().dirs =~= before.dirs);
            }
        } else {
            let at = self.slot_of_dir(&dirs[from]);
            assert(chain[0] == dirs@[from as int]@);
            if at == self.dirs.len() || self.dirs[at].0 != dirs[from] {
                self.dirs.insert(at, (dirs[from].clone(), DirNode::new()));
            }
            let ghost children = self.model().dirs;
            proof {
                assert(children =~= with_dir(before.dirs, chain[0]));
                assert(chain.drop_first() =~= string_views(dirs@).skip(from + 1));
            }
            let child = &mut self.dirs[at].1;
            child.add_file(dirs, from + 1, name, ix);
            proof {
                assert(self.model().dirs =~= with_file(before, chain, file).dirs);
                assert(self.model().files =~= before.files);
            }
        }
    }
}

/// Appends the entries of one directory.
fn push_dir(
    out: &mut Vec<TreeEntry>,
    name: &String,
    prefix: &str,
    node: &DirNode,
    depth: usize,
)
    requires
        depth + 1 + height(node.model()) <= usize::MAX,
    ensures
        entry_views(final(out)@) == entry_views(old(out)@) + dir_listing(
            name@,
            child_path(prefix@, name@),
            node.model(),
            depth as int,
        ),
    decreases node, 1int,
{
    proof {
        reveal_strlit("/");
        assert("/"@ =~= seq!['/']);
    }
    let mut label = name.clone();
    let mut path = String::new();
    if !prefix.is_empty() {
        path.append(prefix);
        path.append("/");
    }
    path.append(name.as_str());
    assert(path@ =~= child_path(prefix@, name@));
    let mut child: &DirNode = node;
    let ghost shown = dir_listing(name@, child_path(prefix@, name@), node.model(), depth as int);
    while child.files.len() == 0 && child.dirs.len() == 1
        invariant
            "/"@ == seq!['/'],
            shown == dir_listing(label@, path@, child.model(), depth as int),
            depth + 1 + height(child.model()) <= usize::MAX,
            child == node || decreases_to!(node => child),
        decreases child,
    {
        let (next_name, next) = &child.dirs[0];
        proof {
            assert(child.model().dirs[0] == (next_name@, next.model()));
            lemma_child_height(child.model().dirs, 0);
        }
        label.append("/");
        label.append(next_name.as_str());
        path.append("/");
        path.append(next_name.as_str());
        child = next;
    }
    let ghost before = entry_views(out@);
    let entry = TreeEntry { depth, name: label, kind: TreeEntryKind::Dir { path: path.clone() } };
    let ghost head = entry@;
    out.push(entry);
    assert(entry_views(out@) =~= before.push(head));
    push_content(out, child, path.as_str(), depth + 1);
    assert(entry_views(out@) =~= before + shown);
}

/// Appends the entries of a directory's content.
fn push_content(out: &mut Vec<TreeEntry>, node: &DirNode, prefix: &str, depth: usize)
    requires
        depth + height(node.model()) <= usize::MAX,
    ensures
        entry_views(final(out)@) == entry_views(old(out)@) + listing(
            node.model(),
            prefix@,
            depth as int,
        ),
    decreases node, 0int,
{
    let ghost before = entry_views(out@);
    let ghost dirs = node.model().dirs;
    assert(before + dirs_listing(dirs.take(0), prefix@, depth as int) =~= before);
    for i in 0..node.dirs.len()
        invariant
            dirs == node.model().dirs,
            depth + height(node.model()) <= usize::MAX,
            entry_views(out@) == before + dirs_listing(dirs.take(i as int), prefix@, depth as int),
    {
        let ghost shown = entry_views(out@);
        proof {
            assert(dirs[i as int] == (node.dirs@[i as int].0@, node.dirs@[i as int].1.model()));
            lemma_child_height(dirs, i as int);
        }
        push_dir(out, &node.dirs[i].0, prefix, &node.dirs[i].1, depth);
        proof {
            let next = dirs.take(i + 1);
            assert(next.drop_last() =~= dirs.take(i as int));
            assert(next[next.len() - 1] == dirs[i as int]);
            assert(entry_views(out@) =~= before + dirs_listing(next, prefix@, depth as int));
        }
    }
    assert(dirs.take(node.dirs.len() as int) =~= dirs);
    let ghost headed = entry_views(out@);
    let ghost files = node.model().files;
    let ghost listed = files_listing(files, depth as int);
    assert(headed + listed.take(0) =~= headed);
    for i in 0..node.files.len()
        invariant
            files == node.model().files,
            listed == files_listing(files, depth as int),
            entry_views(out@) == headed + listed.take(i as int),
    {
        let ghost shown = entry_views(out@);
        assert(files[i as int] == (node.files@[i as int].0@, node.files@[i as int].1 as int));
        let entry = TreeEntry {
            depth,
            name: node.files[i].0.clone(),
            kind: TreeEntryKind::File { file_ix: node.files[i].1 },
        };
        assert(entry@ == listed[i as int]);
        out.push(entry);
        proof {
            assert(entry_views(out@) =~= shown.push(listed[i as int]));
            assert(entry_views(out@) =~= headed + listed.take(i + 1));
        }
    }
    assert(listed.take(node.files.len() as int) =~= listed);
    assert(entry_views(out@) =~= before + listing(node.model(), prefix@, depth as int));
}

/// The tree of the files at `paths`, as a flat list.
pub fn build_tree(paths: &[&str]) -> (entries: Vec<TreeEntry>)
    ensures
        entry_views(entries@) == tree(str_views(paths@)),
{
    let mut root = DirNode::new();
    let ghost views = str_views(paths@);
    assert(height(empty_node()) == 0) by {
        assert(empty_node().dirs.len() == 0);
    }
    for file_ix in 0..paths.len()
        invariant
            views == str_views(paths@),
            root.model() == tree_node(views.take(file_ix as int)),
            height(root.model()) <= usize::MAX,
    {
        let (dirs, name) = split_path(paths[file_ix]);
        proof {
            let next = views.take(file_ix + 1);
            assert(next.drop_last() =~= views.take(file_ix as int));
            assert(next.last() == paths@[file_ix as int]@);
            assert(string_views(dirs@).skip(0) =~= string_views(dirs@));
            assert(string_views(dirs@).len() == dirs.len());
            lemma_with_file_height(
                root.model(),
                string_views(dirs@),
                (name@, file_ix as int),
                usize::MAX as nat,
            );
        }
        root.add_file(&dirs, 0, name, file_ix);
    }
    let mut entries: Vec<TreeEntry> = Vec::new();
    proof {
        reveal_strlit("");
        assert(""@ =~= seq![]);
        assert(views.take(paths.len() as int) =~= views);
    }
    push_content(&mut entries, &root, "", 0);
    assert(entry_views(entries@) =~= tree(views));
    entries
}

}
