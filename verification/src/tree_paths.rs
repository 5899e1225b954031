//! The entries of the tree spell the paths of the files.

use crate::collapse::lies_inside;
use crate::tree::{
    child_path, dir_listing, dirs_listing, files_listing, listing, name_of, parts, tree, tree_node,
    EntryKindView, EntryView, Node,
};
use crate::tree_laws::holds;
use vstd::prelude::*;

verus! {

/// Whether entry `j` is the parent of entry `i`: the entry that it lies inside of,
/// one level up.
pub open spec fn is_parent(entries: Seq<EntryView>, j: int, i: int) -> bool {
    lies_inside(entries, i, j) && entries[j].depth + 1 == entries[i].depth
}

/// The path of a directory entry.
pub open spec fn dir_path(entry: EntryView) -> Seq<char> {
    match entry.kind {
        EntryKindView::Dir { path } => path,
        EntryKindView::File { .. } => seq![],
    }
}

/// `n` slashes.
pub open spec fn slashes(n: nat) -> Seq<char> {
    Seq::new(n, |i: int| '/')
}

/// Whether `shown` is `full`, except that slashes may be missing at its start.
pub open spec fn drops_slashes(full: Seq<char>, shown: Seq<char>) -> bool {
    exists|n: nat| full == #[trigger] slashes(n) + shown
}

/// Parts joined by slashes.
pub open spec fn joined(s: Seq<Seq<char>>) -> Seq<char>
    decreases s.len(),
{
    if s.len() == 0 {
        seq![]
    } else if s.len() == 1 {
        s[0]
    } else {
        joined(s.drop_last()) + seq!['/'] + s.last()
    }
}

/// The parts of a path, joined by slashes, are the path.
pub proof fn joined_parts_are_the_path(path: Seq<char>)
    ensures
        parts(path).len() >= 1,
        joined(parts(path)) == path,
    decreases path.len(),
{
    if path.len() == 0 {
        assert(joined(parts(path)) =~= path);
    } else {
        let shorter = path.drop_last();
        let before = parts(shorter);
        let all = parts(path);
        joined_parts_are_the_path(shorter);
        if path.last() == '/' {
            assert(all.drop_last() =~= before);
            assert(joined(all) =~= path);
        } else {
            assert(all.drop_last() =~= before.drop_last());
            assert(all.last() == before.last().push(path.last()));
            assert(path =~= shorter.push(path.last()));
            if before.len() == 1 {
                assert(all[0] == before[0].push(path.last()));
            } else {
                let head = joined(before.drop_last()) + seq!['/'];
                assert(head + before.last().push(path.last()) =~= (head + before.last()).push(
                    path.last(),
                ));
            }
        }
    }
}

proof fn lemma_joined_push(s: Seq<Seq<char>>, last: Seq<char>)
    ensures
        joined(s.push(last)) == if s.len() == 0 {
            last
        } else {
            joined(s) + seq!['/'] + last
        },
{
    assert(s.push(last).drop_last() =~= s);
}

spec fn file_placed(
    entries: Seq<EntryView>,
    i: int,
    above: Seq<Seq<char>>,
    below: Seq<Seq<char>>,
    depth: int,
) -> bool {
    &&& entries[i].depth == depth ==> below.len() == 0
    &&& forall|j: int| #[trigger]
        is_parent(entries, j, i) ==> (above + below).len() > 0 && drops_slashes(
            joined(above + below),
            dir_path(entries[j]),
        )
}

spec fn placed_at(
    entries: Seq<EntryView>,
    i: int,
    held: spec_fn(Seq<Seq<char>>, (Seq<char>, int)) -> bool,
    above: Seq<Seq<char>>,
    prefix: Seq<char>,
    depth: int,
) -> bool {
    let entry = entries[i];
    &&& entry.depth >= depth
    &&& entry.depth > depth ==> exists|j: int| #[trigger] is_parent(entries, j, i)
    &&& forall|j: int| #[trigger] is_parent(entries, j, i) ==> entries[j].kind is Dir
    &&& match entry.kind {
        EntryKindView::Dir { path } => {
            &&& entry.depth == depth ==> path == child_path(prefix, entry.name)
            &&& forall|j: int| #[trigger]
                is_parent(entries, j, i) ==> path == child_path(dir_path(entries[j]), entry.name)
        },
        EntryKindView::File { file_ix } => exists|below: Seq<Seq<char>>| #[trigger]
            held(below, (entry.name, file_ix)) && file_placed(entries, i, above, below, depth),
    }
}

/// Whether the entries are those of a directory: at `depth`, shown under `prefix`,
/// inside the directories `above`, with the files that `held` admits.
spec fn placed(
    entries: Seq<EntryView>,
    held: spec_fn(Seq<Seq<char>>, (Seq<char>, int)) -> bool,
    above: Seq<Seq<char>>,
    prefix: Seq<char>,
    depth: int,
) -> bool {
    forall|i: int|
        0 <= i < entries.len() ==> #[trigger] placed_at(entries, i, held, above, prefix, depth)
}

proof fn lemma_placed_append(
    a: Seq<EntryView>,
    b: Seq<EntryView>,
    held: spec_fn(Seq<Seq<char>>, (Seq<char>, int)) -> bool,
    above: Seq<Seq<char>>,
    prefix: Seq<char>,
    depth: int,
)
    requires
        placed(a, held, above, prefix, depth),
        placed(b, held, above, prefix, depth),
        b.len() > 0 ==> b[0].depth == depth,
    ensures
        placed(a + b, held, above, prefix, depth),
{
    let all = a + b;
    let n = a.len() as int;
    assert forall|i: int| 0 <= i < all.len() implies #[trigger] placed_at(
        all,
        i,
        held,
        above,
        prefix,
        depth,
    ) by {
        if i < n {
            assert(placed_at(a, i, held, above, prefix, depth));
            assert forall|j: int| #[trigger] is_parent(all, j, i) == is_parent(a, j, i) by {
                if is_parent(all, j, i) {
                    assert forall|k: int| j < k <= i implies a[j].depth < (#[trigger] a[k]).depth by {
                        assert(all[k] == a[k]);
                    }
                }
                if is_parent(a, j, i) {
                    assert forall|k: int| j < k <= i implies all[j].depth < (
                    #[trigger] all[k]).depth by {
                        assert(all[k] == a[k]);
                    }
                }
            }
            lemma_placed_same(a, i, all, i, 0, held, above, prefix, depth);
        } else {
            assert(placed_at(b, i - n, held, above, prefix, depth));
            assert(all[i] == b[i - n]);
            assert forall|j: int| #[trigger] is_parent(all, j, i) == is_parent(b, j - n, i - n) by {
                if is_parent(all, j, i) {
                    if j < n {
                        assert(placed_at(a, j, held, above, prefix, depth));
                        assert(all[n].depth == b[0].depth);
                    }
                    assert forall|k: int| j - n < k <= i - n implies b[j - n].depth < (
                    #[trigger] b[k]).depth by {
                        assert(all[k + n] == b[k]);
                    }
                }
                if is_parent(b, j - n, i - n) {
                    assert forall|k: int| j < k <= i implies all[j].depth < (
                    #[trigger] all[k]).depth by {
                        assert(all[k] == b[k - n]);
                    }
                }
            }
            lemma_placed_same(b, i - n, all, i, n, held, above, prefix, depth);
        }
    }
}

/// An entry is placed alike in two lists in which it has the same parents.
proof fn lemma_placed_same(
    a: Seq<EntryView>,
    i: int,
    b: Seq<EntryView>,
    at: int,
    shift: int,
    held: spec_fn(Seq<Seq<char>>, (Seq<char>, int)) -> bool,
    above: Seq<Seq<char>>,
    prefix: Seq<char>,
    depth: int,
)
    requires
        at == i + shift,
        0 <= i < a.len(),
        0 <= at < b.len(),
        a[i] == b[at],
        forall|j: int| #[trigger] is_parent(b, j, at) == is_parent(a, j - shift, i),
        forall|j: int| #[trigger] is_parent(b, j, at) ==> b[j] == a[j - shift],
        placed_at(a, i, held, above, prefix, depth),
    ensures
        placed_at(b, at, held, above, prefix, depth),
{
    if a[i].depth > depth {
        let j = choose|j: int| #[trigger] is_parent(a, j, i);
        assert(is_parent(b, j + shift, at));
    }
    if let EntryKindView::File { file_ix } = a[i].kind {
        let below = choose|below: Seq<Seq<char>>| #[trigger]
            held(below, (a[i].name, file_ix)) && file_placed(a, i, above, below, depth);
        assert(file_placed(b, at, above, below, depth));
        assert(held(below, (b[at].name, file_ix)));
    }
}

/// More may be held than is listed.
proof fn lemma_placed_weaken(
    entries: Seq<EntryView>,
    held: spec_fn(Seq<Seq<char>>, (Seq<char>, int)) -> bool,
    more: spec_fn(Seq<Seq<char>>, (Seq<char>, int)) -> bool,
    above: Seq<Seq<char>>,
    prefix: Seq<char>,
    depth: int,
)
    requires
        placed(entries, held, above, prefix, depth),
        forall|d: Seq<Seq<char>>, f: (Seq<char>, int)| #[trigger] held(d, f) ==> more(d, f),
    ensures
        placed(entries, more, above, prefix, depth),
{
    assert forall|i: int| 0 <= i < entries.len() implies #[trigger] placed_at(
        entries,
        i,
        more,
        above,
        prefix,
        depth,
    ) by {
        assert(placed_at(entries, i, held, above, prefix, depth));
        if let EntryKindView::File { file_ix } = entries[i].kind {
            let below = choose|below: Seq<Seq<char>>| #[trigger]
                held(below, (entries[i].name, file_ix)) && file_placed(
                    entries,
                    i,
                    above,
                    below,
                    depth,
                );
            assert(more(below, (entries[i].name, file_ix)));
        }
    }
}

/// What lies below the directory `name` lies, seen from outside it, below `name`.
proof fn lemma_placed_outside(
    entries: Seq<EntryView>,
    held: spec_fn(Seq<Seq<char>>, (Seq<char>, int)) -> bool,
    outside: spec_fn(Seq<Seq<char>>, (Seq<char>, int)) -> bool,
    above: Seq<Seq<char>>,
    name: Seq<char>,
    prefix: Seq<char>,
    depth: int,
)
    requires
        placed(entries, held, above.push(name), prefix, depth),
        forall|i: int|
            0 <= i < entries.len() && (#[trigger] entries[i]).kind is File ==> entries[i].depth
                > depth,
        forall|d: Seq<Seq<char>>, f: (Seq<char>, int)| #[trigger]
            held(d, f) ==> outside(seq![name] + d, f),
    ensures
        placed(entries, outside, above, prefix, depth),
{
    assert forall|i: int| 0 <= i < entries.len() implies #[trigger] placed_at(
        entries,
        i,
        outside,
        above,
        prefix,
        depth,
    ) by {
        assert(placed_at(entries, i, held, above.push(name), prefix, depth));
        if let EntryKindView::File { file_ix } = entries[i].kind {
            let below = choose|below: Seq<Seq<char>>| #[trigger]
                held(below, (entries[i].name, file_ix)) && file_placed(
                    entries,
                    i,
                    above.push(name),
                    below,
                    depth,
                );
            let longer = seq![name] + below;
            assert(outside(longer, (entries[i].name, file_ix)));
            assert(above.push(name) + below =~= above + longer);
            assert(file_placed(entries, i, above, longer, depth));
        }
    }
}

/// Whether `prefix` is what is shown for the directories `above`.
spec fn shown_as(above: Seq<Seq<char>>, prefix: Seq<char>) -> bool {
    if above.len() == 0 {
        prefix.len() == 0
    } else {
        drops_slashes(joined(above), prefix)
    }
}

proof fn lemma_child_shown_as(above: Seq<Seq<char>>, prefix: Seq<char>, name: Seq<char>)
    requires
        shown_as(above, prefix),
    ensures
        shown_as(above.push(name), child_path(prefix, name)),
{
    lemma_joined_push(above, name);
    let full = joined(above.push(name));
    if above.len() == 0 {
        assert(full =~= slashes(0) + name);
    } else {
        let n = choose|n: nat| joined(above) == #[trigger] slashes(n) + prefix;
        if prefix.len() == 0 {
            assert(full =~= slashes(n + 1) + name);
        } else {
            assert(full =~= slashes(n) + (prefix + seq!['/'] + name));
        }
    }
}

spec fn held_by(node: Node) -> spec_fn(Seq<Seq<char>>, (Seq<char>, int)) -> bool {
    |d: Seq<Seq<char>>, f: (Seq<char>, int)| holds(node, d, f)
}

proof fn lemma_holds_below(node: Node, i: int, d: Seq<Seq<char>>, f: (Seq<char>, int))
    requires
        0 <= i < node.dirs.len(),
        holds(node.dirs[i].1, d, f),
    ensures
        holds(node, seq![node.dirs[i].0] + d, f),
{
    let longer = seq![node.dirs[i].0] + d;
    assert(longer.drop_first() =~= d);
    assert(node.dirs[i].0 == longer[0] && holds(node.dirs[i].1, longer.drop_first(), f));
}

/// The files of a directory are placed.
proof fn lemma_files_placed(node: Node, above: Seq<Seq<char>>, prefix: Seq<char>, depth: int)
    ensures
        placed(files_listing(node.files, depth), held_by(node), above, prefix, depth),
{
    let entries = files_listing(node.files, depth);
    assert forall|i: int| 0 <= i < entries.len() implies #[trigger] placed_at(
        entries,
        i,
        held_by(node),
        above,
        prefix,
        depth,
    ) by {
        let file = node.files[i];
        let none = Seq::<Seq<char>>::empty();
        assert(entries[i].name == file.0);
        assert(node.files.contains((file.0, file.1)));
        assert(holds(node, none, (file.0, file.1)));
        assert(held_by(node)(none, (file.0, file.1)));
        assert forall|j: int| !#[trigger] is_parent(entries, j, i) by {}
        assert(file_placed(entries, i, above, none, depth));
    }
}

proof fn lemma_listing_placed(node: Node, above: Seq<Seq<char>>, prefix: Seq<char>, depth: int)
    requires
        shown_as(above, prefix),
    ensures
        placed(listing(node, prefix, depth), held_by(node), above, prefix, depth),
    decreases node, 0int,
{
    let only_dirs = Node { dirs: node.dirs, files: seq![] };
    lemma_dirs_placed(node.dirs, above, prefix, depth);
    assert forall|d: Seq<Seq<char>>, f: (Seq<char>, int)| #[trigger]
        held_by(only_dirs)(d, f) implies held_by(node)(d, f) by {
        if d.len() > 0 {
            let i = choose|i: int|
                0 <= i < only_dirs.dirs.len() && (#[trigger] only_dirs.dirs[i]).0 == d[0] && holds(
                    only_dirs.dirs[i].1,
                    d.drop_first(),
                    f,
                );
            assert(node.dirs[i].0 == d[0] && holds(node.dirs[i].1, d.drop_first(), f));
        }
    }
    lemma_placed_weaken(
        dirs_listing(node.dirs, prefix, depth),
        held_by(only_dirs),
        held_by(node),
        above,
        prefix,
        depth,
    );
    lemma_files_placed(node, above, prefix, depth);
    lemma_placed_append(
        dirs_listing(node.dirs, prefix, depth),
        files_listing(node.files, depth),
        held_by(node),
        above,
        prefix,
        depth,
    );
}

proof fn lemma_dirs_placed(
    dirs: Seq<(Seq<char>, Node)>,
    above: Seq<Seq<char>>,
    prefix: Seq<char>,
    depth: int,
)
    requires
        shown_as(above, prefix),
    ensures
        placed(
            dirs_listing(dirs, prefix, depth),
            held_by(Node { dirs, files: seq![] }),
            above,
            prefix,
            depth,
        ),
    decreases dirs, 0int,
{
    if dirs.len() > 0 {
        let fewer = dirs.drop_last();
        let last = dirs.len() - 1;
        let (name, node) = dirs[last];
        let whole = Node { dirs, files: seq![] };
        let part = Node { dirs: fewer, files: seq![] };
        let path = child_path(prefix, name);
        let before = dirs_listing(fewer, prefix, depth);
        let entries = dir_listing(name, path, node, depth);
        lemma_dirs_placed(fewer, above, prefix, depth);
        assert forall|d: Seq<Seq<char>>, f: (Seq<char>, int)| #[trigger]
            held_by(part)(d, f) implies held_by(whole)(d, f) by {
            if d.len() > 0 {
                let i = choose|i: int|
                    0 <= i < fewer.len() && (#[trigger] fewer[i]).0 == d[0] && holds(
                        fewer[i].1,
                        d.drop_first(),
                        f,
                    );
                assert(whole.dirs[i].0 == d[0] && holds(whole.dirs[i].1, d.drop_first(), f));
            }
        }
        lemma_placed_weaken(before, held_by(part), held_by(whole), above, prefix, depth);
        lemma_child_shown_as(above, prefix, name);
        lemma_dir_placed(name, path, node, above.push(name), prefix, depth);
        assert forall|d: Seq<Seq<char>>, f: (Seq<char>, int)| #[trigger]
            held_by(node)(d, f) implies held_by(whole)(seq![name] + d, f) by {
            lemma_holds_below(whole, last, d, f);
        }
        lemma_placed_outside(
            entries,
            held_by(node),
            held_by(whole),
            above,
            name,
            prefix,
            depth,
        );
        lemma_placed_append(before, entries, held_by(whole), above, prefix, depth);
    }
}

proof fn lemma_dir_placed(
    label: Seq<char>,
    path: Seq<char>,
    node: Node,
    above: Seq<Seq<char>>,
    prefix: Seq<char>,
    depth: int,
)
    requires
        above.len() > 0,
        shown_as(above, path),
        path == child_path(prefix, label),
    ensures
        placed(dir_listing(label, path, node, depth), held_by(node), above, prefix, depth),
        dir_listing(label, path, node, depth).len() > 0,
        dir_listing(label, path, node, depth)[0].depth == depth,
        forall|i: int|
            0 <= i < dir_listing(label, path, node, depth).len() && (#[trigger] dir_listing(
                label,
                path,
                node,
                depth,
            )[i]).kind is File ==> dir_listing(label, path, node, depth)[i].depth > depth,
    decreases node, 1int,
{
    let entries = dir_listing(label, path, node, depth);
    if node.files.len() == 0 && node.dirs.len() == 1 {
        let (name, child) = node.dirs[0];
        let longer_label = label + seq!['/'] + name;
        let longer_path = path + seq!['/'] + name;
        assert(longer_path =~= child_path(prefix, longer_label));
        lemma_joined_push(above, name);
        let n = choose|n: nat| joined(above) == #[trigger] slashes(n) + path;
        assert(joined(above.push(name)) =~= slashes(n) + longer_path);
        lemma_dir_placed(longer_label, longer_path, child, above.push(name), prefix, depth);
        assert forall|d: Seq<Seq<char>>, f: (Seq<char>, int)| #[trigger]
            held_by(child)(d, f) implies held_by(node)(seq![name] + d, f) by {
            lemma_holds_below(node, 0, d, f);
        }
        lemma_placed_outside(
            entries,
            held_by(child),
            held_by(node),
            above,
            name,
            prefix,
            depth,
        );
    } else {
        let content = listing(node, path, depth + 1);
        lemma_listing_placed(node, above, path, depth + 1);
        assert(entries.drop_first() =~= content);
        assert forall|i: int| 0 <= i < entries.len() implies #[trigger] placed_at(
            entries,
            i,
            held_by(node),
            above,
            prefix,
            depth,
        ) by {
            lemma_below_head(entries, content, i, held_by(node), above, path, prefix, depth);
        }
        assert forall|i: int|
            0 <= i < entries.len() && (#[trigger] entries[i]).kind is File implies entries[i].depth
            > depth by {
            assert(entries[i] == content[i - 1]);
            assert(placed_at(content, i - 1, held_by(node), above, path, depth + 1));
        }
    }
}

/// The content of a directory under the entry of the directory.
proof fn lemma_below_head(
    entries: Seq<EntryView>,
    content: Seq<EntryView>,
    i: int,
    held: spec_fn(Seq<Seq<char>>, (Seq<char>, int)) -> bool,
    above: Seq<Seq<char>>,
    path: Seq<char>,
    prefix: Seq<char>,
    depth: int,
)
    requires
        above.len() > 0,
        shown_as(above, path),
        entries.len() == content.len() + 1,
        entries.drop_first() == content,
        entries[0].depth == depth,
        entries[0].kind == (EntryKindView::Dir { path }),
        path == child_path(prefix, entries[0].name),
        placed(content, held, above, path, depth + 1),
        0 <= i < entries.len(),
    ensures
        placed_at(entries, i, held, above, prefix, depth),
{
    if i == 0 {
        assert forall|j: int| !#[trigger] is_parent(entries, j, i) by {}
    } else {
        assert forall|k: int| 0 < k < entries.len() implies (#[trigger] entries[k]) == content[k
            - 1] && entries[k].depth > depth by {
            assert(content[k - 1] == entries[k]);
            assert(placed_at(content, k - 1, held, above, path, depth + 1));
        }
        assert(placed_at(content, i - 1, held, above, path, depth + 1));
        let entry = entries[i];
        assert forall|j: int| j != 0 implies #[trigger] is_parent(entries, j, i) == is_parent(
            content,
            j - 1,
            i - 1,
        ) by {
            if is_parent(entries, j, i) {
                assert forall|k: int| j - 1 < k <= i - 1 implies content[j - 1].depth < (
                #[trigger] content[k]).depth by {
                    assert(entries[k + 1] == content[k]);
                }
            }
            if is_parent(content, j - 1, i - 1) {
                assert forall|k: int| j < k <= i implies entries[j].depth < (
                #[trigger] entries[k]).depth by {
                    assert(entries[k] == content[k - 1]);
                }
            }
        }
        assert(is_parent(entries, 0, i) == (entry.depth == depth + 1)) by {
            if entry.depth == depth + 1 {
                assert(lies_inside(entries, i, 0));
            }
        }
        if entry.depth > depth + 1 {
            let j = choose|j: int| #[trigger] is_parent(content, j, i - 1);
            assert(is_parent(entries, j + 1, i));
        } else {
            assert forall|j: int| j != 0 implies !#[trigger] is_parent(entries, j, i) by {
                if is_parent(entries, j, i) {
                    assert(entries[j].depth > depth);
                }
            }
        }
        assert forall|j: int| #[trigger] is_parent(entries, j, i) implies entries[j].kind is Dir by {
            if j != 0 {
                assert(is_parent(content, j - 1, i - 1));
                assert(entries[j] == content[j - 1]);
            }
        }
        match entry.kind {
            EntryKindView::Dir { path: own } => {
                assert forall|j: int| #[trigger] is_parent(entries, j, i) implies own
                    == child_path(dir_path(entries[j]), entry.name) by {
                    if j != 0 {
                        assert(is_parent(content, j - 1, i - 1));
                        assert(entries[j] == content[j - 1]);
                    }
                }
            },
            EntryKindView::File { file_ix } => {
                let below = choose|below: Seq<Seq<char>>| #[trigger]
                    held(below, (content[i - 1].name, file_ix)) && file_placed(
                        content,
                        i - 1,
                        above,
                        below,
                        depth + 1,
                    );
                assert forall|j: int| #[trigger] is_parent(entries, j, i) implies (above
                    + below).len() > 0 && drops_slashes(
                    joined(above + below),
                    dir_path(entries[j]),
                ) by {
                    if j != 0 {
                        assert(is_parent(content, j - 1, i - 1));
                        assert(entries[j] == content[j - 1]);
                    } else {
                        assert(below.len() == 0);
                        assert(above + below =~= above);
                    }
                }
                assert(file_placed(entries, i, above, below, depth));
                assert(held(below, (entry.name, file_ix)));
            },
        }
    }
}

/// The tree spells the paths. An entry that is not at the top has a parent, which
/// is a directory. A directory's path is its parent's path and its own name. A
/// file's path is its name at the top, and else its parent's path and its name;
/// only slashes at the very start of a path may be missing.
pub proof fn entries_spell_the_paths(paths: Seq<Seq<char>>, i: int)
    requires
        0 <= i < tree(paths).len(),
    ensures
        tree(paths)[i].depth >= 0,
        tree(paths)[i].depth > 0 ==> exists|j: int| #[trigger] is_parent(tree(paths), j, i),
        forall|j: int| #[trigger] is_parent(tree(paths), j, i) ==> tree(paths)[j].kind is Dir,
        match tree(paths)[i].kind {
            EntryKindView::Dir { path } => {
                &&& tree(paths)[i].depth == 0 ==> path == tree(paths)[i].name
                &&& forall|j: int| #[trigger]
                    is_parent(tree(paths), j, i) ==> path == child_path(
                        dir_path(tree(paths)[j]),
                        tree(paths)[i].name,
                    )
            },
            EntryKindView::File { file_ix } => {
                &&& 0 <= file_ix < paths.len()
                &&& tree(paths)[i].depth == 0 ==> paths[file_ix] == tree(paths)[i].name
                &&& forall|j: int| #[trigger]
                    is_parent(tree(paths), j, i) ==> {
                        let spelled = dir_path(tree(paths)[j]) + seq!['/'] + tree(paths)[i].name;
                        &&& drops_slashes(paths[file_ix], spelled)
                        &&& paths[file_ix].first() != '/' ==> paths[file_ix] == spelled
                    }
            },
        },
{
    let node = tree_node(paths);
    let entries = tree(paths);
    let none = Seq::<Seq<char>>::empty();
    let top = Seq::<char>::empty();
    assert(seq![] =~= top);
    lemma_listing_placed(node, none, top, 0);
    assert(placed_at(entries, i, held_by(node), none, top, 0));
    if let EntryKindView::File { file_ix } = entries[i].kind {
        let name = entries[i].name;
        let below = choose|below: Seq<Seq<char>>| #[trigger]
            held_by(node)(below, (name, file_ix)) && file_placed(entries, i, none, below, 0);
        crate::tree_laws::tree_holds_the_paths(paths, below, (name, file_ix));
        let path = paths[file_ix];
        joined_parts_are_the_path(path);
        assert(none + below =~= below);
        assert(parts(path) =~= below.push(name));
        lemma_joined_push(below, name);
        assert forall|j: int| #[trigger] is_parent(entries, j, i) implies ({
            let spelled = dir_path(entries[j]) + seq!['/'] + name;
            &&& drops_slashes(path, spelled)
            &&& path.first() != '/' ==> path == spelled
        }) by {
            let spelled = dir_path(entries[j]) + seq!['/'] + name;
            let n = choose|n: nat|
                joined(below) == #[trigger] slashes(n) + dir_path(entries[j]);
            assert(path =~= slashes(n) + spelled);
            if path.first() != '/' {
                if n > 0 {
                    assert(path[0] == slashes(n)[0]);
                }
                assert(path =~= spelled);
            }
        }
    }
}

/// The parts of a path hold no slash.
pub(crate) proof fn lemma_parts_hold_no_slash(path: Seq<char>)
    ensures
        forall|k: int| 0 <= k < parts(path).len() ==> !(#[trigger] parts(path)[k]).contains('/'),
    decreases path.len(),
{
    if path.len() > 0 {
        let before = parts(path.drop_last());
        let all = parts(path);
        lemma_parts_hold_no_slash(path.drop_last());
        joined_parts_are_the_path(path.drop_last());
        assert forall|k: int| 0 <= k < all.len() implies !(#[trigger] all[k]).contains('/') by {
            if k < before.len() - 1 || (k < before.len() && path.last() == '/') {
                assert(all[k] == before[k]);
            } else if path.last() != '/' {
                let last = before[before.len() - 1];
                assert(all[k] == last.push(path.last()));
                assert forall|i: int| 0 <= i < all[k].len() implies all[k][i] != '/' by {
                    if i < last.len() {
                        assert(last.contains(last[i]));
                    }
                }
            }
        }
    }
}

/// A file is listed under the name that its path gives, which holds no slash.
pub proof fn files_are_listed_by_name(paths: Seq<Seq<char>>, i: int)
    requires
        0 <= i < tree(paths).len(),
    ensures
        tree(paths)[i].kind matches EntryKindView::File { file_ix } ==> {
            &&& 0 <= file_ix < paths.len()
            &&& tree(paths)[i].name == name_of(paths[file_ix])
            &&& !tree(paths)[i].name.contains('/')
        },
{
    let node = tree_node(paths);
    let entries = tree(paths);
    let none = Seq::<Seq<char>>::empty();
    let top = Seq::<char>::empty();
    assert(seq![] =~= top);
    lemma_listing_placed(node, none, top, 0);
    assert(placed_at(entries, i, held_by(node), none, top, 0));
    if let EntryKindView::File { file_ix } = entries[i].kind {
        let name = entries[i].name;
        let below = choose|below: Seq<Seq<char>>| #[trigger]
            held_by(node)(below, (name, file_ix)) && file_placed(entries, i, none, below, 0);
        crate::tree_laws::tree_holds_the_paths(paths, below, (name, file_ix));
        joined_parts_are_the_path(paths[file_ix]);
        lemma_parts_hold_no_slash(paths[file_ix]);
    }
}

/// The directories of a path are the parts before its last slash, its name is what
/// comes after it.
pub proof fn a_path_is_its_directories_and_its_name(path: Seq<char>)
    ensures
        parts(path) == crate::tree::dirs_of(path).push(name_of(path)),
        !path.contains('/') ==> crate::tree::dirs_of(path).len() == 0 && name_of(path) == path,
        path.contains('/') ==> path == joined(crate::tree::dirs_of(path)) + seq!['/'] + name_of(
            path,
        ),
{
    let dirs = crate::tree::dirs_of(path);
    joined_parts_are_the_path(path);
    lemma_parts_hold_no_slash(path);
    assert(parts(path) =~= dirs.push(name_of(path)));
    lemma_joined_push(dirs, name_of(path));
    if dirs.len() == 0 {
        assert(parts(path)[0] == path);
    } else {
        let at = joined(dirs).len() as int;
        assert(path[at] == '/');
        assert(path.contains(path[at]));
    }
}

/// A directory entry at the top has its name as its path. Inside a directory, its
/// path is the path of that directory, a slash and its name; inside one with an empty
/// path, it is its name.
pub proof fn directory_paths_are_spelled_out(paths: Seq<Seq<char>>, j: int, i: int)
    requires
        0 <= i < tree(paths).len(),
        tree(paths)[i].kind is Dir,
    ensures
        tree(paths)[i].depth == 0 ==> tree(paths)[i].kind == (EntryKindView::Dir {
            path: tree(paths)[i].name,
        }),
        0 <= j < i && tree(paths)[j].depth + 1 == tree(paths)[i].depth && (forall|k: int|
            j < k <= i ==> tree(paths)[j].depth < (#[trigger] tree(paths)[k]).depth) ==> (tree(
            paths,
        )[j].kind matches EntryKindView::Dir { path: above } && tree(paths)[i].kind == (
        EntryKindView::Dir {
            path: if above.len() == 0 {
                tree(paths)[i].name
            } else {
                above + seq!['/'] + tree(paths)[i].name
            },
        })),
{
    entries_spell_the_paths(paths, i);
    let entries = tree(paths);
    if 0 <= j < i && entries[j].depth + 1 == entries[i].depth && (forall|k: int|
        j < k <= i ==> entries[j].depth < (#[trigger] entries[k]).depth) {
        assert(is_parent(entries, j, i));
    }
}

/// The parts of a path hold no slash, and joined by slashes they are the path: they
/// are the path split at its slashes.
pub proof fn parts_are_the_path_split_at_slashes(path: Seq<char>)
    ensures
        parts(path).len() >= 1,
        joined(parts(path)) == path,
        forall|k: int| 0 <= k < parts(path).len() ==> !(#[trigger] parts(path)[k]).contains('/'),
{
    joined_parts_are_the_path(path);
    lemma_parts_hold_no_slash(path);
}

/// Parts are joined with one slash between each two and are kept as they are.
pub proof fn parts_are_joined_by_slashes(a: Seq<Seq<char>>, b: Seq<Seq<char>>)
    ensures
        a.len() == 0 ==> joined(a) == Seq::<char>::empty(),
        a.len() == 1 ==> joined(a) == a[0],
        a.len() > 0 && b.len() > 0 ==> joined(a + b) == joined(a) + seq!['/'] + joined(b),
    decreases b.len(),
{
    if a.len() > 0 && b.len() > 0 {
        assert((a + b).drop_last() =~= a + b.drop_last());
        assert((a + b).last() == b.last());
        if b.len() == 1 {
            assert(a + b.drop_last() =~= a);
        } else {
            parts_are_joined_by_slashes(a, b.drop_last());
        }
        assert(joined(a + b) =~= joined(a) + seq!['/'] + joined(b));
    }
}

}
