//! The order of the entries of the tree.

use crate::text::precedes;
use crate::tree::{
    child_path, dir_listing, dirs_listing, entry_views, files_listing, listing, parts, tree,
    tree_node, EntryKindView, EntryView, Node, TreeEntry, TreeEntryKind,
};
use crate::tree_laws::{names_ordered, node_ordered};
use crate::tree_shape::slash_free;
use vstd::prelude::*;

verus! {

/// Whether two entries are listed in the same directory: at the same depth, with
/// nothing less deep between them.
pub open spec fn siblings(entries: Seq<EntryView>, i: int, j: int) -> bool {
    &&& 0 <= i < j < entries.len()
    &&& entries[i].depth == entries[j].depth
    &&& forall|k: int| i < k < j ==> entries[i].depth <= (#[trigger] entries[k]).depth
}

/// Whether no entry is less deep than `depth`, and no directory comes after a file
/// of the same directory.
spec fn dirs_first(entries: Seq<EntryView>, depth: int) -> bool {
    &&& forall|i: int| 0 <= i < entries.len() ==> (#[trigger] entries[i]).depth >= depth
    &&& forall|i: int, j: int| #[trigger]
        siblings(entries, i, j) && entries[j].kind is Dir ==> entries[i].kind is Dir
}

/// Whether the entries at `depth` are directories.
spec fn dirs_at(entries: Seq<EntryView>, depth: int) -> bool {
    forall|i: int|
        0 <= i < entries.len() && (#[trigger] entries[i]).depth == depth ==> entries[i].kind is Dir
}

proof fn lemma_dirs_first_append(a: Seq<EntryView>, b: Seq<EntryView>, depth: int)
    requires
        dirs_first(a, depth),
        dirs_first(b, depth),
        dirs_at(a, depth),
        b.len() > 0 ==> b[0].depth == depth,
    ensures
        dirs_first(a + b, depth),
{
    let all = a + b;
    let n = a.len() as int;
    assert forall|i: int, j: int| #[trigger]
        siblings(all, i, j) && all[j].kind is Dir implies all[i].kind is Dir by {
        if j < n {
            assert forall|k: int| i < k < j implies a[i].depth <= (#[trigger] a[k]).depth by {
                assert(all[k] == a[k]);
            }
            assert(siblings(a, i, j));
        } else if n <= i {
            assert forall|k: int| i - n < k < j - n implies b[i - n].depth <= (
            #[trigger] b[k]).depth by {
                assert(all[k + n] == b[k]);
            }
            assert(siblings(b, i - n, j - n));
        } else {
            assert(all[n] == b[0]);
            assert(a[i].depth == depth);
        }
    }
}

proof fn lemma_listing_dirs_first(node: Node, prefix: Seq<char>, depth: int)
    ensures
        dirs_first(listing(node, prefix, depth), depth),
    decreases node, 0int,
{
    let files = files_listing(node.files, depth);
    lemma_dirs_listing_first(node.dirs, prefix, depth);
    assert(dirs_first(files, depth));
    lemma_dirs_first_append(dirs_listing(node.dirs, prefix, depth), files, depth);
}

proof fn lemma_dirs_listing_first(dirs: Seq<(Seq<char>, Node)>, prefix: Seq<char>, depth: int)
    ensures
        dirs_first(dirs_listing(dirs, prefix, depth), depth),
        dirs_at(dirs_listing(dirs, prefix, depth), depth),
    decreases dirs, 0int,
{
    if dirs.len() > 0 {
        let (name, node) = dirs[dirs.len() - 1];
        let before = dirs_listing(dirs.drop_last(), prefix, depth);
        let last = dir_listing(name, child_path(prefix, name), node, depth);
        lemma_dirs_listing_first(dirs.drop_last(), prefix, depth);
        lemma_dir_listing_first(name, child_path(prefix, name), node, depth);
        lemma_dirs_first_append(before, last, depth);
    }
}

proof fn lemma_dir_listing_first(label: Seq<char>, path: Seq<char>, node: Node, depth: int)
    ensures
        dirs_first(dir_listing(label, path, node, depth), depth),
        dirs_at(dir_listing(label, path, node, depth), depth),
        dir_listing(label, path, node, depth)[0].depth == depth,
    decreases node, 1int,
{
    let entries = dir_listing(label, path, node, depth);
    if node.files.len() == 0 && node.dirs.len() == 1 {
        let (name, child) = node.dirs[0];
        lemma_dir_listing_first(
            label + seq!['/'] + name,
            path + seq!['/'] + name,
            child,
            depth,
        );
    } else {
        let content = listing(node, path, depth + 1);
        lemma_listing_dirs_first(node, path, depth + 1);
        assert forall|i: int| 0 < i < entries.len() implies (#[trigger] entries[i]).depth > depth by {
            assert(entries[i] == content[i - 1]);
        }
        assert forall|i: int, j: int| #[trigger]
            siblings(entries, i, j) && entries[j].kind is Dir implies entries[i].kind is Dir by {
            if i > 0 {
                assert forall|k: int| i - 1 < k < j - 1 implies content[i - 1].depth <= (
                #[trigger] content[k]).depth by {
                    assert(entries[k + 1] == content[k]);
                }
                assert(entries[i] == content[i - 1] && entries[j] == content[j - 1]);
                assert(siblings(content, i - 1, j - 1));
            }
        }
    }
}

/// In every directory, the subdirectories are listed before the files.
pub proof fn dirs_come_first(paths: Seq<Seq<char>>, i: int, j: int)
    requires
        siblings(tree(paths), i, j),
        tree(paths)[j].kind is Dir,
    ensures
        tree(paths)[i].kind is Dir,
{
    lemma_listing_dirs_first(tree_node(paths), seq![], 0);
}

// --- The order within a directory ------------------------------------------

proof fn lemma_one_part(part: Seq<char>)
    requires
        !part.contains('/'),
    ensures
        parts(part) == seq![part],
    decreases part.len(),
{
    if part.len() == 0 {
        assert(part =~= seq![]);
    } else {
        let shorter = part.drop_last();
        assert(part.contains(part.last()));
        assert forall|i: int| 0 <= i < shorter.len() implies shorter[i] != '/' by {
            assert(part.contains(part[i]));
        }
        lemma_one_part(shorter);
        assert(shorter.push(part.last()) =~= part);
        assert(parts(part) =~= seq![part]);
    }
}

/// Whether entry `i` comes before entry `j` of the same directory in the order of the
/// tree: files by name and then by index, directories by the first part of the name.
pub open spec fn comes_before(one: EntryView, two: EntryView) -> bool {
    match (one.kind, two.kind) {
        (EntryKindView::Dir { .. }, EntryKindView::Dir { .. }) => precedes(
            parts(one.name)[0],
            parts(two.name)[0],
        ),
        (EntryKindView::Dir { .. }, EntryKindView::File { .. }) => true,
        (EntryKindView::File { .. }, EntryKindView::Dir { .. }) => false,
        (EntryKindView::File { file_ix: a }, EntryKindView::File { file_ix: b }) => precedes(
            one.name,
            two.name,
        ) || (one.name == two.name && a < b),
    }
}

spec fn in_order(entries: Seq<EntryView>, depth: int) -> bool {
    &&& forall|i: int| 0 <= i < entries.len() ==> (#[trigger] entries[i]).depth >= depth
    &&& forall|i: int, j: int| #[trigger]
        siblings(entries, i, j) ==> comes_before(entries[i], entries[j])
}

proof fn lemma_in_order_append(a: Seq<EntryView>, b: Seq<EntryView>, depth: int)
    requires
        in_order(a, depth),
        in_order(b, depth),
        b.len() > 0 ==> b[0].depth == depth,
        forall|i: int, j: int|
            0 <= i < a.len() && 0 <= j < b.len() && (#[trigger] a[i]).depth == depth && (
            #[trigger] b[j]).depth == depth ==> comes_before(a[i], b[j]),
    ensures
        in_order(a + b, depth),
{
    let all = a + b;
    let n = a.len() as int;
    assert forall|i: int, j: int| #[trigger] siblings(all, i, j) implies comes_before(
        all[i],
        all[j],
    ) by {
        if j < n {
            assert forall|k: int| i < k < j implies a[i].depth <= (#[trigger] a[k]).depth by {
                assert(all[k] == a[k]);
            }
            assert(siblings(a, i, j));
        } else if n <= i {
            assert forall|k: int| i - n < k < j - n implies b[i - n].depth <= (
            #[trigger] b[k]).depth by {
                assert(all[k + n] == b[k]);
            }
            assert(siblings(b, i - n, j - n));
        } else {
            assert(all[n] == b[0]);
            assert(all[i] == a[i] && all[j] == b[j - n]);
            assert(a[i].depth == depth);
        }
    }
}

proof fn lemma_listing_in_order(node: Node, prefix: Seq<char>, depth: int)
    requires
        node_ordered(node),
        slash_free(node),
    ensures
        in_order(listing(node, prefix, depth), depth),
    decreases node, 0int,
{
    let inner = dirs_listing(node.dirs, prefix, depth);
    let files = files_listing(node.files, depth);
    lemma_dirs_in_order(node.dirs, prefix, depth);
    assert forall|i: int, j: int| #[trigger] siblings(files, i, j) implies comes_before(
        files[i],
        files[j],
    ) by {
        assert(crate::tree::file_precedes(node.files[i], node.files[j]));
    }
    assert(in_order(files, depth));
    lemma_in_order_append(inner, files, depth);
}

/// Whether the entries at `depth` are directories whose names start with the names of
/// the subdirectories.
spec fn heads_are_of(
    entries: Seq<EntryView>,
    dirs: Seq<(Seq<char>, Node)>,
    depth: int,
) -> bool {
    forall|i: int|
        0 <= i < entries.len() && (#[trigger] entries[i]).depth == depth ==> entries[i].kind is Dir
            && exists|d: int|
            0 <= d < dirs.len() && (#[trigger] dirs[d]).0 == parts(entries[i].name)[0]
}

proof fn lemma_dirs_in_order(dirs: Seq<(Seq<char>, Node)>, prefix: Seq<char>, depth: int)
    requires
        names_ordered(dirs),
        forall|i: int|
            0 <= i < dirs.len() ==> node_ordered((#[trigger] dirs[i]).1) && slash_free(dirs[i].1)
                && !dirs[i].0.contains('/'),
    ensures
        in_order(dirs_listing(dirs, prefix, depth), depth),
        heads_are_of(dirs_listing(dirs, prefix, depth), dirs, depth),
    decreases dirs, 0int,
{
    if dirs.len() > 0 {
        let fewer = dirs.drop_last();
        let last = dirs.len() - 1;
        let (name, node) = dirs[last];
        let path = child_path(prefix, name);
        let before = dirs_listing(fewer, prefix, depth);
        let after = dir_listing(name, path, node, depth);
        let all = dirs_listing(dirs, prefix, depth);
        assert(node_ordered(dirs[last].1));
        assert forall|i: int| 0 <= i < fewer.len() implies node_ordered(
            (#[trigger] fewer[i]).1,
        ) && slash_free(fewer[i].1) && !fewer[i].0.contains('/') by {
            assert(fewer[i] == dirs[i]);
        }
        lemma_dirs_in_order(fewer, prefix, depth);
        lemma_one_part(name);
        assert(parts(name)[0] == name);
        lemma_dir_in_order(name, path, node, depth);
        assert forall|i: int, j: int|
            0 <= i < before.len() && 0 <= j < after.len() && (#[trigger] before[i]).depth == depth
                && (#[trigger] after[j]).depth == depth implies comes_before(
            before[i],
            after[j],
        ) by {
            let d = choose|d: int|
                0 <= d < fewer.len() && (#[trigger] fewer[d]).0 == parts(before[i].name)[0];
            assert(fewer[d] == dirs[d]);
            assert(precedes(dirs[d].0, dirs[last].0));
        }
        lemma_in_order_append(before, after, depth);
        assert forall|i: int|
            0 <= i < all.len() && (#[trigger] all[i]).depth == depth implies all[i].kind is Dir
            && exists|d: int|
            0 <= d < dirs.len() && (#[trigger] dirs[d]).0 == parts(all[i].name)[0] by {
            if i < before.len() {
                assert(all[i] == before[i]);
                let d = choose|d: int|
                    0 <= d < fewer.len() && (#[trigger] fewer[d]).0 == parts(before[i].name)[0];
                assert(fewer[d] == dirs[d]);
            } else {
                assert(all[i] == after[i - before.len()]);
                assert(dirs[last].0 == name);
            }
        }
    }
}

proof fn lemma_dir_in_order(label: Seq<char>, path: Seq<char>, node: Node, depth: int)
    requires
        node_ordered(node),
        slash_free(node),
    ensures
        in_order(dir_listing(label, path, node, depth), depth),
        dir_listing(label, path, node, depth).len() > 0,
        dir_listing(label, path, node, depth)[0].depth == depth,
        forall|i: int|
            0 <= i < dir_listing(label, path, node, depth).len() && (#[trigger] dir_listing(
                label,
                path,
                node,
                depth,
            )[i]).depth == depth ==> dir_listing(label, path, node, depth)[i].kind is Dir && parts(
                dir_listing(label, path, node, depth)[i].name,
            )[0] == parts(label)[0],
    decreases node, 1int,
{
    let entries = dir_listing(label, path, node, depth);
    if node.files.len() == 0 && node.dirs.len() == 1 {
        let (name, child) = node.dirs[0];
        let longer = label + seq!['/'] + name;
        assert(node_ordered(node.dirs[0].1));
        lemma_dir_in_order(longer, path + seq!['/'] + name, child, depth);
        lemma_first_part_stays(label, name);
    } else {
        let content = listing(node, path, depth + 1);
        lemma_listing_in_order(node, path, depth + 1);
        assert forall|i: int| 0 < i < entries.len() implies (#[trigger] entries[i]).depth > depth by {
            assert(entries[i] == content[i - 1]);
        }
        assert forall|i: int, j: int| #[trigger] siblings(entries, i, j) implies comes_before(
            entries[i],
            entries[j],
        ) by {
            assert(i > 0);
            assert forall|k: int| i - 1 < k < j - 1 implies content[i - 1].depth <= (
            #[trigger] content[k]).depth by {
                assert(entries[k + 1] == content[k]);
            }
            assert(entries[i] == content[i - 1] && entries[j] == content[j - 1]);
            assert(siblings(content, i - 1, j - 1));
        }
    }
}

proof fn lemma_first_part_stays(label: Seq<char>, more: Seq<char>)
    ensures
        parts(label).len() >= 1,
        parts(label + seq!['/'] + more).len() >= 2,
        parts(label + seq!['/'] + more)[0] == parts(label)[0],
    decreases more.len(),
{
    crate::tree_paths::joined_parts_are_the_path(label);
    let all = label + seq!['/'] + more;
    if more.len() == 0 {
        assert(all.drop_last() =~= label);
    } else {
        lemma_first_part_stays(label, more.drop_last());
        assert(all.drop_last() =~= label + seq!['/'] + more.drop_last());
    }
}

/// Within a directory, entries are in order: directories before files, directories by
/// the first part of their name, files by name and files of the same name by index.
pub proof fn siblings_are_in_order(paths: Seq<Seq<char>>, i: int, j: int)
    requires
        siblings(tree(paths), i, j),
    ensures
        comes_before(tree(paths)[i], tree(paths)[j]),
{
    crate::tree_laws::tree_is_ordered(paths);
    crate::tree_shape::directory_names_hold_no_slash(paths);
    lemma_listing_in_order(tree_node(paths), seq![], 0);
}

/// The model of an entry of the tree holds its depth, its name, and the path of a
/// directory or the index of a file; the models of entries are those of the entries
/// one by one.
pub proof fn models_of_entries(entries: Seq<TreeEntry>, i: int)
    requires
        0 <= i < entries.len(),
    ensures
        entry_views(entries).len() == entries.len(),
        entry_views(entries)[i].depth == entries[i].depth,
        entry_views(entries)[i].name == entries[i].name@,
        entry_views(entries)[i].kind == (match entries[i].kind {
            TreeEntryKind::Dir { path } => EntryKindView::Dir { path: path@ },
            TreeEntryKind::File { file_ix } => EntryKindView::File { file_ix: file_ix as int },
        }),
{
}

}
