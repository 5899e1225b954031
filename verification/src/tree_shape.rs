//! How the directories of the tree are joined, and that their paths differ.

use crate::collapse::{is_dir_at, lies_inside};
use crate::text::precedes;
use crate::tree::{
    child_path, dir_listing, dir_slot, dirs_listing, dirs_of, empty_node, files_listing, listing,
    name_of, parts, tree, tree_node, with_dir, with_file, EntryView, Node,
};
use crate::tree_laws::{names_ordered, node_ordered};
use crate::tree_paths::{dir_path, is_parent};
use crate::tree_reorder::{all_used, has_content};
use vstd::prelude::*;

verus! {

// --- Directories are joined as far as they can be --------------------------

/// Whether a directory entry holds a file, or two entries or more, directly inside.
pub open spec fn is_filled(entries: Seq<EntryView>, i: int) -> bool {
    ||| exists|k: int| #[trigger] is_parent(entries, i, k) && entries[k].kind is File
    ||| exists|k: int, l: int|
        k != l && #[trigger] is_parent(entries, i, k) && #[trigger] is_parent(entries, i, l)
}

/// Whether this holds of all directory entries.
spec fn all_filled(entries: Seq<EntryView>) -> bool {
    forall|i: int|
        0 <= i < entries.len() && (#[trigger] entries[i]).kind is Dir ==> is_filled(entries, i)
}

/// What is filled in a part of a list is filled in the list.
proof fn lemma_filled_in_part(part: Seq<EntryView>, i: int, whole: Seq<EntryView>, shift: int)
    requires
        0 <= shift,
        shift + part.len() <= whole.len(),
        forall|k: int| 0 <= k < part.len() ==> whole[k + shift] == #[trigger] part[k],
        is_filled(part, i),
    ensures
        is_filled(whole, i + shift),
{
    assert forall|k: int| #[trigger] is_parent(part, i, k) implies is_parent(
        whole,
        i + shift,
        k + shift,
    ) && whole[k + shift] == part[k] by {
        assert(whole[i + shift] == part[i]);
        assert forall|m: int| i + shift < m <= k + shift implies whole[i + shift].depth < (
        #[trigger] whole[m]).depth by {
            assert(whole[(m - shift) + shift] == part[m - shift]);
        }
    }
    if exists|k: int| #[trigger] is_parent(part, i, k) && part[k].kind is File {
        let k = choose|k: int| #[trigger] is_parent(part, i, k) && part[k].kind is File;
        assert(is_parent(whole, i + shift, k + shift));
    } else {
        let (k, l) = choose|k: int, l: int|
            k != l && #[trigger] is_parent(part, i, k) && #[trigger] is_parent(part, i, l);
        assert(is_parent(whole, i + shift, k + shift));
        assert(is_parent(whole, i + shift, l + shift));
    }
}

proof fn lemma_filled_append(a: Seq<EntryView>, b: Seq<EntryView>)
    requires
        all_filled(a),
        all_filled(b),
    ensures
        all_filled(a + b),
{
    let all = a + b;
    assert forall|i: int| 0 <= i < all.len() && (#[trigger] all[i]).kind is Dir implies is_filled(
        all,
        i,
    ) by {
        if i < a.len() {
            assert(a[i].kind is Dir);
            lemma_filled_in_part(a, i, all, 0);
        } else {
            assert(b[i - a.len()].kind is Dir);
            lemma_filled_in_part(b, i - a.len(), all, a.len() as int);
        }
    }
}

/// Whether no entry is less deep than `depth`.
spec fn at_least(entries: Seq<EntryView>, depth: int) -> bool {
    forall|i: int| 0 <= i < entries.len() ==> (#[trigger] entries[i]).depth >= depth
}

proof fn lemma_listing_filled(node: Node, prefix: Seq<char>, depth: int)
    requires
        all_used(node),
    ensures
        all_filled(listing(node, prefix, depth)),
        at_least(listing(node, prefix, depth), depth),
    decreases node, 0int,
{
    lemma_dirs_filled(node.dirs, prefix, depth);
    lemma_filled_append(dirs_listing(node.dirs, prefix, depth), files_listing(node.files, depth));
}

proof fn lemma_dirs_filled(dirs: Seq<(Seq<char>, Node)>, prefix: Seq<char>, depth: int)
    requires
        forall|i: int|
            0 <= i < dirs.len() ==> has_content((#[trigger] dirs[i]).1) && all_used(dirs[i].1),
    ensures
        all_filled(dirs_listing(dirs, prefix, depth)),
        at_least(dirs_listing(dirs, prefix, depth), depth),
        dirs.len() > 0 ==> dirs_listing(dirs, prefix, depth).len() > 0 && dirs_listing(
            dirs,
            prefix,
            depth,
        )[0].depth == depth,
    decreases dirs, 0int,
{
    if dirs.len() > 0 {
        let (name, node) = dirs[dirs.len() - 1];
        let path = child_path(prefix, name);
        assert(has_content(dirs[dirs.len() - 1].1));
        assert forall|i: int| 0 <= i < dirs.drop_last().len() implies has_content(
            (#[trigger] dirs.drop_last()[i]).1,
        ) && all_used(dirs.drop_last()[i].1) by {
            assert(dirs.drop_last()[i] == dirs[i]);
        }
        lemma_dirs_filled(dirs.drop_last(), prefix, depth);
        lemma_dir_filled(name, path, node, depth);
        lemma_filled_append(
            dirs_listing(dirs.drop_last(), prefix, depth),
            dir_listing(name, path, node, depth),
        );
    }
}

proof fn lemma_dir_filled(label: Seq<char>, path: Seq<char>, node: Node, depth: int)
    requires
        all_used(node),
        has_content(node),
    ensures
        all_filled(dir_listing(label, path, node, depth)),
        at_least(dir_listing(label, path, node, depth), depth),
        dir_listing(label, path, node, depth).len() > 0,
        dir_listing(label, path, node, depth)[0].depth == depth,
    decreases node, 1int,
{
    let entries = dir_listing(label, path, node, depth);
    if node.files.len() == 0 && node.dirs.len() == 1 {
        let (name, child) = node.dirs[0];
        assert(has_content(node.dirs[0].1));
        lemma_dir_filled(label + seq!['/'] + name, path + seq!['/'] + name, child, depth);
    } else {
        let content = listing(node, path, depth + 1);
        let inner = dirs_listing(node.dirs, path, depth + 1);
        lemma_listing_filled(node, path, depth + 1);
        assert forall|k: int| 0 <= k < content.len() implies entries[k + 1] == #[trigger] content[k] by {}
        assert forall|k: int| 0 < k < entries.len() implies (#[trigger] entries[k]).depth > depth by {
            assert(entries[k] == content[k - 1]);
        }
        assert forall|k: int|
            0 <= k < content.len() && (#[trigger] content[k]).depth == depth + 1 implies is_parent(
            entries,
            0,
            k + 1,
        ) by {
            assert(entries[k + 1] == content[k]);
        }
        if node.files.len() > 0 {
            let k = inner.len() as int;
            assert(content[k] == files_listing(node.files, depth + 1)[0]);
            assert(is_parent(entries, 0, k + 1));
            assert(entries[k + 1].kind is File);
        } else {
            let last = node.dirs.len() - 1;
            let fewer = node.dirs.drop_last();
            assert forall|i: int| 0 <= i < fewer.len() implies has_content(
                (#[trigger] fewer[i]).1,
            ) && all_used(fewer[i].1) by {
                assert(fewer[i] == node.dirs[i]);
            }
            assert(has_content(node.dirs[last].1));
            lemma_dirs_filled(fewer, path, depth + 1);
            let (name, child) = node.dirs[last];
            lemma_dir_filled(name, child_path(path, name), child, depth + 1);
            let k = dirs_listing(fewer, path, depth + 1).len() as int;
            assert(content[0] == dirs_listing(fewer, path, depth + 1)[0]);
            assert(content[k] == dir_listing(name, child_path(path, name), child, depth + 1)[0]);
            assert(is_parent(entries, 0, 1));
            assert(is_parent(entries, 0, k + 1));
        }
        assert(is_filled(entries, 0));
        assert forall|i: int|
            0 <= i < entries.len() && (#[trigger] entries[i]).kind is Dir implies is_filled(
            entries,
            i,
        ) by {
            if i > 0 {
                assert(content[i - 1].kind is Dir);
                lemma_filled_in_part(content, i - 1, entries, 1);
            }
        }
    }
}

/// No directory could be joined any further: each directory entry holds a file, or
/// at least two entries, directly inside.
pub proof fn directories_are_joined(paths: Seq<Seq<char>>, i: int)
    requires
        0 <= i < tree(paths).len(),
        tree(paths)[i].kind is Dir,
    ensures
        is_filled(tree(paths), i),
{
    crate::tree_reorder::no_directory_is_empty(paths);
    lemma_listing_filled(tree_node(paths), seq![], 0);
}

// --- The paths of directories differ ---------------------------------------

/// Whether the names of all directories in a directory hold no slash.
pub open spec fn slash_free(node: Node) -> bool
    decreases node,
{
    forall|i: int|
        0 <= i < node.dirs.len() ==> !(#[trigger] node.dirs[i]).0.contains('/') && slash_free(
            node.dirs[i].1,
        )
}

proof fn lemma_with_file_slash_free(node: Node, dirs: Seq<Seq<char>>, file: (Seq<char>, int))
    requires
        slash_free(node),
        forall|k: int| 0 <= k < dirs.len() ==> !(#[trigger] dirs[k]).contains('/'),
    ensures
        slash_free(with_file(node, dirs, file)),
    decreases dirs.len(),
{
    let after = with_file(node, dirs, file);
    if dirs.len() == 0 {
        assert(after.dirs == node.dirs);
    } else {
        let at = dir_slot(node.dirs, dirs[0]);
        let children = with_dir(node.dirs, dirs[0]);
        let found = at < node.dirs.len() && node.dirs[at].0 == dirs[0];
        crate::tree::lemma_dir_slot(node.dirs, dirs[0]);
        assert(slash_free(children[at].1)) by {
            if !found {
                assert(empty_node().dirs.len() == 0);
            }
        }
        assert forall|k: int| 0 <= k < dirs.drop_first().len() implies !(
        #[trigger] dirs.drop_first()[k]).contains('/') by {
            assert(dirs.drop_first()[k] == dirs[k + 1]);
        }
        lemma_with_file_slash_free(children[at].1, dirs.drop_first(), file);
        assert forall|i: int| 0 <= i < after.dirs.len() implies !(
        #[trigger] after.dirs[i]).0.contains('/') && slash_free(after.dirs[i].1) by {
            if i != at {
                assert(after.dirs[i] == children[i]);
                if !found && i > at {
                    assert(children[i] == node.dirs[i - 1]);
                } else {
                    assert(children[i] == node.dirs[i]);
                }
            } else {
                assert(after.dirs[i].0 == dirs[0]);
            }
        }
    }
}

proof fn lemma_tree_slash_free(paths: Seq<Seq<char>>)
    ensures
        slash_free(tree_node(paths)),
    decreases paths.len(),
{
    if paths.len() == 0 {
        assert(empty_node().dirs.len() == 0);
    } else {
        let last = paths.last();
        lemma_tree_slash_free(paths.drop_last());
        crate::tree_paths::lemma_parts_hold_no_slash(last);
        crate::tree_paths::joined_parts_are_the_path(last);
        assert forall|k: int| 0 <= k < dirs_of(last).len() implies !(
        #[trigger] dirs_of(last)[k]).contains('/') by {
            assert(dirs_of(last)[k] == parts(last)[k]);
        }
        lemma_with_file_slash_free(
            tree_node(paths.drop_last()),
            dirs_of(last),
            (name_of(last), paths.len() - 1),
        );
    }
}

/// Whether `path` is that of a directory, or of one below it.
spec fn is_at_or_below(path: Seq<char>, dir: Seq<char>) -> bool {
    path == dir || dir.push('/').is_prefix_of(path)
}

/// Directories with different names in one directory share no path.
proof fn lemma_names_part_paths(prefix: Seq<char>, a: Seq<char>, b: Seq<char>, path: Seq<char>)
    requires
        !a.contains('/'),
        !b.contains('/'),
        a.len() <= b.len(),
        is_at_or_below(path, child_path(prefix, a)),
        is_at_or_below(path, child_path(prefix, b)),
    ensures
        a == b,
{
    let start: int = if prefix.len() == 0 {
        0
    } else {
        prefix.len() as int + 1
    };
    assert forall|k: int| 0 <= k < a.len() implies path[start + k] == a[k] by {
        assert(child_path(prefix, a)[start + k] == a[k]);
        assert(child_path(prefix, a).push('/')[start + k] == a[k]);
    }
    assert forall|k: int| 0 <= k < b.len() implies path[start + k] == b[k] by {
        assert(child_path(prefix, b)[start + k] == b[k]);
        assert(child_path(prefix, b).push('/')[start + k] == b[k]);
    }
    if a.len() < b.len() {
        let end: int = start + a.len();
        assert(child_path(prefix, a).len() == end);
        assert(child_path(prefix, b).len() == start + b.len());
        assert(path.len() > end);
        assert(child_path(prefix, a).push('/')[end] == '/');
        assert(path[end] == '/');
        assert(b[a.len() as int] == '/');
        assert(b.contains(b[a.len() as int]));
    } else {
        assert(a =~= b);
    }
}

/// Whether entry `k` is a directory with an empty path, and exactly one of the
/// entries `i` and `j` lies inside it.
pub open spec fn is_parted_by(entries: Seq<EntryView>, i: int, j: int, k: int) -> bool {
    &&& 0 <= k < entries.len()
    &&& is_dir_at(entries[k], Seq::<char>::empty())
    &&& lies_inside(entries, i, k) != lies_inside(entries, j, k)
}

/// Whether there is such a directory.
pub open spec fn are_parted(entries: Seq<EntryView>, i: int, j: int) -> bool {
    exists|k: int| #[trigger] is_parted_by(entries, i, j, k)
}

/// Whether directory entries with the same path are parted.
spec fn all_differ(entries: Seq<EntryView>) -> bool {
    forall|i: int, j: int|
        0 <= i < j < entries.len() && (#[trigger] entries[i]).kind is Dir && (
        #[trigger] entries[j]).kind is Dir && dir_path(entries[i]) == dir_path(entries[j])
            ==> are_parted(entries, i, j)
}

/// Whether no directory entry has an empty path.
spec fn none_empty(entries: Seq<EntryView>) -> bool {
    forall|i: int|
        0 <= i < entries.len() && (#[trigger] entries[i]).kind is Dir ==> dir_path(
            entries[i],
        ).len() > 0
}

/// Whether entry `i` lies inside no directory with an empty path.
spec fn is_outside(entries: Seq<EntryView>, i: int) -> bool {
    forall|k: int|
        0 <= k < entries.len() && #[trigger] is_dir_at(entries[k], Seq::<char>::empty())
            ==> !lies_inside(entries, i, k)
}

/// Whether `path` lies at or below one of the subdirectories.
spec fn is_in_one(path: Seq<char>, prefix: Seq<char>, dirs: Seq<(Seq<char>, Node)>) -> bool {
    exists|d: int|
        0 <= d < dirs.len() && is_at_or_below(path, child_path(prefix, (#[trigger] dirs[d]).0))
}

/// Whether each directory entry that lies inside no directory with an empty path
/// lies at or below one of the subdirectories.
spec fn all_in_one(
    entries: Seq<EntryView>,
    prefix: Seq<char>,
    dirs: Seq<(Seq<char>, Node)>,
) -> bool {
    forall|i: int|
        0 <= i < entries.len() && (#[trigger] entries[i]).kind is Dir && is_outside(entries, i)
            ==> is_in_one(dir_path(entries[i]), prefix, dirs)
}

/// Entries of a part of a list lie inside each other in the list as in the part.
proof fn lemma_inside_in_part(part: Seq<EntryView>, whole: Seq<EntryView>, shift: int)
    requires
        0 <= shift,
        shift + part.len() <= whole.len(),
        forall|k: int| 0 <= k < part.len() ==> whole[k + shift] == #[trigger] part[k],
    ensures
        forall|i: int, k: int|
            0 <= i < part.len() && 0 <= k < part.len() ==> #[trigger] lies_inside(part, i, k)
                == lies_inside(whole, i + shift, k + shift),
{
    assert forall|i: int, k: int|
        0 <= i < part.len() && 0 <= k < part.len() implies #[trigger] lies_inside(part, i, k)
        == lies_inside(whole, i + shift, k + shift) by {
        assert(whole[k + shift] == part[k]);
        if lies_inside(part, i, k) {
            assert forall|m: int| k + shift < m <= i + shift implies whole[k + shift].depth < (
            #[trigger] whole[m]).depth by {
                assert(whole[(m - shift) + shift] == part[m - shift]);
            }
        }
        if lies_inside(whole, i + shift, k + shift) {
            assert forall|m: int| k < m <= i implies part[k].depth < (#[trigger] part[m]).depth by {
                assert(whole[m + shift] == part[m]);
            }
        }
    }
}

/// What differs or is outside in a part of a list does so in the list.
proof fn lemma_differ_in_part(part: Seq<EntryView>, whole: Seq<EntryView>, shift: int)
    requires
        0 <= shift,
        shift + part.len() <= whole.len(),
        forall|k: int| 0 <= k < part.len() ==> whole[k + shift] == #[trigger] part[k],
        all_differ(part),
    ensures
        forall|i: int, j: int|
            0 <= i < j < part.len() && (#[trigger] part[i]).kind is Dir && (
            #[trigger] part[j]).kind is Dir && dir_path(part[i]) == dir_path(part[j])
                ==> are_parted(whole, i + shift, j + shift),
        forall|i: int|
            0 <= i < part.len() && is_outside(whole, i + shift) ==> #[trigger] is_outside(part, i),
{
    lemma_inside_in_part(part, whole, shift);
    assert forall|i: int, j: int|
        0 <= i < j < part.len() && (#[trigger] part[i]).kind is Dir && (
        #[trigger] part[j]).kind is Dir && dir_path(part[i]) == dir_path(
            part[j],
        ) implies are_parted(whole, i + shift, j + shift) by {
        let k = choose|k: int| #[trigger] is_parted_by(part, i, j, k);
        assert(whole[k + shift] == part[k]);
        assert(lies_inside(part, i, k) == lies_inside(whole, i + shift, k + shift));
        assert(lies_inside(part, j, k) == lies_inside(whole, j + shift, k + shift));
        assert(is_parted_by(whole, i + shift, j + shift, k + shift));
    }
    assert forall|i: int|
        0 <= i < part.len() && is_outside(whole, i + shift) implies #[trigger] is_outside(
        part,
        i,
    ) by {
        assert forall|k: int|
            0 <= k < part.len() && #[trigger] is_dir_at(
                part[k],
                Seq::<char>::empty(),
            ) implies !lies_inside(part, i, k) by {
            assert(is_dir_at(whole[k + shift], Seq::<char>::empty()));
        }
    }
}

/// Files behind the directories make no difference.
proof fn lemma_files_behind(
    inner: Seq<EntryView>,
    files: Seq<EntryView>,
    prefix: Seq<char>,
    dirs: Seq<(Seq<char>, Node)>,
)
    requires
        all_differ(inner),
        all_in_one(inner, prefix, dirs),
        forall|i: int| 0 <= i < files.len() ==> (#[trigger] files[i]).kind is File,
    ensures
        all_differ(inner + files),
        all_in_one(inner + files, prefix, dirs),
        none_empty(inner) ==> none_empty(inner + files),
{
    let entries = inner + files;
    assert forall|i: int| 0 <= i < inner.len() implies entries[i + 0] == #[trigger] inner[i] by {}
    lemma_differ_in_part(inner, entries, 0);
    assert forall|i: int|
        0 <= i < entries.len() && (#[trigger] entries[i]).kind is Dir && is_outside(
            entries,
            i,
        ) implies is_in_one(dir_path(entries[i]), prefix, dirs) by {
        if i >= inner.len() {
            assert(files[i - inner.len()].kind is File);
        }
        assert(is_outside(entries, i + 0));
        assert(is_outside(inner, i));
        assert(inner[i].kind is Dir);
    }
    assert forall|i: int, j: int|
        0 <= i < j < entries.len() && (#[trigger] entries[i]).kind is Dir && (
        #[trigger] entries[j]).kind is Dir && dir_path(entries[i]) == dir_path(
            entries[j],
        ) implies are_parted(entries, i, j) by {
        if j >= inner.len() {
            assert(files[j - inner.len()].kind is File);
        }
        assert(inner[i].kind is Dir && inner[j].kind is Dir);
        assert(are_parted(entries, i + 0, j + 0));
    }
    if none_empty(inner) {
        assert forall|i: int|
            0 <= i < entries.len() && (#[trigger] entries[i]).kind is Dir implies dir_path(
            entries[i],
        ).len() > 0 by {
            if i >= inner.len() {
                assert(files[i - inner.len()].kind is File);
            }
            assert(inner[i].kind is Dir);
        }
    }
}

proof fn lemma_listing_differs(node: Node, prefix: Seq<char>, depth: int)
    requires
        node_ordered(node),
        slash_free(node),
        all_used(node),
    ensures
        all_differ(listing(node, prefix, depth)),
        all_in_one(listing(node, prefix, depth), prefix, node.dirs),
        prefix.len() > 0 ==> none_empty(listing(node, prefix, depth)),
    decreases node, 0int,
{
    assert(are_sound(node.dirs));
    lemma_dirs_differ(node.dirs, prefix, depth);
    lemma_files_behind(
        dirs_listing(node.dirs, prefix, depth),
        files_listing(node.files, depth),
        prefix,
        node.dirs,
    );
}

/// Whether a list of subdirectories is ordered, with names that hold no slash and
/// without empty directories, all the way down.
spec fn are_sound(dirs: Seq<(Seq<char>, Node)>) -> bool {
    &&& names_ordered(dirs)
    &&& forall|i: int|
        0 <= i < dirs.len() ==> node_ordered((#[trigger] dirs[i]).1) && slash_free(dirs[i].1)
            && has_content(dirs[i].1) && all_used(dirs[i].1) && !dirs[i].0.contains('/')
}

proof fn lemma_dirs_differ(dirs: Seq<(Seq<char>, Node)>, prefix: Seq<char>, depth: int)
    requires
        are_sound(dirs),
    ensures
        all_differ(dirs_listing(dirs, prefix, depth)),
        all_in_one(dirs_listing(dirs, prefix, depth), prefix, dirs),
        prefix.len() > 0 ==> none_empty(dirs_listing(dirs, prefix, depth)),
    decreases dirs, 0int,
{
    if dirs.len() > 0 {
        let fewer = dirs.drop_last();
        let last = dirs.len() - 1;
        let (name, node) = dirs[last];
        let path = child_path(prefix, name);
        let before = dirs_listing(fewer, prefix, depth);
        let after = dir_listing(name, path, node, depth);
        let all = dirs_listing(dirs, prefix, depth);
        let n = before.len() as int;
        assert(all == before + after);
        assert(node_ordered(dirs[last].1) && has_content(dirs[last].1));
        assert forall|i: int| 0 <= i < fewer.len() implies fewer[i] == dirs[i] by {}
        assert(are_sound(fewer));
        lemma_dirs_differ(fewer, prefix, depth);
        lemma_dir_differs(name, path, node, depth);
        lemma_dirs_filled(fewer, prefix, depth);
        lemma_dir_filled(name, path, node, depth);
        assert forall|i: int| 0 <= i < before.len() implies all[i + 0] == #[trigger] before[i] by {}
        assert forall|i: int| 0 <= i < after.len() implies all[i + n] == #[trigger] after[i] by {}
        lemma_differ_in_part(before, all, 0);
        lemma_differ_in_part(after, all, n);
        assert forall|i: int|
            0 <= i < all.len() && (#[trigger] all[i]).kind is Dir && is_outside(
                all,
                i,
            ) implies is_in_one(dir_path(all[i]), prefix, dirs) by {
            if i < n {
                assert(is_outside(all, i + 0));
                assert(before[i].kind is Dir && is_outside(before, i));
                let d = choose|d: int|
                    0 <= d < fewer.len() && is_at_or_below(
                        dir_path(before[i]),
                        child_path(prefix, (#[trigger] fewer[d]).0),
                    );
                assert(dirs[d] == fewer[d]);
            } else {
                assert(is_outside(all, (i - n) + n));
                assert(after[i - n].kind is Dir && is_outside(after, i - n));
                assert(dirs[last].0 == name);
            }
        }
        assert forall|i: int, j: int|
            0 <= i < j < all.len() && (#[trigger] all[i]).kind is Dir && (
            #[trigger] all[j]).kind is Dir && dir_path(all[i]) == dir_path(
                all[j],
            ) implies are_parted(all, i, j) by {
            if j < n {
                assert(all[i] == before[i] && all[j] == before[j]);
                assert(are_parted(all, i + 0, j + 0));
            } else if i >= n {
                assert(all[i] == after[i - n] && all[j] == after[j - n]);
                assert(are_parted(all, (i - n) + n, (j - n) + n));
            } else {
                lemma_parts_differ(dirs, prefix, depth, i, j);
            }
        }
        if prefix.len() > 0 {
            assert forall|i: int|
                0 <= i < all.len() && (#[trigger] all[i]).kind is Dir implies dir_path(
                all[i],
            ).len() > 0 by {
                if i < n {
                    assert(all[i] == before[i]);
                } else {
                    assert(all[i] == after[i - n]);
                }
            }
        }
    }
}

/// An entry of one of the first subdirectories and one of the last.
proof fn lemma_parts_differ(
    dirs: Seq<(Seq<char>, Node)>,
    prefix: Seq<char>,
    depth: int,
    i: int,
    j: int,
)
    requires
        dirs.len() > 0,
        are_sound(dirs),
        all_in_one(dirs_listing(dirs.drop_last(), prefix, depth), prefix, dirs.drop_last()),
        all_differ(dirs_listing(dirs.drop_last(), prefix, depth)),
        at_least(dirs_listing(dirs.drop_last(), prefix, depth), depth),
        all_differ(
            dir_listing(
                dirs.last().0,
                child_path(prefix, dirs.last().0),
                dirs.last().1,
                depth,
            ),
        ),
        all_below_outside(
            dir_listing(dirs.last().0, child_path(prefix, dirs.last().0), dirs.last().1, depth),
            child_path(prefix, dirs.last().0),
        ),
        dir_listing(
            dirs.last().0,
            child_path(prefix, dirs.last().0),
            dirs.last().1,
            depth,
        )[0].depth == depth,
        0 <= i < dirs_listing(dirs.drop_last(), prefix, depth).len() <= j < dirs_listing(
            dirs,
            prefix,
            depth,
        ).len(),
        dirs_listing(dirs, prefix, depth)[i].kind is Dir,
        dirs_listing(dirs, prefix, depth)[j].kind is Dir,
        dir_path(dirs_listing(dirs, prefix, depth)[i]) == dir_path(
            dirs_listing(dirs, prefix, depth)[j],
        ),
    ensures
        are_parted(dirs_listing(dirs, prefix, depth), i, j),
{
    let fewer = dirs.drop_last();
    let last = dirs.len() - 1;
    let name = dirs[last].0;
    let before = dirs_listing(fewer, prefix, depth);
    let after = dir_listing(name, child_path(prefix, name), dirs[last].1, depth);
    let all = dirs_listing(dirs, prefix, depth);
    let n = before.len() as int;
    assert(all == before + after);
    assert(all[n] == after[0]);
    assert forall|k: int| 0 <= k < before.len() implies all[k + 0] == #[trigger] before[k] by {}
    assert forall|k: int| 0 <= k < after.len() implies all[k + n] == #[trigger] after[k] by {}
    assert forall|k: int| 0 <= k < n implies !lies_inside(all, j, k) by {
        if lies_inside(all, j, k) {
            assert(all[k].depth < all[n].depth);
            assert(all[k + 0] == before[k]);
        }
    }
    if !is_outside(all, i) {
        let k = choose|k: int|
            0 <= k < all.len() && #[trigger] is_dir_at(all[k], Seq::<char>::empty()) && lies_inside(
                all,
                i,
                k,
            );
        assert(is_parted_by(all, i, j, k));
    } else if !is_outside(all, j) {
        let k = choose|k: int|
            0 <= k < all.len() && #[trigger] is_dir_at(all[k], Seq::<char>::empty()) && lies_inside(
                all,
                j,
                k,
            );
        assert(k >= n);
        assert(is_parted_by(all, i, j, k));
    } else {
        lemma_differ_in_part(before, all, 0);
        lemma_differ_in_part(after, all, n);
        assert(is_outside(all, i + 0) && is_outside(all, (j - n) + n));
        assert(is_outside(before, i) && is_outside(after, j - n));
        assert(all[i + 0] == before[i] && all[(j - n) + n] == after[j - n]);
        let d = choose|d: int|
            0 <= d < fewer.len() && is_at_or_below(
                dir_path(before[i]),
                child_path(prefix, (#[trigger] fewer[d]).0),
            );
        assert(fewer[d] == dirs[d]);
        assert(precedes(dirs[d].0, dirs[last].0));
        crate::text::precedes_irreflexive(name);
        if dirs[d].0.len() <= name.len() {
            lemma_names_part_paths(prefix, dirs[d].0, name, dir_path(all[i]));
        } else {
            lemma_names_part_paths(prefix, name, dirs[d].0, dir_path(all[i]));
        }
    }
}

/// Whether each directory entry that lies inside no directory with an empty path
/// lies at or below `dir`.
spec fn all_below_outside(entries: Seq<EntryView>, dir: Seq<char>) -> bool {
    forall|i: int|
        0 <= i < entries.len() && (#[trigger] entries[i]).kind is Dir && is_outside(entries, i)
            ==> is_at_or_below(dir_path(entries[i]), dir)
}

proof fn lemma_dir_differs(label: Seq<char>, path: Seq<char>, node: Node, depth: int)
    requires
        node_ordered(node),
        slash_free(node),
        all_used(node),
        has_content(node),
    ensures
        all_differ(dir_listing(label, path, node, depth)),
        all_below_outside(dir_listing(label, path, node, depth), path),
        path.len() > 0 ==> none_empty(dir_listing(label, path, node, depth)),
    decreases node, 1int,
{
    let entries = dir_listing(label, path, node, depth);
    if node.files.len() == 0 && node.dirs.len() == 1 {
        let (name, child) = node.dirs[0];
        let longer = path + seq!['/'] + name;
        assert(node_ordered(node.dirs[0].1) && has_content(node.dirs[0].1));
        lemma_dir_differs(label + seq!['/'] + name, longer, child, depth);
        assert forall|i: int|
            0 <= i < entries.len() && (#[trigger] entries[i]).kind is Dir && is_outside(
                entries,
                i,
            ) implies is_at_or_below(dir_path(entries[i]), path) by {
            lemma_below_child(path, name, dir_path(entries[i]));
        }
    } else {
        let content = listing(node, path, depth + 1);
        lemma_listing_differs(node, path, depth + 1);
        lemma_listing_filled(node, path, depth + 1);
        assert(entries[0].kind is Dir);
        assert(dir_path(entries[0]) == path);
        assert forall|k: int| 0 <= k < content.len() implies entries[k + 1] == #[trigger] content[k] by {}
        lemma_differ_in_part(content, entries, 1);
        assert forall|i: int| 0 < i < entries.len() implies #[trigger] lies_inside(entries, i, 0) by {
            assert forall|m: int| 0 < m <= i implies entries[0].depth < (
            #[trigger] entries[m]).depth by {
                assert(entries[(m - 1) + 1] == content[m - 1]);
            }
        }
        if path.len() == 0 {
            assert(path =~= Seq::<char>::empty());
            assert(is_dir_at(entries[0], Seq::<char>::empty()));
        }
        assert forall|i: int|
            path.len() > 0 && 0 < i < entries.len() && (
            #[trigger] entries[i]).kind is Dir implies path.push('/').is_prefix_of(
            dir_path(entries[i]),
        ) by {
            assert(entries[(i - 1) + 1] == content[i - 1]);
            assert forall|k: int|
                0 <= k < content.len() && #[trigger] is_dir_at(
                    content[k],
                    Seq::<char>::empty(),
                ) implies !lies_inside(content, i - 1, k) by {
                assert(dir_path(content[k]).len() > 0);
            }
            assert(is_outside(content, i - 1));
            let d = choose|d: int|
                0 <= d < node.dirs.len() && is_at_or_below(
                    dir_path(content[i - 1]),
                    child_path(path, (#[trigger] node.dirs[d]).0),
                );
            lemma_below_child(path, node.dirs[d].0, dir_path(entries[i]));
        }
        assert forall|i: int, j: int|
            0 <= i < j < entries.len() && (#[trigger] entries[i]).kind is Dir && (
            #[trigger] entries[j]).kind is Dir && dir_path(entries[i]) == dir_path(
                entries[j],
            ) implies are_parted(entries, i, j) by {
            if i > 0 {
                assert(entries[(i - 1) + 1] == content[i - 1]);
                assert(entries[(j - 1) + 1] == content[j - 1]);
                assert(are_parted(entries, (i - 1) + 1, (j - 1) + 1));
            } else if path.len() == 0 {
                assert(lies_inside(entries, j, 0));
                assert(is_parted_by(entries, i, j, 0));
            } else {
                assert(path.push('/').len() <= dir_path(entries[j]).len());
            }
        }
        if path.len() > 0 {
            assert forall|i: int|
                0 <= i < entries.len() && (#[trigger] entries[i]).kind is Dir implies dir_path(
                entries[i],
            ).len() > 0 by {
                if i > 0 {
                    assert(path.push('/').len() <= dir_path(entries[i]).len());
                }
            }
        }
        assert forall|i: int|
            0 <= i < entries.len() && (#[trigger] entries[i]).kind is Dir && is_outside(
                entries,
                i,
            ) implies is_at_or_below(dir_path(entries[i]), path) by {
            if i > 0 && path.len() == 0 {
                assert(lies_inside(entries, i, 0));
            }
        }
    }
}

/// What lies at or below a subdirectory lies below the directory.
proof fn lemma_below_child(dir: Seq<char>, name: Seq<char>, path: Seq<char>)
    requires
        is_at_or_below(path, dir + seq!['/'] + name),
    ensures
        dir.push('/').is_prefix_of(path),
{
    let child = dir + seq!['/'] + name;
    let n = dir.len() + 1;
    assert(child.len() <= path.len());
    assert forall|k: int| 0 <= k < n implies path[k] == dir.push('/')[k] by {
        assert(child[k] == dir.push('/')[k]);
        assert(child.push('/')[k] == child[k]);
    }
    assert(dir.push('/') =~= path.take(n as int));
}

/// Two directory entries have different paths, unless exactly one of them lies
/// inside a directory with an empty path. Such a directory stands before a slash at
/// the start of a path, and what is inside it is shown without that slash: of "/x",
/// "/a/b" and "a/c" two directories are shown with the path "a".
pub proof fn directory_paths_differ(paths: Seq<Seq<char>>, i: int, j: int)
    requires
        0 <= i < j < tree(paths).len(),
        tree(paths)[i].kind is Dir,
        tree(paths)[j].kind is Dir,
        !are_parted(tree(paths), i, j),
    ensures
        dir_path(tree(paths)[i]) != dir_path(tree(paths)[j]),
{
    crate::tree_laws::tree_is_ordered(paths);
    crate::tree_reorder::no_directory_is_empty(paths);
    lemma_tree_slash_free(paths);
    lemma_listing_differs(tree_node(paths), seq![], 0);
}

/// The names of the directories of the tree hold no slash.
pub proof fn directory_names_hold_no_slash(paths: Seq<Seq<char>>)
    ensures
        slash_free(tree_node(paths)),
{
    lemma_tree_slash_free(paths);
}

}
