//! The tree does not depend on the order of the paths.

use crate::text::precedes;
use crate::tree::{
    child_path, dir_listing, dir_slot, dirs_listing, dirs_of, empty_node, file_slot, files_listing,
    listing, name_of, parts, tree, tree_node, with_dir, with_file, EntryKindView, EntryView, Node,
};
use crate::tree_laws::{holds, names_ordered, node_ordered};
use crate::tree_paths::joined;
use vstd::prelude::*;

verus! {

/// Whether two entries show the same, each in the tree of its own list of paths: the
/// same directory, or files with the same path, under the same name at the same
/// depth.
pub open spec fn same_line(
    one: EntryView,
    paths1: Seq<Seq<char>>,
    two: EntryView,
    paths2: Seq<Seq<char>>,
) -> bool {
    &&& one.depth == two.depth
    &&& one.name == two.name
    &&& match (one.kind, two.kind) {
        (EntryKindView::Dir { path: p1 }, EntryKindView::Dir { path: p2 }) => p1 == p2,
        (EntryKindView::File { file_ix: i1 }, EntryKindView::File { file_ix: i2 }) => {
            &&& 0 <= i1 < paths1.len()
            &&& 0 <= i2 < paths2.len()
            &&& paths1[i1] == paths2[i2]
        },
        _ => false,
    }
}

/// Whether two lists of entries show the same, line by line.
pub open spec fn same_lines(
    one: Seq<EntryView>,
    paths1: Seq<Seq<char>>,
    two: Seq<EntryView>,
    paths2: Seq<Seq<char>>,
) -> bool {
    &&& one.len() == two.len()
    &&& forall|k: int|
        0 <= k < one.len() ==> #[trigger] same_line(one[k], paths1, two[k], paths2)
}

// --- How often a directory holds a name ------------------------------------

/// The names of files.
spec fn names(files: Seq<(Seq<char>, int)>) -> Seq<Seq<char>> {
    files.map_values(|file: (Seq<char>, int)| file.0)
}

/// How many files called `name` a directory holds under a chain of subdirectories.
spec fn name_count(node: Node, chain: Seq<Seq<char>>, name: Seq<char>) -> nat
    decreases node, 0int,
{
    if chain.len() == 0 {
        names(node.files).to_multiset().count(name)
    } else {
        dirs_name_count(node.dirs, chain, name)
    }
}

/// The same of a list of subdirectories.
spec fn dirs_name_count(
    dirs: Seq<(Seq<char>, Node)>,
    chain: Seq<Seq<char>>,
    name: Seq<char>,
) -> nat
    decreases dirs, 0int,
{
    if dirs.len() == 0 {
        0
    } else {
        dirs_name_count(dirs.drop_last(), chain, name) + if dirs[dirs.len() - 1].0 == chain[0] {
            name_count(dirs[dirs.len() - 1].1, chain.drop_first(), name)
        } else {
            0
        }
    }
}

spec fn share(dir: (Seq<char>, Node), chain: Seq<Seq<char>>, name: Seq<char>) -> nat {
    if dir.0 == chain[0] {
        name_count(dir.1, chain.drop_first(), name)
    } else {
        0
    }
}

proof fn lemma_dirs_insert(
    dirs: Seq<(Seq<char>, Node)>,
    at: int,
    dir: (Seq<char>, Node),
    chain: Seq<Seq<char>>,
    name: Seq<char>,
)
    requires
        0 <= at <= dirs.len(),
    ensures
        dirs_name_count(dirs.insert(at, dir), chain, name) == dirs_name_count(dirs, chain, name)
            + share(dir, chain, name),
    decreases dirs.len(),
{
    let after = dirs.insert(at, dir);
    if at == dirs.len() {
        assert(after.drop_last() =~= dirs);
    } else {
        assert(after.drop_last() =~= dirs.drop_last().insert(at, dir));
        assert(after[after.len() - 1] == dirs[dirs.len() - 1]);
        lemma_dirs_insert(dirs.drop_last(), at, dir, chain, name);
    }
}

proof fn lemma_dirs_update(
    dirs: Seq<(Seq<char>, Node)>,
    at: int,
    dir: (Seq<char>, Node),
    chain: Seq<Seq<char>>,
    name: Seq<char>,
)
    requires
        0 <= at < dirs.len(),
    ensures
        dirs_name_count(dirs.update(at, dir), chain, name) + share(dirs[at], chain, name)
            == dirs_name_count(dirs, chain, name) + share(dir, chain, name),
    decreases dirs.len(),
{
    let after = dirs.update(at, dir);
    if at == dirs.len() - 1 {
        assert(after.drop_last() =~= dirs.drop_last());
    } else {
        assert(after.drop_last() =~= dirs.drop_last().update(at, dir));
        assert(dirs.drop_last()[at] == dirs[at]);
        lemma_dirs_update(dirs.drop_last(), at, dir, chain, name);
    }
}

proof fn lemma_empty_name_count(chain: Seq<Seq<char>>, name: Seq<char>)
    ensures
        name_count(empty_node(), chain, name) == 0,
{
    broadcast use vstd::seq_lib::group_to_multiset_ensures;

    assert(names(empty_node().files) =~= seq![]);
    assert(!names(empty_node().files).contains(name));
    assert(empty_node().dirs.len() == 0);
    assert(dirs_name_count(empty_node().dirs, chain, name) == 0);
}

/// One more file adds one to the count of its name in its place.
proof fn lemma_with_file_name_count(
    node: Node,
    dirs: Seq<Seq<char>>,
    file: (Seq<char>, int),
    chain: Seq<Seq<char>>,
    name: Seq<char>,
)
    ensures
        name_count(with_file(node, dirs, file), chain, name) == name_count(node, chain, name)
            + if chain == dirs && name == file.0 {
            1nat
        } else {
            0nat
        },
    decreases dirs.len(),
{
    let after = with_file(node, dirs, file);
    if dirs.len() == 0 {
        let at = file_slot(node.files, file);
        crate::tree::lemma_file_slot(node.files, file);
        if chain.len() == 0 {
            assert(chain =~= dirs);
            assert(names(after.files) =~= names(node.files).insert(at, file.0));
            vstd::seq_lib::to_multiset_insert(names(node.files), at, file.0);
        } else {
            assert(after.dirs == node.dirs);
        }
    } else if chain.len() == 0 {
        assert(after.files == node.files);
    } else {
        let first = dirs[0];
        let at = dir_slot(node.dirs, first);
        let children = with_dir(node.dirs, first);
        let below = chain.drop_first();
        crate::tree::lemma_dir_slot(node.dirs, first);
        if !(at < node.dirs.len() && node.dirs[at].0 == first) {
            lemma_empty_name_count(below, name);
            lemma_dirs_insert(node.dirs, at, (first, empty_node()), chain, name);
        }
        let child = with_file(children[at].1, dirs.drop_first(), file);
        lemma_with_file_name_count(children[at].1, dirs.drop_first(), file, below, name);
        lemma_dirs_update(children, at, (first, child), chain, name);
        if chain[0] == first && below == dirs.drop_first() {
            assert(chain =~= seq![first] + below);
            assert(dirs =~= seq![first] + below);
        }
    }
}

/// How often the tree holds a name in a place is how often the path is listed.
proof fn lemma_tree_name_count(paths: Seq<Seq<char>>, chain: Seq<Seq<char>>, name: Seq<char>)
    ensures
        name_count(tree_node(paths), chain, name) == if parts(joined(chain.push(name)))
            == chain.push(name) {
            paths.to_multiset().count(joined(chain.push(name)))
        } else {
            0
        },
    decreases paths.len(),
{
    let path = joined(chain.push(name));
    if paths.len() == 0 {
        broadcast use vstd::seq_lib::group_to_multiset_ensures;

        lemma_empty_name_count(chain, name);
        assert(!paths.contains(path));
    } else {
        let fewer = paths.drop_last();
        let last = paths.last();
        lemma_tree_name_count(fewer, chain, name);
        lemma_with_file_name_count(
            tree_node(fewer),
            dirs_of(last),
            (name_of(last), paths.len() - 1),
            chain,
            name,
        );
        crate::tree_paths::joined_parts_are_the_path(last);
        vstd::seq_lib::to_multiset_build(fewer, last);
        assert(fewer.push(last) =~= paths);
        assert(chain == dirs_of(last) && name == name_of(last) <==> parts(last) == chain.push(
            name,
        )) by {
            if chain == dirs_of(last) && name == name_of(last) {
                assert(parts(last) =~= chain.push(name));
            }
            if parts(last) == chain.push(name) {
                assert(dirs_of(last) =~= chain);
            }
        }
    }
}

// --- No directory is empty -------------------------------------------------

/// Whether a directory has content.
pub open spec fn has_content(node: Node) -> bool {
    node.dirs.len() > 0 || node.files.len() > 0
}

/// Whether all directories in a directory have content.
pub open spec fn all_used(node: Node) -> bool
    decreases node,
{
    forall|i: int|
        0 <= i < node.dirs.len() ==> has_content((#[trigger] node.dirs[i]).1) && all_used(
            node.dirs[i].1,
        )
}

proof fn lemma_with_file_used(node: Node, dirs: Seq<Seq<char>>, file: (Seq<char>, int))
    requires
        all_used(node),
    ensures
        all_used(with_file(node, dirs, file)),
        has_content(with_file(node, dirs, file)),
    decreases dirs.len(),
{
    let after = with_file(node, dirs, file);
    if dirs.len() == 0 {
        crate::tree::lemma_file_slot(node.files, file);
        assert(after.dirs == node.dirs);
    } else {
        let at = dir_slot(node.dirs, dirs[0]);
        let children = with_dir(node.dirs, dirs[0]);
        let found = at < node.dirs.len() && node.dirs[at].0 == dirs[0];
        crate::tree::lemma_dir_slot(node.dirs, dirs[0]);
        assert(all_used(children[at].1)) by {
            if !found {
                assert(empty_node().dirs.len() == 0);
            }
        }
        lemma_with_file_used(children[at].1, dirs.drop_first(), file);
        assert forall|i: int| 0 <= i < after.dirs.len() implies has_content(
            (#[trigger] after.dirs[i]).1,
        ) && all_used(after.dirs[i].1) by {
            if i != at {
                assert(after.dirs[i] == children[i]);
                if !found && i > at {
                    assert(children[i] == node.dirs[i - 1]);
                } else {
                    assert(children[i] == node.dirs[i]);
                }
            }
        }
    }
}

/// No directory of the tree is empty.
pub proof fn no_directory_is_empty(paths: Seq<Seq<char>>)
    ensures
        all_used(tree_node(paths)),
    decreases paths.len(),
{
    if paths.len() == 0 {
        assert(empty_node().dirs.len() == 0);
    } else {
        no_directory_is_empty(paths.drop_last());
        lemma_with_file_used(
            tree_node(paths.drop_last()),
            dirs_of(paths.last()),
            (name_of(paths.last()), paths.len() - 1),
        );
    }
}

// --- Ordered content is determined by the counts ---------------------------

/// Among ordered subdirectories, the one with the name is the one that counts.
proof fn lemma_count_at(
    dirs: Seq<(Seq<char>, Node)>,
    i: int,
    chain: Seq<Seq<char>>,
    name: Seq<char>,
)
    requires
        names_ordered(dirs),
        0 <= i < dirs.len(),
        chain.len() > 0,
        dirs[i].0 == chain[0],
    ensures
        dirs_name_count(dirs, chain, name) == name_count(dirs[i].1, chain.drop_first(), name),
    decreases dirs.len(),
{
    let fewer = dirs.drop_last();
    if i == dirs.len() - 1 {
        assert forall|k: int| 0 <= k < fewer.len() implies (#[trigger] fewer[k]).0 != chain[0] by {
            assert(precedes(dirs[k].0, dirs[i].0));
            crate::text::precedes_irreflexive(chain[0]);
        }
        lemma_count_nowhere(fewer, chain, name);
    } else {
        assert(precedes(dirs[i].0, dirs[dirs.len() - 1].0));
        crate::text::precedes_irreflexive(chain[0]);
        lemma_count_at(fewer, i, chain, name);
    }
}

proof fn lemma_count_nowhere(
    dirs: Seq<(Seq<char>, Node)>,
    chain: Seq<Seq<char>>,
    name: Seq<char>,
)
    requires
        forall|k: int| 0 <= k < dirs.len() ==> (#[trigger] dirs[k]).0 != chain[0],
    ensures
        dirs_name_count(dirs, chain, name) == 0,
    decreases dirs.len(),
{
    if dirs.len() > 0 {
        assert forall|k: int| 0 <= k < dirs.drop_last().len() implies (
        #[trigger] dirs.drop_last()[k]).0 != chain[0] by {
            assert(dirs.drop_last()[k] == dirs[k]);
        }
        lemma_count_nowhere(dirs.drop_last(), chain, name);
    }
}

/// A directory with content holds some file somewhere.
proof fn lemma_some_name(node: Node) -> (place: (Seq<Seq<char>>, Seq<char>))
    requires
        node_ordered(node),
        all_used(node),
        has_content(node),
    ensures
        name_count(node, place.0, place.1) > 0,
    decreases node,
{
    if node.files.len() > 0 {
        broadcast use vstd::seq_lib::group_to_multiset_ensures;

        let none = Seq::<Seq<char>>::empty();
        assert(names(node.files)[0] == node.files[0].0);
        assert(names(node.files).contains(node.files[0].0));
        (none, node.files[0].0)
    } else {
        let dir = node.dirs[0];
        let place = lemma_some_name(dir.1);
        let chain = seq![dir.0] + place.0;
        assert(chain.drop_first() =~= place.0);
        lemma_count_at(node.dirs, 0, chain, place.1);
        (chain, place.1)
    }
}

spec fn not_after(a: Seq<char>, b: Seq<char>) -> bool {
    a == b || precedes(a, b)
}

/// Lists of names that are in order and hold each name equally often are equal.
proof fn lemma_ordered_names(a: Seq<Seq<char>>, b: Seq<Seq<char>>)
    requires
        forall|i: int, j: int|
            0 <= i < j < a.len() ==> not_after(#[trigger] a[i], #[trigger] a[j]),
        forall|i: int, j: int|
            0 <= i < j < b.len() ==> not_after(#[trigger] b[i], #[trigger] b[j]),
        forall|name: Seq<char>| #[trigger]
            a.to_multiset().count(name) == b.to_multiset().count(name),
    ensures
        a == b,
{
    let leq = |x: Seq<char>, y: Seq<char>| not_after(x, y);
    assert(a.to_multiset() =~= b.to_multiset());
    assert forall|x: Seq<char>, y: Seq<char>|
        #[trigger] leq(x, y) && #[trigger] leq(y, x) implies x == y by {
        if precedes(x, y) && precedes(y, x) {
            crate::text::precedes_transitive(x, y, x);
            crate::text::precedes_irreflexive(x);
        }
    }
    assert forall|x: Seq<char>, y: Seq<char>, z: Seq<char>|
        #[trigger] leq(x, y) && #[trigger] leq(y, z) implies leq(x, z) by {
        if precedes(x, y) && precedes(y, z) {
            crate::text::precedes_transitive(x, y, z);
        }
    }
    assert forall|x: Seq<char>, y: Seq<char>| #[trigger] leq(x, y) || leq(y, x) by {
        crate::text::precedes_total(x, y);
    }
    assert(vstd::relations::total_ordering(leq));
    assert(vstd::relations::sorted_by(a, leq));
    assert(vstd::relations::sorted_by(b, leq));
    vstd::seq_lib::lemma_sorted_unique(a, b, leq);
}

/// Whether two directories hold each name in each place equally often.
spec fn same_counts(a: Node, b: Node) -> bool {
    forall|chain: Seq<Seq<char>>, name: Seq<char>| #[trigger]
        name_count(a, chain, name) == name_count(b, chain, name)
}

/// The names of subdirectories.
spec fn dir_names(dirs: Seq<(Seq<char>, Node)>) -> Seq<Seq<char>> {
    dirs.map_values(|dir: (Seq<char>, Node)| dir.0)
}

proof fn lemma_same_files(a: Node, b: Node)
    requires
        node_ordered(a),
        node_ordered(b),
        same_counts(a, b),
    ensures
        names(a.files) == names(b.files),
{
    let none = Seq::<Seq<char>>::empty();
    assert forall|name: Seq<char>| #[trigger]
        names(a.files).to_multiset().count(name) == names(b.files).to_multiset().count(name) by {
        assert(name_count(a, none, name) == name_count(b, none, name));
    }
    lemma_files_in_order(a);
    lemma_files_in_order(b);
    lemma_ordered_names(names(a.files), names(b.files));
}

proof fn lemma_files_in_order(node: Node)
    requires
        node_ordered(node),
    ensures
        forall|i: int, j: int|
            0 <= i < j < names(node.files).len() ==> not_after(
                #[trigger] names(node.files)[i],
                #[trigger] names(node.files)[j],
            ),
{
    assert forall|i: int, j: int| 0 <= i < j < names(node.files).len() implies not_after(
        #[trigger] names(node.files)[i],
        #[trigger] names(node.files)[j],
    ) by {
        assert(crate::tree::file_precedes(node.files[i], node.files[j]));
    }
}

/// A subdirectory of `a` is one of `b` too.
proof fn lemma_has_dir(a: Node, b: Node, i: int)
    requires
        node_ordered(a),
        all_used(a),
        same_counts(a, b),
        0 <= i < a.dirs.len(),
    ensures
        dir_names(b.dirs).contains(a.dirs[i].0),
{
    let name = a.dirs[i].0;
    let place = lemma_some_name(a.dirs[i].1);
    let chain = seq![name] + place.0;
    assert(chain.drop_first() =~= place.0);
    lemma_count_at(a.dirs, i, chain, place.1);
    assert(name_count(a, chain, place.1) == name_count(b, chain, place.1));
    if !dir_names(b.dirs).contains(name) {
        assert forall|k: int| 0 <= k < b.dirs.len() implies (#[trigger] b.dirs[k]).0 != chain[0] by {
            assert(dir_names(b.dirs)[k] == b.dirs[k].0);
        }
        lemma_count_nowhere(b.dirs, chain, place.1);
    }
}

proof fn lemma_dir_names_in_order(dirs: Seq<(Seq<char>, Node)>)
    requires
        names_ordered(dirs),
    ensures
        dir_names(dirs).no_duplicates(),
        forall|i: int, j: int|
            0 <= i < j < dirs.len() ==> not_after(
                #[trigger] dir_names(dirs)[i],
                #[trigger] dir_names(dirs)[j],
            ),
{
    assert forall|i: int, j: int| 0 <= i < j < dirs.len() implies precedes(
        #[trigger] dir_names(dirs)[i],
        #[trigger] dir_names(dirs)[j],
    ) by {
        assert(precedes(dirs[i].0, dirs[j].0));
    }
    assert forall|i: int, j: int|
        0 <= i < dirs.len() && 0 <= j < dirs.len() && i != j implies dir_names(dirs)[i]
        != dir_names(dirs)[j] by {
        crate::text::precedes_irreflexive(dir_names(dirs)[i]);
    }
}

proof fn lemma_same_dirs(a: Node, b: Node)
    requires
        node_ordered(a),
        node_ordered(b),
        all_used(a),
        all_used(b),
        same_counts(a, b),
    ensures
        dir_names(a.dirs) == dir_names(b.dirs),
        forall|i: int|
            0 <= i < a.dirs.len() ==> same_counts((#[trigger] a.dirs[i]).1, b.dirs[i].1),
{
    broadcast use vstd::seq_lib::group_to_multiset_ensures;

    let (one, two) = (dir_names(a.dirs), dir_names(b.dirs));
    lemma_dir_names_in_order(a.dirs);
    lemma_dir_names_in_order(b.dirs);
    one.lemma_multiset_has_no_duplicates();
    two.lemma_multiset_has_no_duplicates();
    assert forall|name: Seq<char>| #[trigger]
        one.to_multiset().count(name) == two.to_multiset().count(name) by {
        if one.contains(name) {
            let i = choose|i: int| 0 <= i < one.len() && one[i] == name;
            lemma_has_dir(a, b, i);
        }
        if two.contains(name) {
            let i = choose|i: int| 0 <= i < two.len() && two[i] == name;
            lemma_has_dir(b, a, i);
        }
        assert(one.contains(name) == two.contains(name));
        if one.contains(name) {
            assert(one.to_multiset().contains(name));
            assert(two.to_multiset().contains(name));
        }
    }
    lemma_ordered_names(one, two);
    assert forall|i: int| 0 <= i < a.dirs.len() implies same_counts(
        (#[trigger] a.dirs[i]).1,
        b.dirs[i].1,
    ) by {
        assert(one[i] == two[i]);
        assert forall|chain: Seq<Seq<char>>, name: Seq<char>| #[trigger]
            name_count(a.dirs[i].1, chain, name) == name_count(b.dirs[i].1, chain, name) by {
            let longer = seq![a.dirs[i].0] + chain;
            assert(longer.drop_first() =~= chain);
            lemma_count_at(a.dirs, i, longer, name);
            lemma_count_at(b.dirs, i, longer, name);
            assert(name_count(a, longer, name) == name_count(b, longer, name));
        }
    }
}

// --- Equal counts make equal listings --------------------------------------

/// Whether the files of a directory are those that the paths put there, where the
/// directory lies under the chain `above`.
spec fn sits_at(node: Node, above: Seq<Seq<char>>, paths: Seq<Seq<char>>) -> bool {
    forall|chain: Seq<Seq<char>>, file: (Seq<char>, int)| #[trigger]
        holds(node, chain, file) ==> {
            &&& 0 <= file.1 < paths.len()
            &&& parts(paths[file.1]) == (above + chain).push(file.0)
        }
}

proof fn lemma_child_sits_at(node: Node, i: int, above: Seq<Seq<char>>, paths: Seq<Seq<char>>)
    requires
        sits_at(node, above, paths),
        0 <= i < node.dirs.len(),
    ensures
        sits_at(node.dirs[i].1, above.push(node.dirs[i].0), paths),
{
    let name = node.dirs[i].0;
    assert forall|chain: Seq<Seq<char>>, file: (Seq<char>, int)| #[trigger]
        holds(node.dirs[i].1, chain, file) implies {
        &&& 0 <= file.1 < paths.len()
        &&& parts(paths[file.1]) == (above.push(name) + chain).push(file.0)
    } by {
        let longer = seq![name] + chain;
        assert(longer.drop_first() =~= chain);
        assert(node.dirs[i].0 == longer[0] && holds(node.dirs[i].1, longer.drop_first(), file));
        assert(holds(node, longer, file));
        assert(above.push(name) + chain =~= above + longer);
    }
}

/// Whether two directories are to be listed alike.
spec fn alike(
    a: Node,
    paths1: Seq<Seq<char>>,
    b: Node,
    paths2: Seq<Seq<char>>,
    above: Seq<Seq<char>>,
) -> bool {
    &&& node_ordered(a) && all_used(a) && sits_at(a, above, paths1)
    &&& node_ordered(b) && all_used(b) && sits_at(b, above, paths2)
    &&& same_counts(a, b)
}

proof fn lemma_alike(
    a: Node,
    paths1: Seq<Seq<char>>,
    b: Node,
    paths2: Seq<Seq<char>>,
    above: Seq<Seq<char>>,
)
    requires
        alike(a, paths1, b, paths2, above),
    ensures
        names(a.files) == names(b.files),
        a.files.len() == b.files.len(),
        a.dirs.len() == b.dirs.len(),
        forall|i: int|
            0 <= i < a.dirs.len() ==> (#[trigger] a.dirs[i]).0 == b.dirs[i].0 && alike(
                a.dirs[i].1,
                paths1,
                b.dirs[i].1,
                paths2,
                above.push(a.dirs[i].0),
            ),
{
    lemma_same_files(a, b);
    lemma_same_dirs(a, b);
    assert(names(a.files).len() == names(b.files).len());
    assert(dir_names(a.dirs).len() == dir_names(b.dirs).len());
    assert forall|i: int| 0 <= i < a.dirs.len() implies (#[trigger] a.dirs[i]).0 == b.dirs[i].0
        && alike(a.dirs[i].1, paths1, b.dirs[i].1, paths2, above.push(a.dirs[i].0)) by {
        assert(dir_names(a.dirs)[i] == dir_names(b.dirs)[i]);
        lemma_child_sits_at(a, i, above, paths1);
        lemma_child_sits_at(b, i, above, paths2);
        assert(has_content(b.dirs[i].1));
    }
}

proof fn lemma_same_append(
    a1: Seq<EntryView>,
    a2: Seq<EntryView>,
    paths1: Seq<Seq<char>>,
    b1: Seq<EntryView>,
    b2: Seq<EntryView>,
    paths2: Seq<Seq<char>>,
)
    requires
        same_lines(a1, paths1, b1, paths2),
        same_lines(a2, paths1, b2, paths2),
    ensures
        same_lines(a1 + a2, paths1, b1 + b2, paths2),
{
    assert forall|k: int| 0 <= k < (a1 + a2).len() implies #[trigger] same_line(
        (a1 + a2)[k],
        paths1,
        (b1 + b2)[k],
        paths2,
    ) by {
        if k < a1.len() {
            assert(same_line(a1[k], paths1, b1[k], paths2));
        } else {
            assert(same_line(a2[k - a1.len()], paths1, b2[k - a1.len()], paths2));
        }
    }
}

proof fn lemma_same_file_lines(
    a: Node,
    paths1: Seq<Seq<char>>,
    b: Node,
    paths2: Seq<Seq<char>>,
    above: Seq<Seq<char>>,
    depth: int,
)
    requires
        alike(a, paths1, b, paths2, above),
    ensures
        same_lines(
            files_listing(a.files, depth),
            paths1,
            files_listing(b.files, depth),
            paths2,
        ),
{
    let (one, two) = (files_listing(a.files, depth), files_listing(b.files, depth));
    let none = Seq::<Seq<char>>::empty();
    lemma_alike(a, paths1, b, paths2, above);
    assert forall|k: int| 0 <= k < one.len() implies #[trigger] same_line(
        one[k],
        paths1,
        two[k],
        paths2,
    ) by {
        let (f, g) = (a.files[k], b.files[k]);
        assert(names(a.files)[k] == names(b.files)[k]);
        assert(a.files.contains(f) && b.files.contains(g));
        assert(holds(a, none, f) && holds(b, none, g));
        crate::tree_paths::joined_parts_are_the_path(paths1[f.1]);
        crate::tree_paths::joined_parts_are_the_path(paths2[g.1]);
    }
}

proof fn lemma_same_listing(
    a: Node,
    paths1: Seq<Seq<char>>,
    b: Node,
    paths2: Seq<Seq<char>>,
    above: Seq<Seq<char>>,
    prefix: Seq<char>,
    depth: int,
)
    requires
        alike(a, paths1, b, paths2, above),
    ensures
        same_lines(listing(a, prefix, depth), paths1, listing(b, prefix, depth), paths2),
    decreases a, 1int, 0int,
{
    lemma_alike(a, paths1, b, paths2, above);
    let count = a.dirs.len() as int;
    lemma_same_dir_lines(a, paths1, b, paths2, above, prefix, depth, count);
    assert(a.dirs.take(count) =~= a.dirs);
    assert(b.dirs.take(count) =~= b.dirs);
    lemma_same_file_lines(a, paths1, b, paths2, above, depth);
    lemma_same_append(
        dirs_listing(a.dirs, prefix, depth),
        files_listing(a.files, depth),
        paths1,
        dirs_listing(b.dirs, prefix, depth),
        files_listing(b.files, depth),
        paths2,
    );
}

proof fn lemma_same_dir_lines(
    a: Node,
    paths1: Seq<Seq<char>>,
    b: Node,
    paths2: Seq<Seq<char>>,
    above: Seq<Seq<char>>,
    prefix: Seq<char>,
    depth: int,
    n: int,
)
    requires
        alike(a, paths1, b, paths2, above),
        0 <= n <= a.dirs.len(),
        a.dirs.len() == b.dirs.len(),
    ensures
        same_lines(
            dirs_listing(a.dirs.take(n), prefix, depth),
            paths1,
            dirs_listing(b.dirs.take(n), prefix, depth),
            paths2,
        ),
    decreases a, 0int, n,
{
    if n > 0 {
        let last = n - 1;
        let name = a.dirs[last].0;
        let path = child_path(prefix, name);
        lemma_alike(a, paths1, b, paths2, above);
        lemma_same_dir_lines(a, paths1, b, paths2, above, prefix, depth, last);
        assert(a.dirs.take(n).drop_last() =~= a.dirs.take(last));
        assert(b.dirs.take(n).drop_last() =~= b.dirs.take(last));
        assert(a.dirs[last].0 == b.dirs[last].0);
        lemma_same_dir(
            name,
            path,
            a.dirs[last].1,
            paths1,
            b.dirs[last].1,
            paths2,
            above.push(name),
            depth,
        );
        lemma_same_append(
            dirs_listing(a.dirs.take(last), prefix, depth),
            dir_listing(name, path, a.dirs[last].1, depth),
            paths1,
            dirs_listing(b.dirs.take(last), prefix, depth),
            dir_listing(name, path, b.dirs[last].1, depth),
            paths2,
        );
    }
}

proof fn lemma_same_dir(
    label: Seq<char>,
    path: Seq<char>,
    a: Node,
    paths1: Seq<Seq<char>>,
    b: Node,
    paths2: Seq<Seq<char>>,
    above: Seq<Seq<char>>,
    depth: int,
)
    requires
        alike(a, paths1, b, paths2, above),
    ensures
        same_lines(
            dir_listing(label, path, a, depth),
            paths1,
            dir_listing(label, path, b, depth),
            paths2,
        ),
    decreases a, 2int, 0int,
{
    lemma_alike(a, paths1, b, paths2, above);
    if a.files.len() == 0 && a.dirs.len() == 1 {
        let name = a.dirs[0].0;
        assert(a.dirs[0].0 == b.dirs[0].0);
        lemma_same_dir(
            label + seq!['/'] + name,
            path + seq!['/'] + name,
            a.dirs[0].1,
            paths1,
            b.dirs[0].1,
            paths2,
            above.push(name),
            depth,
        );
    } else {
        let head = seq![EntryView { depth, name: label, kind: EntryKindView::Dir { path } }];
        lemma_same_listing(a, paths1, b, paths2, above, path, depth + 1);
        assert(same_lines(head, paths1, head, paths2));
        lemma_same_append(
            head,
            listing(a, path, depth + 1),
            paths1,
            head,
            listing(b, path, depth + 1),
            paths2,
        );
    }
}

proof fn lemma_tree_sits_at_top(paths: Seq<Seq<char>>)
    ensures
        sits_at(tree_node(paths), seq![], paths),
{
    let none = Seq::<Seq<char>>::empty();
    assert forall|chain: Seq<Seq<char>>, file: (Seq<char>, int)| #[trigger]
        holds(tree_node(paths), chain, file) implies {
        &&& 0 <= file.1 < paths.len()
        &&& parts(paths[file.1]) == (none + chain).push(file.0)
    } by {
        crate::tree_laws::tree_holds_the_paths(paths, chain, file);
        crate::tree_paths::joined_parts_are_the_path(paths[file.1]);
        assert(none + chain =~= chain);
        assert(parts(paths[file.1]) =~= chain.push(file.0));
    }
}

/// The tree does not depend on the order of the paths: the trees of a list of paths
/// and of a reordering of it show the same, line by line. Only the numbers by which
/// the files are known differ.
pub proof fn order_of_paths_does_not_matter(paths1: Seq<Seq<char>>, paths2: Seq<Seq<char>>)
    requires
        paths1.to_multiset() == paths2.to_multiset(),
    ensures
        same_lines(tree(paths1), paths1, tree(paths2), paths2),
{
    let (a, b) = (tree_node(paths1), tree_node(paths2));
    crate::tree_laws::tree_is_ordered(paths1);
    crate::tree_laws::tree_is_ordered(paths2);
    no_directory_is_empty(paths1);
    no_directory_is_empty(paths2);
    lemma_tree_sits_at_top(paths1);
    lemma_tree_sits_at_top(paths2);
    assert forall|chain: Seq<Seq<char>>, name: Seq<char>| #[trigger]
        name_count(a, chain, name) == name_count(b, chain, name) by {
        lemma_tree_name_count(paths1, chain, name);
        lemma_tree_name_count(paths2, chain, name);
    }
    lemma_same_listing(a, paths1, b, paths2, seq![], seq![], 0);
}

}
