//! What holds of the tree as a whole.

use crate::tree::{
    child_path, dir_listing, dir_slot, dirs_listing, dirs_of, empty_node, file_precedes, file_slot,
    files_listing, listing, name_of, tree, tree_node, with_dir, with_file, EntryKindView,
    EntryView, Node,
};
use crate::text::precedes;
use vstd::prelude::*;

verus! {

// --- Every file is listed once ---------------------------------------------

/// How many entries stand for the file with index `ix`.
pub open spec fn file_count(entries: Seq<EntryView>, ix: int) -> nat
    decreases entries.len(),
{
    if entries.len() == 0 {
        0
    } else {
        file_count(entries.drop_last(), ix) + if entries.last().kind == (EntryKindView::File {
            file_ix: ix,
        }) {
            1nat
        } else {
            0nat
        }
    }
}

spec fn named_count(files: Seq<(Seq<char>, int)>, ix: int) -> nat
    decreases files.len(),
{
    if files.len() == 0 {
        0
    } else {
        named_count(files.drop_last(), ix) + if files.last().1 == ix {
            1nat
        } else {
            0nat
        }
    }
}

spec fn node_count(node: Node, ix: int) -> nat
    decreases node, 0int,
{
    dirs_count(node.dirs, ix) + named_count(node.files, ix)
}

spec fn dirs_count(dirs: Seq<(Seq<char>, Node)>, ix: int) -> nat
    decreases dirs, 0int,
{
    if dirs.len() == 0 {
        0
    } else {
        dirs_count(dirs.drop_last(), ix) + node_count(dirs[dirs.len() - 1].1, ix)
    }
}

proof fn lemma_file_count_append(a: Seq<EntryView>, b: Seq<EntryView>, ix: int)
    ensures
        file_count(a + b, ix) == file_count(a, ix) + file_count(b, ix),
    decreases b.len(),
{
    if b.len() == 0 {
        assert(a + b =~= a);
    } else {
        assert((a + b).drop_last() =~= a + b.drop_last());
        lemma_file_count_append(a, b.drop_last(), ix);
    }
}

proof fn lemma_files_listing_count(files: Seq<(Seq<char>, int)>, depth: int, ix: int)
    ensures
        file_count(files_listing(files, depth), ix) == named_count(files, ix),
    decreases files.len(),
{
    if files.len() > 0 {
        assert(files_listing(files, depth).drop_last() =~= files_listing(files.drop_last(), depth));
        lemma_files_listing_count(files.drop_last(), depth, ix);
    }
}

proof fn lemma_listing_count(node: Node, prefix: Seq<char>, depth: int, ix: int)
    ensures
        file_count(listing(node, prefix, depth), ix) == node_count(node, ix),
    decreases node, 0int,
{
    lemma_dirs_listing_count(node.dirs, prefix, depth, ix);
    lemma_files_listing_count(node.files, depth, ix);
    lemma_file_count_append(
        dirs_listing(node.dirs, prefix, depth),
        files_listing(node.files, depth),
        ix,
    );
}

proof fn lemma_dirs_listing_count(
    dirs: Seq<(Seq<char>, Node)>,
    prefix: Seq<char>,
    depth: int,
    ix: int,
)
    ensures
        file_count(dirs_listing(dirs, prefix, depth), ix) == dirs_count(dirs, ix),
    decreases dirs, 0int,
{
    if dirs.len() > 0 {
        let (name, node) = dirs[dirs.len() - 1];
        let path = child_path(prefix, name);
        lemma_dirs_listing_count(dirs.drop_last(), prefix, depth, ix);
        lemma_dir_listing_count(name, path, node, depth, ix);
        lemma_file_count_append(
            dirs_listing(dirs.drop_last(), prefix, depth),
            dir_listing(name, path, node, depth),
            ix,
        );
    }
}

proof fn lemma_dir_listing_count(
    label: Seq<char>,
    path: Seq<char>,
    node: Node,
    depth: int,
    ix: int,
)
    ensures
        file_count(dir_listing(label, path, node, depth), ix) == node_count(node, ix),
    decreases node, 1int,
{
    if node.files.len() == 0 && node.dirs.len() == 1 {
        let (name, child) = node.dirs[0];
        lemma_dir_listing_count(
            label + seq!['/'] + name,
            path + seq!['/'] + name,
            child,
            depth,
            ix,
        );
        assert(dirs_count(node.dirs.drop_last(), ix) == 0) by {
            assert(node.dirs.drop_last().len() == 0);
        }
        assert(named_count(node.files, ix) == 0);
    } else {
        let head = seq![EntryView { depth, name: label, kind: EntryKindView::Dir { path } }];
        lemma_listing_count(node, path, depth + 1, ix);
        lemma_file_count_append(head, listing(node, path, depth + 1), ix);
        assert(file_count(head.drop_last(), ix) == 0);
        assert(file_count(head, ix) == 0);
    }
}

proof fn lemma_named_count_insert(
    files: Seq<(Seq<char>, int)>,
    at: int,
    file: (Seq<char>, int),
    ix: int,
)
    requires
        0 <= at <= files.len(),
    ensures
        named_count(files.insert(at, file), ix) == named_count(files, ix) + if file.1 == ix {
            1nat
        } else {
            0nat
        },
    decreases files.len(),
{
    let after = files.insert(at, file);
    if at == files.len() {
        assert(after.drop_last() =~= files);
    } else {
        assert(after.drop_last() =~= files.drop_last().insert(at, file));
        assert(after.last() == files.last());
        lemma_named_count_insert(files.drop_last(), at, file, ix);
    }
}

proof fn lemma_dirs_count_insert(
    dirs: Seq<(Seq<char>, Node)>,
    at: int,
    dir: (Seq<char>, Node),
    ix: int,
)
    requires
        0 <= at <= dirs.len(),
    ensures
        dirs_count(dirs.insert(at, dir), ix) == dirs_count(dirs, ix) + node_count(dir.1, ix),
    decreases dirs.len(),
{
    let after = dirs.insert(at, dir);
    if at == dirs.len() {
        assert(after.drop_last() =~= dirs);
    } else {
        assert(after.drop_last() =~= dirs.drop_last().insert(at, dir));
        assert(after[after.len() - 1] == dirs[dirs.len() - 1]);
        lemma_dirs_count_insert(dirs.drop_last(), at, dir, ix);
    }
}

proof fn lemma_dirs_count_update(
    dirs: Seq<(Seq<char>, Node)>,
    at: int,
    dir: (Seq<char>, Node),
    ix: int,
)
    requires
        0 <= at < dirs.len(),
    ensures
        dirs_count(dirs.update(at, dir), ix) + node_count(dirs[at].1, ix) == dirs_count(dirs, ix)
            + node_count(dir.1, ix),
    decreases dirs.len(),
{
    let after = dirs.update(at, dir);
    if at == dirs.len() - 1 {
        assert(after.drop_last() =~= dirs.drop_last());
    } else {
        assert(after.drop_last() =~= dirs.drop_last().update(at, dir));
        lemma_dirs_count_update(dirs.drop_last(), at, dir, ix);
    }
}

proof fn lemma_empty_count(ix: int)
    ensures
        node_count(empty_node(), ix) == 0,
{
    assert(empty_node().dirs.len() == 0);
    assert(dirs_count(empty_node().dirs, ix) == 0);
    assert(named_count(empty_node().files, ix) == 0);
}

proof fn lemma_with_file_count(node: Node, dirs: Seq<Seq<char>>, file: (Seq<char>, int), ix: int)
    ensures
        node_count(with_file(node, dirs, file), ix) == node_count(node, ix) + if file.1 == ix {
            1nat
        } else {
            0nat
        },
    decreases dirs.len(),
{
    if dirs.len() == 0 {
        crate::tree::lemma_file_slot(node.files, file);
        lemma_named_count_insert(node.files, file_slot(node.files, file), file, ix);
    } else {
        let at = dir_slot(node.dirs, dirs[0]);
        let children = with_dir(node.dirs, dirs[0]);
        crate::tree::lemma_dir_slot(node.dirs, dirs[0]);
        if !(at < node.dirs.len() && node.dirs[at].0 == dirs[0]) {
            lemma_empty_count(ix);
            lemma_dirs_count_insert(node.dirs, at, (dirs[0], empty_node()), ix);
        }
        let child = with_file(children[at].1, dirs.drop_first(), file);
        lemma_with_file_count(children[at].1, dirs.drop_first(), file, ix);
        lemma_dirs_count_update(children, at, (dirs[0], child), ix);
    }
}

proof fn lemma_tree_node_count(paths: Seq<Seq<char>>, ix: int)
    ensures
        node_count(tree_node(paths), ix) == if 0 <= ix < paths.len() {
            1nat
        } else {
            0nat
        },
    decreases paths.len(),
{
    if paths.len() == 0 {
        lemma_empty_count(ix);
    } else {
        lemma_tree_node_count(paths.drop_last(), ix);
        lemma_with_file_count(
            tree_node(paths.drop_last()),
            dirs_of(paths.last()),
            (name_of(paths.last()), paths.len() - 1),
            ix,
        );
    }
}

/// The tree lists every file exactly once, and no other.
pub proof fn each_file_is_listed_once(paths: Seq<Seq<char>>, ix: int)
    ensures
        file_count(tree(paths), ix) == if 0 <= ix < paths.len() {
            1nat
        } else {
            0nat
        },
{
    lemma_tree_node_count(paths, ix);
    lemma_listing_count(tree_node(paths), seq![], 0, ix);
}

// --- Directories hold what the paths say -----------------------------------

/// Whether a directory holds a file under a chain of subdirectories.
pub open spec fn holds(node: Node, dirs: Seq<Seq<char>>, file: (Seq<char>, int)) -> bool
    decreases dirs.len(),
{
    if dirs.len() == 0 {
        node.files.contains(file)
    } else {
        exists|i: int|
            0 <= i < node.dirs.len() && (#[trigger] node.dirs[i]).0 == dirs[0] && holds(
                node.dirs[i].1,
                dirs.drop_first(),
                file,
            )
    }
}

proof fn lemma_empty_holds(dirs: Seq<Seq<char>>, file: (Seq<char>, int))
    ensures
        !holds(empty_node(), dirs, file),
{
}

/// What a directory holds with one more file: that file, and what it held before.
proof fn lemma_with_file_holds(
    node: Node,
    chain: Seq<Seq<char>>,
    added: (Seq<char>, int),
    dirs: Seq<Seq<char>>,
    file: (Seq<char>, int),
)
    ensures
        holds(with_file(node, chain, added), dirs, file) <==> holds(node, dirs, file) || (dirs
            == chain && file == added),
    decreases chain.len(),
{
    let after = with_file(node, chain, added);
    if chain.len() == 0 {
        let at = file_slot(node.files, added);
        crate::tree::lemma_file_slot(node.files, added);
        if dirs.len() == 0 {
            assert(dirs =~= chain);
            assert(after.files == node.files.insert(at, added));
            assert(after.files[at] == added);
            if node.files.contains(file) {
                let i = choose|i: int| 0 <= i < node.files.len() && node.files[i] == file;
                if i < at {
                    assert(after.files[i] == file);
                } else {
                    assert(after.files[i + 1] == file);
                }
            }
            if after.files.contains(file) && file != added {
                let i = choose|i: int| 0 <= i < after.files.len() && after.files[i] == file;
                if i < at {
                    assert(node.files[i] == file);
                } else {
                    assert(node.files[i - 1] == file);
                }
            }
        } else {
            assert(after.dirs == node.dirs);
        }
    } else if dirs.len() > 0 {
        let first = chain[0];
        let rest = chain.drop_first();
        let below = dirs.drop_first();
        let at = dir_slot(node.dirs, first);
        let children = with_dir(node.dirs, first);
        crate::tree::lemma_dir_slot(node.dirs, first);
        let found = at < node.dirs.len() && node.dirs[at].0 == first;
        let child = children[at].1;
        lemma_with_file_holds(child, rest, added, below, file);
        lemma_empty_holds(below, file);
        assert(after.dirs == children.update(at, (first, with_file(child, rest, added))));
        if dirs == chain {
            assert(below == rest);
        }
        if dirs[0] == first && below == rest {
            assert(dirs =~= seq![first] + rest);
            assert(chain =~= seq![first] + rest);
        }
        // What was held before is still held.
        if holds(node, dirs, file) {
            let i = choose|i: int|
                0 <= i < node.dirs.len() && (#[trigger] node.dirs[i]).0 == dirs[0] && holds(
                    node.dirs[i].1,
                    below,
                    file,
                );
            if found || i < at {
                assert(after.dirs[i].0 == dirs[0] && holds(after.dirs[i].1, below, file));
            } else {
                assert(after.dirs[i + 1] == node.dirs[i]);
            }
        }
        if dirs == chain && file == added {
            assert(after.dirs[at].0 == dirs[0] && holds(after.dirs[at].1, below, file));
        }
        // What is held now was held before, or is the added file.
        if holds(after, dirs, file) {
            let i = choose|i: int|
                0 <= i < after.dirs.len() && (#[trigger] after.dirs[i]).0 == dirs[0] && holds(
                    after.dirs[i].1,
                    below,
                    file,
                );
            if i == at {
                if holds(child, below, file) {
                    assert(found);
                    assert(node.dirs[at].0 == dirs[0] && holds(node.dirs[at].1, below, file));
                }
            } else if found || i < at {
                assert(node.dirs[i] == after.dirs[i]);
            } else {
                assert(node.dirs[i - 1] == after.dirs[i]);
            }
        }
    } else {
        assert(after.files == node.files);
    }
}

/// The tree holds each file under the directories and the name that its path
/// gives, and holds nothing else.
pub proof fn tree_holds_the_paths(paths: Seq<Seq<char>>, dirs: Seq<Seq<char>>, file: (Seq<char>, int))
    ensures
        holds(tree_node(paths), dirs, file) <==> {
            &&& 0 <= file.1 < paths.len()
            &&& dirs == dirs_of(paths[file.1])
            &&& file.0 == name_of(paths[file.1])
        },
    decreases paths.len(),
{
    if paths.len() == 0 {
        lemma_empty_holds(dirs, file);
    } else {
        let fewer = paths.drop_last();
        let added = (name_of(paths.last()), paths.len() - 1);
        tree_holds_the_paths(fewer, dirs, file);
        lemma_with_file_holds(tree_node(fewer), dirs_of(paths.last()), added, dirs, file);
        if 0 <= file.1 < fewer.len() {
            assert(fewer[file.1] == paths[file.1]);
        }
    }
}

// --- Order -----------------------------------------------------------------

/// Whether the files of a directory are in strictly ascending order.
pub open spec fn files_ordered(files: Seq<(Seq<char>, int)>) -> bool {
    forall|i: int, j: int|
        0 <= i < j < files.len() ==> file_precedes(#[trigger] files[i], #[trigger] files[j])
}

/// Whether the names of subdirectories are in strictly ascending order.
pub open spec fn names_ordered(dirs: Seq<(Seq<char>, Node)>) -> bool {
    forall|i: int, j: int|
        0 <= i < j < dirs.len() ==> precedes((#[trigger] dirs[i]).0, (#[trigger] dirs[j]).0)
}

/// Whether the content of a directory, and of all directories in it, is ordered:
/// subdirectories by name, files by name and index.
pub open spec fn node_ordered(node: Node) -> bool
    decreases node,
{
    &&& names_ordered(node.dirs)
    &&& files_ordered(node.files)
    &&& forall|i: int| 0 <= i < node.dirs.len() ==> node_ordered((#[trigger] node.dirs[i]).1)
}

proof fn lemma_file_precedes_transitive(
    a: (Seq<char>, int),
    b: (Seq<char>, int),
    c: (Seq<char>, int),
)
    requires
        file_precedes(a, b),
        file_precedes(b, c),
    ensures
        file_precedes(a, c),
{
    if precedes(a.0, b.0) && precedes(b.0, c.0) {
        crate::text::precedes_transitive(a.0, b.0, c.0);
    }
}

proof fn lemma_file_slot_splits(files: Seq<(Seq<char>, int)>, file: (Seq<char>, int))
    requires
        files_ordered(files),
    ensures
        forall|i: int|
            0 <= i < file_slot(files, file) ==> file_precedes(#[trigger] files[i], file),
        forall|i: int|
            file_slot(files, file) <= i < files.len() ==> !file_precedes(#[trigger] files[i], file),
    decreases files.len(),
{
    if files.len() > 0 {
        let rest = files.drop_first();
        crate::tree::lemma_file_slot(files, file);
        crate::tree::lemma_file_slot(rest, file);
        if file_precedes(files[0], file) {
            assert forall|i: int, j: int| 0 <= i < j < rest.len() implies file_precedes(
                #[trigger] rest[i],
                #[trigger] rest[j],
            ) by {
                assert(rest[i] == files[i + 1] && rest[j] == files[j + 1]);
            }
            lemma_file_slot_splits(rest, file);
            assert forall|i: int| 0 <= i < files.len() implies (file_precedes(
                #[trigger] files[i],
                file,
            ) <==> i < file_slot(files, file)) by {
                if i > 0 {
                    assert(files[i] == rest[i - 1]);
                }
            }
        } else {
            assert forall|i: int| 0 <= i < files.len() implies !file_precedes(
                #[trigger] files[i],
                file,
            ) by {
                if i > 0 && file_precedes(files[i], file) {
                    assert(file_precedes(files[0], files[i]));
                    lemma_file_precedes_transitive(files[0], files[i], file);
                }
            }
        }
    }
}

proof fn lemma_dir_slot_splits(dirs: Seq<(Seq<char>, Node)>, name: Seq<char>)
    requires
        names_ordered(dirs),
    ensures
        forall|i: int| 0 <= i < dir_slot(dirs, name) ==> precedes((#[trigger] dirs[i]).0, name),
        forall|i: int|
            dir_slot(dirs, name) <= i < dirs.len() ==> !precedes((#[trigger] dirs[i]).0, name),
    decreases dirs.len(),
{
    if dirs.len() > 0 {
        let rest = dirs.drop_first();
        crate::tree::lemma_dir_slot(dirs, name);
        crate::tree::lemma_dir_slot(rest, name);
        if precedes(dirs[0].0, name) {
            assert forall|i: int, j: int| 0 <= i < j < rest.len() implies precedes(
                (#[trigger] rest[i]).0,
                (#[trigger] rest[j]).0,
            ) by {
                assert(rest[i] == dirs[i + 1] && rest[j] == dirs[j + 1]);
            }
            lemma_dir_slot_splits(rest, name);
            assert forall|i: int| 0 <= i < dirs.len() implies (precedes(
                (#[trigger] dirs[i]).0,
                name,
            ) <==> i < dir_slot(dirs, name)) by {
                if i > 0 {
                    assert(dirs[i] == rest[i - 1]);
                }
            }
        } else {
            assert forall|i: int| 0 <= i < dirs.len() implies !precedes(
                (#[trigger] dirs[i]).0,
                name,
            ) by {
                if i > 0 && precedes(dirs[i].0, name) {
                    assert(precedes(dirs[0].0, dirs[i].0));
                    crate::text::precedes_transitive(dirs[0].0, dirs[i].0, name);
                }
            }
        }
    }
}

/// A new file keeps a directory ordered.
proof fn lemma_with_file_ordered(node: Node, dirs: Seq<Seq<char>>, file: (Seq<char>, int))
    requires
        node_ordered(node),
        forall|d: Seq<Seq<char>>, f: (Seq<char>, int)| #[trigger] holds(node, d, f) ==> f.1 != file.1,
    ensures
        node_ordered(with_file(node, dirs, file)),
    decreases dirs.len(),
{
    let after = with_file(node, dirs, file);
    if dirs.len() == 0 {
        let at = file_slot(node.files, file);
        crate::tree::lemma_file_slot(node.files, file);
        lemma_file_slot_splits(node.files, file);
        assert forall|i: int| at <= i < node.files.len() implies file_precedes(
            file,
            #[trigger] node.files[i],
        ) by {
            assert(holds(node, seq![], node.files[i]));
            crate::text::precedes_total(node.files[i].0, file.0);
        }
        assert forall|i: int, j: int| 0 <= i < j < after.files.len() implies file_precedes(
            #[trigger] after.files[i],
            #[trigger] after.files[j],
        ) by {
            let (a, b) = (after.files[i], after.files[j]);
            if j < at {
                assert(a == node.files[i] && b == node.files[j]);
            } else if i < at && j == at {
                assert(a == node.files[i]);
            } else if i < at {
                assert(a == node.files[i] && b == node.files[j - 1]);
            } else if i == at {
                assert(b == node.files[j - 1]);
            } else {
                assert(a == node.files[i - 1] && b == node.files[j - 1]);
            }
        }
    } else {
        let at = dir_slot(node.dirs, dirs[0]);
        let children = with_dir(node.dirs, dirs[0]);
        let found = at < node.dirs.len() && node.dirs[at].0 == dirs[0];
        let child = children[at].1;
        crate::tree::lemma_dir_slot(node.dirs, dirs[0]);
        lemma_dir_slot_splits(node.dirs, dirs[0]);
        assert(names_ordered(children)) by {
            if !found {
                assert forall|i: int| at <= i < node.dirs.len() implies precedes(
                    dirs[0],
                    (#[trigger] node.dirs[i]).0,
                ) by {
                    crate::text::precedes_total(node.dirs[i].0, dirs[0]);
                    if node.dirs[i].0 == dirs[0] && i > at {
                        assert(precedes(node.dirs[at].0, node.dirs[i].0));
                    }
                }
                assert forall|i: int, j: int| 0 <= i < j < children.len() implies precedes(
                    (#[trigger] children[i]).0,
                    (#[trigger] children[j]).0,
                ) by {
                    if j < at {
                        assert(children[i] == node.dirs[i] && children[j] == node.dirs[j]);
                    } else if i < at && j == at {
                        assert(children[i] == node.dirs[i]);
                    } else if i < at {
                        assert(children[i] == node.dirs[i] && children[j] == node.dirs[j - 1]);
                    } else if i == at {
                        assert(children[j] == node.dirs[j - 1]);
                    } else {
                        assert(children[i] == node.dirs[i - 1] && children[j] == node.dirs[j - 1]);
                    }
                }
            }
        }
        assert(node_ordered(child));
        assert forall|d: Seq<Seq<char>>, f: (Seq<char>, int)| #[trigger]
            holds(child, d, f) implies f.1 != file.1 by {
            lemma_empty_holds(d, f);
            assert(found);
            let below = seq![dirs[0]] + d;
            assert(below.drop_first() =~= d);
            assert(node.dirs[at].0 == below[0] && holds(node.dirs[at].1, below.drop_first(), f));
            assert(holds(node, below, f));
        }
        lemma_with_file_ordered(child, dirs.drop_first(), file);
        assert forall|i: int, j: int| 0 <= i < j < after.dirs.len() implies precedes(
            (#[trigger] after.dirs[i]).0,
            (#[trigger] after.dirs[j]).0,
        ) by {
            assert(after.dirs[i].0 == children[i].0 && after.dirs[j].0 == children[j].0);
        }
        assert forall|i: int| 0 <= i < after.dirs.len() implies node_ordered(
            (#[trigger] after.dirs[i]).1,
        ) by {
            if i != at {
                assert(after.dirs[i] == children[i]);
                if !found && i > at {
                    assert(children[i] == node.dirs[i - 1]);
                } else {
                    assert(children[i] == node.dirs[i]);
                }
            }
        }
    }
}

/// In every directory of the tree, the subdirectories are listed by ascending
/// name without repetition, and the files by ascending name and index.
pub proof fn tree_is_ordered(paths: Seq<Seq<char>>)
    ensures
        node_ordered(tree_node(paths)),
    decreases paths.len(),
{
    if paths.len() == 0 {
        assert(empty_node().dirs.len() == 0);
    } else {
        let fewer = paths.drop_last();
        let added = (name_of(paths.last()), paths.len() - 1);
        tree_is_ordered(fewer);
        assert forall|d: Seq<Seq<char>>, f: (Seq<char>, int)| #[trigger]
            holds(tree_node(fewer), d, f) implies f.1 != added.1 by {
            tree_holds_the_paths(fewer, d, f);
        }
        lemma_with_file_ordered(tree_node(fewer), dirs_of(paths.last()), added);
    }
}

}
