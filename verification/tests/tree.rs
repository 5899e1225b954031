use diffview::collapse::{visible_entries, PathSet};
use diffview::tree::{build_tree, TreeEntry, TreeEntryKind};

/// An entry in words: its depth, its name, and the path or the index.
fn show(entry: &TreeEntry) -> String {
    match &entry.kind {
        TreeEntryKind::Dir { path } => format!("{} {} = {}", entry.depth, entry.name, path),
        TreeEntryKind::File { file_ix } => format!("{} {} #{}", entry.depth, entry.name, file_ix),
    }
}

fn shown(paths: &[&str]) -> Vec<String> {
    build_tree(paths).iter().map(show).collect()
}

#[test]
fn tree_nests_dirs_first() {
    let entries = build_tree(&["src/main.rs", "README.md"]);
    assert_eq!(entries.len(), 3);
    assert!(matches!(entries[0].kind, TreeEntryKind::Dir { .. }));
}

#[test]
fn single_directories_are_joined() {
    assert_eq!(
        shown(&["crates/app/src/main.rs", "crates/app/src/theme.rs"]),
        vec!["0 crates/app/src = crates/app/src", "1 main.rs #0", "1 theme.rs #1"]
    );
    assert_eq!(
        shown(&["a/b/c/x", "a/b/d/y", "a/z"]),
        vec![
            "0 a = a",
            "1 b = a/b",
            "2 c = a/b/c",
            "3 x #0",
            "2 d = a/b/d",
            "3 y #1",
            "1 z #2",
        ]
    );
}

#[test]
fn names_are_sorted_and_equal_names_stay_in_order() {
    assert_eq!(
        shown(&["z", "b/2", "a", "B/1", "b/10", "a"]),
        vec![
            "0 B = B",
            "1 1 #3",
            "0 b = b",
            "1 10 #4",
            "1 2 #1",
            "0 a #2",
            "0 a #5",
            "0 z #0",
        ]
    );
}

#[test]
fn no_paths_make_no_tree() {
    assert!(build_tree(&[]).is_empty());
}

#[test]
fn empty_parts_are_directories_too() {
    assert_eq!(shown(&["a//b"]), vec!["0 a/ = a/", "1 b #0"]);
    assert_eq!(shown(&[""]), vec!["0  #0"]);
    assert_eq!(
        shown(&["/x", "/a/b"]),
        vec!["0  = ", "1 a = a", "2 b #1", "1 x #0"]
    );
}

#[test]
fn each_file_is_listed_exactly_once() {
    let paths = ["a/b", "c", "a/d/e", "a/d/f", "g/h/i"];
    let mut found: Vec<usize> = build_tree(&paths)
        .iter()
        .filter_map(|entry| match entry.kind {
            TreeEntryKind::File { file_ix } => Some(file_ix),
            TreeEntryKind::Dir { .. } => None,
        })
        .collect();
    found.sort();
    assert_eq!(found, vec![0, 1, 2, 3, 4]);
}

#[test]
fn collapsed_directories_hide_what_is_inside() {
    let entries = build_tree(&["a/b/x", "a/c/y", "a/z", "d/w", "v"]);
    let names: Vec<&str> = entries.iter().map(|entry| entry.name.as_str()).collect();
    assert_eq!(names, vec!["a", "b", "x", "c", "y", "z", "d", "w", "v"]);
    let mut collapsed = PathSet::new();
    assert_eq!(visible_entries(&entries, &collapsed), vec![0, 1, 2, 3, 4, 5, 6, 7, 8]);
    collapsed.insert("a/b".to_string());
    assert_eq!(visible_entries(&entries, &collapsed), vec![0, 1, 3, 4, 5, 6, 7, 8]);
    collapsed.insert("a".to_string());
    assert_eq!(visible_entries(&entries, &collapsed), vec![0, 6, 7, 8]);
    collapsed.insert("d".to_string());
    collapsed.insert("x".to_string());
    assert_eq!(visible_entries(&entries, &collapsed), vec![0, 6, 8]);
}

#[test]
fn toggling_twice_gives_back_the_set() {
    let mut set = PathSet::new();
    set.toggle("a".to_string());
    assert!(set.contains(&"a".to_string()));
    set.toggle("b".to_string());
    set.toggle("a".to_string());
    assert!(!set.contains(&"a".to_string()));
    assert!(set.contains(&"b".to_string()));
    assert!(set.remove(&"b".to_string()));
    assert!(!set.remove(&"b".to_string()));
}

#[test]
fn only_directories_of_the_tree_stay_collapsed() {
    let mut set = PathSet::new();
    set.insert("src".to_string());
    set.insert("gone".to_string());
    set.insert("README.md".to_string());
    set.insert("src".to_string());
    set.retain_dirs(&build_tree(&["src/main.rs", "README.md"]));
    assert!(set.contains(&"src".to_string()));
    assert!(!set.contains(&"gone".to_string()));
    assert!(!set.contains(&"README.md".to_string()));
}

#[test]
fn entries_spell_out_the_paths() {
    let paths = ["a/b/c/x", "a/b/d/y", "top", "a/z", "e/f/g/w"];
    let mut open: Vec<(usize, String)> = Vec::new();
    let mut found = 0;
    for entry in build_tree(&paths) {
        open.retain(|(depth, _)| *depth < entry.depth);
        let spelled = match open.last() {
            Some((_, dir)) => format!("{}/{}", dir, entry.name),
            None => entry.name.clone(),
        };
        match entry.kind {
            TreeEntryKind::Dir { path } => {
                assert_eq!(spelled, path);
                open.push((entry.depth, path));
            }
            TreeEntryKind::File { file_ix } => {
                assert_eq!(spelled, paths[file_ix]);
                found += 1;
            }
        }
    }
    assert_eq!(found, 5);
}

#[test]
fn the_order_of_the_paths_does_not_matter() {
    let one = ["a/b/x", "c", "a/d", "c", "e/f/g", "a/b/x"];
    let two = ["e/f/g", "c", "a/b/x", "a/b/x", "c", "a/d"];
    let lines = |paths: &[&str]| -> Vec<(usize, String, String)> {
        build_tree(paths)
            .into_iter()
            .map(|entry| {
                let path = match entry.kind {
                    TreeEntryKind::Dir { path } => format!("dir {path}"),
                    TreeEntryKind::File { file_ix } => format!("file {}", paths[file_ix]),
                };
                (entry.depth, entry.name, path)
            })
            .collect()
    };
    assert_eq!(lines(&one), lines(&two));
    assert_eq!(lines(&one).len(), 9);
}

#[test]
fn directories_hold_a_file_or_two_entries() {
    let entries = build_tree(&["a/b/c/x", "a/b/d/e/y", "f/g/h/z", "f/g/w"]);
    for (i, entry) in entries.iter().enumerate() {
        if let TreeEntryKind::Dir { .. } = entry.kind {
            let inside: Vec<&TreeEntry> = entries[i + 1..]
                .iter()
                .take_while(|other| other.depth > entry.depth)
                .filter(|other| other.depth == entry.depth + 1)
                .collect();
            let files = inside
                .iter()
                .filter(|other| matches!(other.kind, TreeEntryKind::File { .. }))
                .count();
            assert!(files > 0 || inside.len() > 1);
        } else {
            assert!(!entry.name.contains('/'));
        }
    }
}

#[test]
fn directory_paths_differ_but_for_slashes_at_the_start() {
    let dirs = |paths: &[&str]| -> Vec<String> {
        build_tree(paths)
            .into_iter()
            .filter_map(|entry| match entry.kind {
                TreeEntryKind::Dir { path } => Some(path),
                TreeEntryKind::File { .. } => None,
            })
            .collect()
    };
    assert_eq!(dirs(&["a/b/x", "ab/x", "a/y", "a/c/x"]), vec!["a", "a/b", "a/c", "ab"]);
    assert_eq!(dirs(&["/a/x", "a/y"]), vec!["/a", "a"]);
    assert_eq!(dirs(&["/x", "/a/b", "a/c"]), vec!["", "a", "a"]);
}
