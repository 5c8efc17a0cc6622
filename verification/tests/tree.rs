use audio_catalog::entry::DirectoryEntry;
use audio_catalog::tree::{any_hidden, list_tree, lists_node, read_directory_tree, NodeKind, WalkNode};

fn node(segments: &[&str], kind: NodeKind) -> WalkNode {
    WalkNode {
        segments: segments.iter().map(|s| s.to_string()).collect(),
        path: format!("/root/{}", segments.join("/")),
        kind,
    }
}

fn d(segments: &[&str]) -> WalkNode {
    node(segments, NodeKind::Directory)
}

fn paths(list: &[DirectoryEntry]) -> Vec<String> {
    list.iter().map(|e| e.path.clone()).collect()
}

fn sample_walk() -> Vec<WalkNode> {
    vec![
        d(&[]),
        d(&["b"]),
        d(&["b", "c"]),
        d(&["b", "c", "d"]),
        node(&["b", "song.mp3"], NodeKind::Other),
        d(&["A"]),
        d(&[".cache"]),
        d(&[".cache", "inner"]),
        d(&["A", ".git", "objects"]),
        node(&["A", "locked"], NodeKind::Unreadable),
    ]
}

#[test]
fn depth_zero_lists_nothing() {
    assert_eq!(read_directory_tree(Ok(sample_walk()), 0), Ok(Vec::new()));
}

#[test]
fn depth_one_lists_the_children_only() {
    let list = read_directory_tree(Ok(sample_walk()), 1).unwrap();
    assert_eq!(paths(&list), vec!["/root/A", "/root/b"]);
}

#[test]
fn depth_two_lists_two_levels() {
    let list = read_directory_tree(Ok(sample_walk()), 2).unwrap();
    assert_eq!(paths(&list), vec!["/root/A", "/root/b", "/root/b/c"]);
}

#[test]
fn a_large_depth_lists_all_visible_directories() {
    let list = read_directory_tree(Ok(sample_walk()), u32::MAX).unwrap();
    assert_eq!(paths(&list), vec!["/root/A", "/root/b", "/root/b/c", "/root/b/c/d"]);
}

#[test]
fn the_root_itself_is_never_listed() {
    let list = list_tree(&vec![d(&[])], 5);
    assert!(list.is_empty());
}

#[test]
fn hidden_directories_and_what_lies_below_are_left_out() {
    let walk = vec![d(&[".hidden"]), d(&[".hidden", "a"]), d(&["a", ".b", "c", "d"]), d(&["a"])];
    let list = list_tree(&walk, 10);
    assert_eq!(paths(&list), vec!["/root/a"]);
}

#[test]
fn files_and_unreadable_nodes_are_left_out() {
    let walk = vec![
        node(&["a.mp3"], NodeKind::Other),
        node(&["x"], NodeKind::Unreadable),
        d(&["dir"]),
    ];
    assert_eq!(paths(&list_tree(&walk, 3)), vec!["/root/dir"]);
}

#[test]
fn a_tree_entry_is_a_bare_directory() {
    let list = list_tree(&vec![d(&["Albums", "Live.2019"])], 2);
    assert_eq!(
        list,
        vec![DirectoryEntry {
            name: "Live.2019".to_string(),
            path: "/root/Albums/Live.2019".to_string(),
            is_dir: true,
            size: 0,
            extension: None,
            modified_time: None,
        }]
    );
}

#[test]
fn the_tree_sorts_by_lowercase_path() {
    let walk = vec![d(&["b"]), d(&["B", "x"]), d(&["a", "z"]), d(&["A"]), d(&["a"]), d(&["b", "a"])];
    let list = list_tree(&walk, 2);
    assert_eq!(
        paths(&list),
        vec!["/root/A", "/root/a", "/root/a/z", "/root/b", "/root/b/a", "/root/B/x"]
    );
}

#[test]
fn a_root_that_cannot_be_enumerated_fails() {
    assert_eq!(
        read_directory_tree(Err("denied".to_string()), 3),
        Err("Failed to read directory: denied".to_string())
    );
}

#[test]
fn lists_node_tells_depth_kind_and_hidden_names() {
    assert!(lists_node(&d(&["a"]), 1));
    assert!(!lists_node(&d(&["a"]), 0));
    assert!(!lists_node(&d(&["a", "b"]), 1));
    assert!(lists_node(&d(&["a", "b"]), 2));
    assert!(!lists_node(&d(&[]), 2));
    assert!(!lists_node(&node(&["a"], NodeKind::Other), 2));
    assert!(!lists_node(&node(&["a"], NodeKind::Unreadable), 2));
    assert!(!lists_node(&d(&["a", ".b"]), 2));
    assert!(!lists_node(&d(&[".a", "b"]), 2));
}

#[test]
fn any_hidden_looks_at_every_name() {
    assert!(!any_hidden(&Vec::new()));
    assert!(!any_hidden(&vec!["a".to_string(), "b.c".to_string()]));
    assert!(any_hidden(&vec!["a".to_string(), ".b".to_string(), "c".to_string()]));
    assert!(any_hidden(&vec![".a".to_string()]));
}
