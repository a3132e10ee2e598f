use rustig::base::{is_ignored, write_tree};
use rustig::path::split_path;
use rustig::{CliError, DirEntry, Flags, Node};

#[test]
fn paths_split_into_components() {
    assert_eq!(split_path(b"a/b//c/./d/"), vec![b"a".to_vec(), b"b".to_vec(), b"c".to_vec(), b"d".to_vec()]);
    assert_eq!(split_path(b"/x"), vec![Vec::new(), b"x".to_vec()]);
    assert_eq!(split_path(b"."), Vec::<Vec<u8>>::new());
    assert_eq!(split_path(b""), Vec::<Vec<u8>>::new());
}

#[test]
fn repository_directories_are_skipped_anywhere() {
    assert!(is_ignored("./.rustig"));
    assert!(is_ignored("/home/u/project/.rustig/objects/x"));
    assert!(!is_ignored("/home/u/project/src/main.rs"));
    assert!(!is_ignored("/home/u/.rustigx"));
}

#[test]
fn listing_leaves_out_repository_directories() {
    let tree = Node::Dir(vec![
        DirEntry::file("a.txt", b"a"),
        DirEntry::dir(".rustig", vec![DirEntry { name: b"sock".to_vec(), node: Node::Other }]),
        DirEntry::dir("src", vec![DirEntry::file("lib.rs", b"l"), DirEntry::dir("empty", vec![])]),
    ]);
    assert_eq!(write_tree(".", &tree).unwrap(), vec![b"./a.txt".to_vec(), b"./src/lib.rs".to_vec()]);
}

#[test]
fn listing_reports_unsupported_entries() {
    let tree = Node::Dir(vec![
        DirEntry::file("a.txt", b"a"),
        DirEntry::dir("d", vec![DirEntry { name: b"sock".to_vec(), node: Node::Other }]),
    ]);
    match write_tree(".", &tree) {
        Err(CliError::UnsupportedFileType { path }) => assert_eq!(path, b"./d/sock".to_vec()),
        other => panic!("unexpected {:?}", other),
    }
    assert!(matches!(write_tree("f", &Node::File(b"x".to_vec())), Err(CliError::UnsupportedFileType { .. })));
}

#[test]
fn default_flags_point_at_the_current_directory() {
    let f = Flags::default();
    assert_eq!(f.work_tree, ".");
    assert_eq!(f.repo_file, ".rustig");
}
