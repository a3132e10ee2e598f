use rustig::tree::parse_tree_payload;
use rustig::{CliError, Context, DirEntry, ErrorKind, Node, ObjectStore, ObjectType, OID};

fn ready_context() -> Context {
    let mut ctx = Context::new(".".to_string(), ".rustig".to_string());
    ctx.init().unwrap();
    ctx
}

fn repository_entry() -> DirEntry {
    DirEntry::dir(
        ".rustig",
        vec![DirEntry::dir("objects", vec![DirEntry::file("junk", b"whatever")])],
    )
}

fn nested_work_tree() -> Node {
    Node::Dir(vec![
        repository_entry(),
        DirEntry::dir(
            "some_dir",
            vec![
                DirEntry::dir(
                    "some_nested_dir",
                    vec![DirEntry::file("another_nested_file.txt", b"Yet more content.\n")],
                ),
                DirEntry::file("some_nested_file.txt", b"Some more content.\n"),
            ],
        ),
        DirEntry::file("some_file.txt", b"Some content.\n"),
    ])
}

fn small_tree(foo: &[u8]) -> Node {
    Node::Dir(vec![
        DirEntry::file("foo.txt", foo),
        DirEntry::dir("bar", vec![DirEntry::file("baz.txt", b"world\n")]),
        repository_entry(),
    ])
}

fn entry<'a>(entries: &'a [DirEntry], name: &str) -> &'a Node {
    &entries.iter().find(|e| e.name == name.as_bytes()).unwrap().node
}

/// Whether two directories hold the same names and contents, in any order.
fn same_content(a: &Node, b: &Node) -> bool {
    match (a, b) {
        (Node::File(x), Node::File(y)) => x == y,
        (Node::Dir(x), Node::Dir(y)) => {
            x.len() == y.len()
                && x.iter().all(|e| {
                    y.iter()
                        .find(|f| f.name == e.name)
                        .map_or(false, |f| same_content(&e.node, &f.node))
                })
        }
        (Node::Other, Node::Other) => true,
        _ => false,
    }
}

fn without_repository(n: &Node) -> Node {
    match n {
        Node::Dir(es) => Node::Dir(
            es.iter()
                .filter(|e| e.name != b".rustig")
                .map(|e| DirEntry { name: e.name.clone(), node: without_repository(&e.node) })
                .collect(),
        ),
        Node::File(c) => Node::File(c.clone()),
        Node::Other => Node::Other,
    }
}

#[test]
fn nested_work_tree_snapshot_has_the_expected_objects() {
    let mut ctx = ready_context();
    let oid = ctx.write_tree(".", &nested_work_tree()).unwrap();
    assert_eq!(oid.as_str(), "cf4685a94a7b854014159f4dbb128f664ef3e716");
    let store = ctx.store().unwrap();
    for key in [
        "616bde835331a5cd78401171a61a4fd54f372adb",
        "2276357f8ac1bc0b174c9ccbea7fcdbeaf2be70b",
        "a5b3c94541feba5ee9b0749d2f8ba380ec5b07f2",
        "c4487275579f0c25ff5673fc64b76a13d0adb870",
        "cf4685a94a7b854014159f4dbb128f664ef3e716",
        "d727e363541ff1b8b282bde54a780d05e8007a8f",
    ] {
        assert!(store.get(key.as_bytes()).is_some(), "missing {}", key);
    }
    assert_eq!(store.len(), 6);
}

#[test]
fn listing_order_does_not_change_the_tree() {
    let a = Node::Dir(vec![
        DirEntry::file("b.txt", b"2"),
        DirEntry::file("a.txt", b"1"),
        DirEntry::dir("d", vec![DirEntry::file("y", b"y"), DirEntry::file("x", b"x")]),
    ]);
    let b = Node::Dir(vec![
        DirEntry::dir("d", vec![DirEntry::file("x", b"x"), DirEntry::file("y", b"y")]),
        DirEntry::file("a.txt", b"1"),
        DirEntry::file("b.txt", b"2"),
    ]);
    let mut ctx = ready_context();
    let oa = ctx.write_tree(".", &a).unwrap();
    let ob = ctx.write_tree(".", &b).unwrap();
    assert_eq!(oa, ob);
}

#[test]
fn tree_entries_are_in_canonical_order() {
    let mut ctx = ready_context();
    let oid = ctx.write_tree(".", &nested_work_tree()).unwrap();
    let payload = ctx.get_object(oid, &[ObjectType::Tree]).unwrap();
    let entries = parse_tree_payload(&payload).unwrap();
    assert_eq!(entries.len(), 2);
    assert_eq!(entries[0].kind, ObjectType::Blob);
    assert_eq!(entries[0].name, b"some_file.txt".to_vec());
    assert_eq!(entries[0].oid, b"d727e363541ff1b8b282bde54a780d05e8007a8f".to_vec());
    assert_eq!(entries[1].kind, ObjectType::Tree);
    assert_eq!(entries[1].name, b"some_dir".to_vec());
}

#[test]
fn repository_directory_is_never_captured() {
    let mut ctx = ready_context();
    let oid = ctx.write_tree(".", &small_tree(b"hello\n")).unwrap();
    let mut pending = vec![oid];
    while let Some(o) = pending.pop() {
        let payload = ctx.get_object(o, &[ObjectType::Tree]).unwrap();
        for e in parse_tree_payload(&payload).unwrap() {
            assert_ne!(e.name, b".rustig".to_vec());
            if e.kind == ObjectType::Tree {
                pending.push(OID(String::from_utf8(e.oid).unwrap()));
            }
        }
    }
    let with_repo = ctx.write_tree(".", &small_tree(b"hello\n")).unwrap();
    let without = ctx.write_tree(".", &without_repository(&small_tree(b"hello\n"))).unwrap();
    assert_eq!(with_repo, without);
}

#[test]
fn ignored_paths_follow_the_repository_location() {
    let ctx = Context::new("/w".to_string(), "/w/.rustig".to_string());
    assert!(ctx.is_ignored("/w/.rustig"));
    assert!(ctx.is_ignored("/w/.rustig/objects/ab"));
    assert!(ctx.is_ignored("/w/target/debug"));
    assert!(ctx.is_ignored("/w/./.git"));
    assert!(ctx.is_ignored("//w//.rustig"));
    assert!(!ctx.is_ignored("/w/src/target"));
    assert!(!ctx.is_ignored("/w/.rustig2"));
    assert!(!ctx.is_ignored("w/.rustig"));
}

#[test]
fn snapshot_then_restore_reproduces_the_directory() {
    let tree = Node::Dir(vec![
        DirEntry::file("a.txt", b"alpha"),
        DirEntry::dir("empty", vec![]),
        DirEntry::dir(
            "sub",
            vec![DirEntry::file("b.bin", &[0u8, 255, 10, 13]), DirEntry::dir("deeper", vec![DirEntry::file("c", b"")])],
        ),
        repository_entry(),
    ]);
    let mut ctx = ready_context();
    let oid = ctx.write_tree(".", &tree).unwrap();
    let restored = ctx.read_tree(oid).unwrap();
    assert!(same_content(&restored, &without_repository(&tree)));
    match &restored {
        Node::Dir(es) => match entry(es, "empty") {
            Node::Dir(inner) => assert!(inner.is_empty()),
            other => panic!("unexpected {:?}", other),
        },
        other => panic!("unexpected {:?}", other),
    }
}

#[test]
fn small_tree_scenario() {
    let mut first = ready_context();
    let a = first.write_tree(".", &small_tree(b"hello\n")).unwrap();
    let mut second = ready_context();
    let b = second.write_tree(".", &small_tree(b"hello\n")).unwrap();
    assert_eq!(a, b);
    let changed = second.write_tree(".", &small_tree(b"hello!\n")).unwrap();
    assert_ne!(a, changed);
    let restored = first.read_tree(a).unwrap();
    match &restored {
        Node::Dir(es) => {
            assert_eq!(es.len(), 2);
            assert!(matches!(entry(es, "foo.txt"), Node::File(c) if c == b"hello\n"));
            match entry(es, "bar") {
                Node::Dir(inner) => {
                    assert_eq!(inner.len(), 1);
                    assert!(matches!(entry(inner, "baz.txt"), Node::File(c) if c == b"world\n"));
                }
                other => panic!("unexpected {:?}", other),
            }
        }
        other => panic!("unexpected {:?}", other),
    }
}

#[test]
fn empty_directory_is_an_empty_tree() {
    let mut ctx = ready_context();
    let oid = ctx.write_tree(".", &Node::Dir(vec![])).unwrap();
    assert_eq!(ctx.get_object(oid.duplicate(), &[ObjectType::Tree]).unwrap(), Vec::<u8>::new());
    assert!(matches!(ctx.read_tree(oid).unwrap(), Node::Dir(es) if es.is_empty()));
}

#[test]
fn unsupported_entries_are_reported_and_nothing_is_stored() {
    let tree = Node::Dir(vec![
        DirEntry::file("a", b"1"),
        DirEntry::dir("d", vec![DirEntry { name: b"fifo".to_vec(), node: Node::Other }]),
    ]);
    let mut ctx = ready_context();
    match ctx.write_tree("/w", &tree) {
        Err(CliError::UnsupportedFileType { path }) => assert_eq!(path, b"/w/d/fifo".to_vec()),
        other => panic!("unexpected {:?}", other),
    }
    assert_eq!(ctx.store().unwrap().len(), 0);
    match ctx.write_tree("/w/f", &Node::File(b"x".to_vec())) {
        Err(CliError::UnsupportedFileType { path }) => assert_eq!(path, b"/w/f".to_vec()),
        other => panic!("unexpected {:?}", other),
    }
}

#[test]
fn ignored_unsupported_entries_are_skipped() {
    let tree = Node::Dir(vec![
        DirEntry::file("a", b"1"),
        DirEntry::dir(".rustig", vec![DirEntry { name: b"sock".to_vec(), node: Node::Other }]),
    ]);
    let mut ctx = ready_context();
    assert!(ctx.write_tree(".", &tree).is_ok());
}

#[test]
fn restoring_a_blob_is_a_type_mismatch() {
    let mut ctx = ready_context();
    let oid = ctx.hash_object(b"not a tree".to_vec(), ObjectType::Blob).unwrap();
    match ctx.read_tree(oid) {
        Err(CliError::InvalidType { expected, found }) => {
            assert_eq!(expected, vec![ObjectType::Tree]);
            assert_eq!(found, ObjectType::Blob);
        }
        other => panic!("unexpected {:?}", other),
    }
}

#[test]
fn restoring_an_unknown_tree_is_not_found() {
    let ctx = ready_context();
    let oid = OID("cf4685a94a7b854014159f4dbb128f664ef3e716".to_string());
    match ctx.read_tree(oid) {
        Err(CliError::NotFound { object }) => assert_eq!(object, b"cf4685a94a7b854014159f4dbb128f664ef3e716".to_vec()),
        other => panic!("unexpected {:?}", other),
    }
}

#[test]
fn child_of_the_wrong_kind_reports_its_kind() {
    let mut store = ObjectStore::new();
    store.insert(b"root".to_vec(), b"tree\0blob\0sub\0file".to_vec());
    store.insert(b"sub".to_vec(), b"tree\0".to_vec());
    let ctx = Context::open(".".to_string(), ".rustig".to_string(), store);
    match ctx.read_tree(OID("root".to_string())) {
        Err(CliError::InvalidType { expected, found }) => {
            assert_eq!(expected, vec![ObjectType::Blob]);
            assert_eq!(found, ObjectType::Tree);
        }
        other => panic!("unexpected {:?}", other),
    }
}

#[test]
fn malformed_tree_payloads_are_corrupt() {
    let mut store = ObjectStore::new();
    store.insert(b"two".to_vec(), b"tree\0blob\0only-two-fields".to_vec());
    store.insert(b"four".to_vec(), b"tree\0blob\0k\0name\0extra".to_vec());
    store.insert(b"tag".to_vec(), b"tree\0link\0k\0name".to_vec());
    store.insert(b"loop".to_vec(), b"tree\0tree\0loop\0again".to_vec());
    let ctx = Context::open(".".to_string(), ".rustig".to_string(), store);
    for key in ["two", "four", "tag", "loop"] {
        assert_eq!(
            ctx.read_tree(OID(key.to_string())).unwrap_err().error_kind(),
            ErrorKind::Corrupt,
            "{}",
            key
        );
    }
}

#[test]
fn missing_child_blob_is_not_found() {
    let mut store = ObjectStore::new();
    store.insert(b"root".to_vec(), b"tree\0blob\0absent\0file".to_vec());
    let ctx = Context::open(".".to_string(), ".rustig".to_string(), store);
    match ctx.read_tree(OID("root".to_string())) {
        Err(CliError::NotFound { object }) => assert_eq!(object, b"absent".to_vec()),
        other => panic!("unexpected {:?}", other),
    }
}
