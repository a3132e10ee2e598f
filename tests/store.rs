use rustig::{CliError, Context, ErrorKind, ObjectStore, ObjectType, OID};

fn ready_context() -> Context {
    let mut ctx = Context::new(".".to_string(), ".rustig".to_string());
    ctx.init().unwrap();
    ctx
}

#[test]
fn blob_identifier_is_the_digest_of_its_encoding() {
    let mut ctx = ready_context();
    let oid = ctx.hash_object(b"Some content.\n".to_vec(), ObjectType::Blob).unwrap();
    assert_eq!(oid.as_str(), "d727e363541ff1b8b282bde54a780d05e8007a8f");
    let store = ctx.store().unwrap();
    let record = store.get(b"d727e363541ff1b8b282bde54a780d05e8007a8f").unwrap();
    assert_eq!(record.as_slice(), b"blob\0Some content.\n");
}

#[test]
fn put_twice_gives_the_same_identifier() {
    let mut ctx = ready_context();
    let a = ctx.hash_object(b"abc".to_vec(), ObjectType::Blob).unwrap();
    let b = ctx.hash_object(b"abc".to_vec(), ObjectType::Blob).unwrap();
    assert_eq!(a, b);
    assert_eq!(ctx.store().unwrap().len(), 1);
    let got = ctx.get_object(a.duplicate(), &[ObjectType::Blob]).unwrap();
    assert_eq!(got, b"abc".to_vec());
}

#[test]
fn identifier_is_forty_lowercase_hex_digits() {
    let mut ctx = ready_context();
    let oid = ctx.hash_object(Vec::new(), ObjectType::Tree).unwrap();
    assert_eq!(oid.as_str().len(), 40);
    assert!(oid.as_str().chars().all(|c| c.is_ascii_digit() || ('a'..='f').contains(&c)));
}

#[test]
fn kind_changes_the_identifier() {
    let mut ctx = ready_context();
    let a = ctx.hash_object(b"same".to_vec(), ObjectType::Blob).unwrap();
    let b = ctx.hash_object(b"same".to_vec(), ObjectType::Tree).unwrap();
    assert_ne!(a, b);
}

#[test]
fn blob_fetched_as_tree_is_a_type_mismatch() {
    let mut ctx = ready_context();
    let oid = ctx.hash_object(b"payload".to_vec(), ObjectType::Blob).unwrap();
    match ctx.get_object(oid, &[ObjectType::Tree]) {
        Err(CliError::InvalidType { expected, found }) => {
            assert_eq!(expected, vec![ObjectType::Tree]);
            assert_eq!(found, ObjectType::Blob);
        }
        other => panic!("unexpected {:?}", other),
    }
}

#[test]
fn empty_expected_list_accepts_any_kind() {
    let mut ctx = ready_context();
    let oid = ctx.hash_object(b"payload".to_vec(), ObjectType::Tree).unwrap();
    assert_eq!(ctx.get_object(oid, &[]).unwrap(), b"payload".to_vec());
}

#[test]
fn unknown_identifier_is_not_found() {
    let ctx = ready_context();
    let oid = OID("0123456789abcdef0123456789abcdef01234567".to_string());
    match ctx.get_object(oid, &[ObjectType::Blob]) {
        Err(CliError::NotFound { object }) => {
            assert_eq!(object, b"0123456789abcdef0123456789abcdef01234567".to_vec())
        }
        other => panic!("unexpected {:?}", other),
    }
}

#[test]
fn record_with_unknown_tag_is_corrupt() {
    let mut store = ObjectStore::new();
    store.insert(b"k1".to_vec(), b"leaf\0data".to_vec());
    store.insert(b"k2".to_vec(), b"no separator".to_vec());
    let ctx = Context::open(".".to_string(), ".rustig".to_string(), store);
    let e1 = ctx.get_object(OID("k1".to_string()), &[]).unwrap_err();
    assert_eq!(e1.error_kind(), ErrorKind::Corrupt);
    let e2 = ctx.get_object(OID("k2".to_string()), &[]).unwrap_err();
    assert_eq!(e2.error_kind(), ErrorKind::Corrupt);
}

#[test]
fn uninitialised_repository_refuses_every_operation() {
    let mut ctx = Context::new(".".to_string(), ".rustig".to_string());
    assert!(matches!(ctx.ensure_init(), Err(CliError::NotInitialized)));
    assert!(matches!(
        ctx.hash_object(b"x".to_vec(), ObjectType::Blob),
        Err(CliError::NotInitialized)
    ));
    let oid = OID("d727e363541ff1b8b282bde54a780d05e8007a8f".to_string());
    assert!(matches!(ctx.get_object(oid.duplicate(), &[]), Err(CliError::NotInitialized)));
    assert!(matches!(ctx.read_tree(oid), Err(CliError::NotInitialized)));
    assert_eq!(ctx.init().unwrap(), ".rustig");
    assert!(ctx.ensure_init().is_ok());
}

#[test]
fn init_keeps_existing_records() {
    let mut ctx = ready_context();
    let oid = ctx.hash_object(b"kept".to_vec(), ObjectType::Blob).unwrap();
    ctx.init().unwrap();
    assert_eq!(ctx.get_object(oid, &[ObjectType::Blob]).unwrap(), b"kept".to_vec());
}

#[test]
fn object_directory_is_under_the_repository() {
    let ctx = Context::new(".".to_string(), "/tmp/repo/.rustig".to_string());
    assert_eq!(ctx.obj_dir(), "/tmp/repo/.rustig/objects");
    let slash = Context::new(".".to_string(), "repo/".to_string());
    assert_eq!(slash.obj_dir(), "repo/objects");
    let empty = Context::new(".".to_string(), String::new());
    assert_eq!(empty.obj_dir(), "objects");
}

#[test]
fn existing_record_is_never_replaced() {
    let mut store = ObjectStore::new();
    store.insert(b"d727e363541ff1b8b282bde54a780d05e8007a8f".to_vec(), b"blob\0damaged".to_vec());
    store.insert(b"d727e363541ff1b8b282bde54a780d05e8007a8f".to_vec(), b"blob\0second".to_vec());
    let mut ctx = Context::open(".".to_string(), ".rustig".to_string(), store);
    let oid = ctx.hash_object(b"Some content.\n".to_vec(), ObjectType::Blob).unwrap();
    assert_eq!(oid.as_str(), "d727e363541ff1b8b282bde54a780d05e8007a8f");
    assert_eq!(ctx.get_object(oid, &[]).unwrap(), b"damaged".to_vec());
    assert_eq!(ctx.store().unwrap().len(), 1);
}

#[test]
fn corrupt_record_error_names_the_object() {
    let mut store = ObjectStore::new();
    store.insert(b"k1".to_vec(), b"leaf\0data".to_vec());
    let ctx = Context::open(".".to_string(), ".rustig".to_string(), store);
    match ctx.get_object(OID("k1".to_string()), &[ObjectType::Blob]) {
        Err(CliError::Corrupt { object }) => assert_eq!(object, b"k1".to_vec()),
        other => panic!("unexpected {:?}", other),
    }
}

#[test]
fn tag_names_round_trip() {
    assert_eq!(ObjectType::Blob.name(), "blob");
    assert_eq!(ObjectType::Tree.name(), "tree");
    assert_eq!(ObjectType::from_bytes(b"tree"), Some(ObjectType::Tree));
    assert_eq!(ObjectType::from_bytes(b"blob"), Some(ObjectType::Blob));
    assert_eq!(ObjectType::from_bytes(b"Blob"), None);
    assert_eq!(ObjectType::from_bytes(b""), None);
}
