use rustig::object::{encode, to_hex};
use rustig::path::join_path;
use rustig::tree::{bytes_less, encode_tree, parse_entry_line, parse_tree_payload, sort_tree_entries, TreeEntry};
use rustig::ObjectType;

fn entry(kind: ObjectType, oid: &[u8], name: &[u8]) -> TreeEntry {
    TreeEntry { kind, oid: oid.to_vec(), name: name.to_vec() }
}

#[test]
fn digest_bytes_become_lowercase_hex() {
    assert_eq!(to_hex(&[0x00, 0xab, 0x1f, 0xff]), "00ab1fff");
    assert_eq!(to_hex(&[]), "");
}

#[test]
fn objects_encode_as_tag_nul_payload() {
    assert_eq!(encode(ObjectType::Blob, b"hi"), b"blob\0hi".to_vec());
    assert_eq!(encode(ObjectType::Tree, b""), b"tree\0".to_vec());
}

#[test]
fn byte_order_puts_prefixes_first() {
    assert!(bytes_less(b"ab", b"abc"));
    assert!(!bytes_less(b"abc", b"ab"));
    assert!(bytes_less(b"aZ", b"b"));
    assert!(!bytes_less(b"same", b"same"));
    assert!(bytes_less(b"", b"a"));
}

#[test]
fn entries_sort_by_kind_then_key_then_name() {
    let sorted = sort_tree_entries(vec![
        entry(ObjectType::Tree, b"aa", b"z"),
        entry(ObjectType::Blob, b"bb", b"y"),
        entry(ObjectType::Blob, b"aa", b"x2"),
        entry(ObjectType::Blob, b"aa", b"x1"),
    ]);
    let names: Vec<Vec<u8>> = sorted.iter().map(|e| e.name.clone()).collect();
    assert_eq!(names, vec![b"x1".to_vec(), b"x2".to_vec(), b"y".to_vec(), b"z".to_vec()]);
}

#[test]
fn payload_lines_join_with_newlines() {
    let payload = encode_tree(&vec![entry(ObjectType::Blob, b"k1", b"a"), entry(ObjectType::Tree, b"k2", b"b")]);
    assert_eq!(payload, b"blob\0k1\0a\ntree\0k2\0b".to_vec());
    assert_eq!(encode_tree(&vec![]), Vec::<u8>::new());
    let back = parse_tree_payload(&payload).unwrap();
    assert_eq!(back.len(), 2);
    assert_eq!(back[1].kind, ObjectType::Tree);
    assert_eq!(back[1].oid, b"k2".to_vec());
    assert_eq!(back[1].name, b"b".to_vec());
    assert_eq!(parse_tree_payload(b"").unwrap().len(), 0);
}

#[test]
fn malformed_lines_are_refused() {
    assert!(parse_entry_line(b"blob\0k").is_none());
    assert!(parse_entry_line(b"blob\0k\0n\0m").is_none());
    assert!(parse_entry_line(b"file\0k\0n").is_none());
    assert!(parse_entry_line(b"tree\0\0").is_some());
    assert!(parse_tree_payload(b"blob\0k\0n\n").is_none());
}

#[test]
fn joining_adds_one_separator() {
    assert_eq!(join_path(b"/a", b"b"), b"/a/b".to_vec());
    assert_eq!(join_path(b".", b"x"), b"./x".to_vec());
}
