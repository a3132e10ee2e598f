//! Snapshots: a directory becomes a graph of blob and tree objects.

use vstd::prelude::*;

use crate::digest::sha1_of;
use crate::error::CliError;
use crate::node::DirEntry;
use crate::node::Node;
use crate::object::encode_object;
use crate::object::hex_of;
use crate::object::key_of;
use crate::object::ObjectType;
use crate::object::OID;
use crate::object::oid_of;
use crate::path::components;
use crate::path::ignored_components;
use crate::path::join;
use crate::path::join_path;
use crate::path::path_ignored;
use crate::path::split_path;
use crate::path::views2;
use crate::store::ObjectStore;
use crate::tree::encode_tree;
use crate::tree::entry_views;
use crate::tree::sort_entries;
use crate::tree::sort_tree_entries;
use crate::tree::tree_payload;
use crate::tree::TreeEntry;

verus! {

/// Whether the entry `name` of the directory at `p` is left out.
pub open spec fn skipped(ignore: Seq<Seq<Seq<u8>>>, p: Seq<u8>, name: Seq<u8>) -> bool {
    path_ignored(ignore, components(join(p, name)))
}

/// The kind and payload of the object that stands for node `n` at path `p`.
pub open spec fn node_object(ignore: Seq<Seq<Seq<u8>>>, p: Seq<u8>, n: Node) -> (ObjectType, Seq<u8>)
    decreases n,
{
    match n {
        Node::File(b) => (ObjectType::Blob, b@),
        Node::Dir(es) => (ObjectType::Tree, tree_payload(sort_entries(child_entries(ignore, p, es@)))),
        Node::Other => (ObjectType::Blob, seq![]),
    }
}

/// The tree entries of the entries `es` of the directory at `p` that are
/// not ignored, in listing order.
pub open spec fn child_entries(
    ignore: Seq<Seq<Seq<u8>>>,
    p: Seq<u8>,
    es: Seq<DirEntry>,
) -> Seq<(ObjectType, Seq<u8>, Seq<u8>)>
    decreases es,
{
    if es.len() == 0 {
        seq![]
    } else {
        let e = es.last();
        let rest = child_entries(ignore, p, es.drop_last());
        if skipped(ignore, p, e.name@) {
            rest
        } else {
            let o = node_object(ignore, join(p, e.name@), e.node);
            rest.push((o.0, key_of(oid_of(o.0, o.1)), e.name@))
        }
    }
}

/// The first path under `p`, in listing order, of a node that is neither a
/// file nor a directory and is not ignored.
pub open spec fn unsupported(ignore: Seq<Seq<Seq<u8>>>, p: Seq<u8>, n: Node) -> Option<Seq<u8>>
    decreases n,
{
    match n {
        Node::File(_) => None,
        Node::Dir(es) => unsupported_in(ignore, p, es@),
        Node::Other => Some(p),
    }
}

/// The first unsupported path among the entries `es` of the directory at `p`.
pub open spec fn unsupported_in(ignore: Seq<Seq<Seq<u8>>>, p: Seq<u8>, es: Seq<DirEntry>) -> Option<Seq<u8>>
    decreases es,
{
    if es.len() == 0 {
        None
    } else {
        match unsupported_in(ignore, p, es.drop_last()) {
            Some(x) => Some(x),
            None => {
                let e = es.last();
                if skipped(ignore, p, e.name@) {
                    None
                } else {
                    unsupported(ignore, join(p, e.name@), e.node)
                }
            },
        }
    }
}

/// The records of every object that a snapshot of `n` at `p` stores.
pub open spec fn node_records(ignore: Seq<Seq<Seq<u8>>>, p: Seq<u8>, n: Node) -> Set<Seq<u8>>
    decreases n,
{
    match n {
        Node::File(b) => set![encode_object(ObjectType::Blob, b@)],
        Node::Dir(es) => {
            let o = node_object(ignore, p, n);
            records_in(ignore, p, es@).insert(encode_object(o.0, o.1))
        },
        Node::Other => set![],
    }
}

/// The records that snapshots of the entries `es` of the directory at `p` store.
pub open spec fn records_in(ignore: Seq<Seq<Seq<u8>>>, p: Seq<u8>, es: Seq<DirEntry>) -> Set<Seq<u8>>
    decreases es,
{
    if es.len() == 0 {
        set![]
    } else {
        let e = es.last();
        let rest = records_in(ignore, p, es.drop_last());
        if skipped(ignore, p, e.name@) {
            rest
        } else {
            rest.union(node_records(ignore, join(p, e.name@), e.node))
        }
    }
}

/// The key under which a record is stored: the hex digest of its bytes.
pub open spec fn record_key(r: Seq<u8>) -> Seq<u8> {
    key_of(hex_of(sha1_of(r)))
}

/// `after` is `before` with records of `added` stored, each under its own
/// key where that key was free: every record of `before` stays as it was,
/// every new key holds one of `added` under its own key, and the key of
/// every record of `added` is taken.
pub open spec fn grows(
    before: Map<Seq<u8>, Seq<u8>>,
    after: Map<Seq<u8>, Seq<u8>>,
    added: Set<Seq<u8>>,
) -> bool {
    &&& forall|k: Seq<u8>| #[trigger] before.contains_key(k) ==> after.contains_key(k) && after[k] == before[k]
    &&& forall|k: Seq<u8>|
        #[trigger] after.contains_key(k) && !before.contains_key(k) ==> added.contains(after[k]) && record_key(
            after[k],
        ) == k
    &&& forall|r: Seq<u8>| #[trigger] added.contains(r) ==> after.contains_key(record_key(r))
}

/// Growth is transitive.
pub proof fn lemma_grows_trans(
    a: Map<Seq<u8>, Seq<u8>>,
    b: Map<Seq<u8>, Seq<u8>>,
    c: Map<Seq<u8>, Seq<u8>>,
    r1: Set<Seq<u8>>,
    r2: Set<Seq<u8>>,
)
    requires
        grows(a, b, r1),
        grows(b, c, r2),
    ensures
        grows(a, c, r1.union(r2)),
{
    assert forall|k: Seq<u8>| #[trigger] c.contains_key(k) && !a.contains_key(k) implies r1.union(r2).contains(c[k])
        && record_key(c[k]) == k by {
        if b.contains_key(k) {
            assert(c[k] == b[k]);
        }
    }
    assert forall|r: Seq<u8>| #[trigger] r1.union(r2).contains(r) implies c.contains_key(record_key(r)) by {
        if !r2.contains(r) {
            assert(r1.contains(r));
            assert(b.contains_key(record_key(r)));
        }
    }
}

/// Storing one object where its key is free grows the map by its record.
pub proof fn lemma_grows_put(a: Map<Seq<u8>, Seq<u8>>, b: Map<Seq<u8>, Seq<u8>>, t: ObjectType, payload: Seq<u8>)
    requires
        a.contains_key(key_of(oid_of(t, payload))) ==> b == a,
        !a.contains_key(key_of(oid_of(t, payload))) ==> b == a.insert(
            key_of(oid_of(t, payload)),
            encode_object(t, payload),
        ),
    ensures
        grows(a, b, set![encode_object(t, payload)]),
{
}

/// The ignore list, as component lists.
pub open spec fn ignore_views(ignore: &Vec<Vec<Vec<u8>>>) -> Seq<Seq<Seq<u8>>> {
    views2(ignore@)
}

proof fn lemma_unsupported_prefix(ignore: Seq<Seq<Seq<u8>>>, p: Seq<u8>, es: Seq<DirEntry>, i: int)
    requires
        0 <= i <= es.len(),
        unsupported_in(ignore, p, es) is None,
    ensures
        unsupported_in(ignore, p, es.subrange(0, i)) is None,
    decreases es.len() - i,
{
    if i < es.len() {
        lemma_unsupported_prefix(ignore, p, es, i + 1);
        assert(es.subrange(0, i + 1).drop_last() =~= es.subrange(0, i));
    } else {
        assert(es.subrange(0, i) =~= es);
    }
}

/// Stores the objects of a snapshot of `node` at `path` and returns the
/// kind and identifier of its own object.
fn snapshot_node(
    store: &mut ObjectStore,
    ignore: &Vec<Vec<Vec<u8>>>,
    path: &Vec<u8>,
    node: &Node,
) -> (r: (ObjectType, OID))
    requires
        old(store).wf(),
        unsupported(ignore_views(ignore), path@, *node) is None,
    ensures
        final(store).wf(),
        r.0 == node_object(ignore_views(ignore), path@, *node).0,
        r.1@ == oid_of(r.0, node_object(ignore_views(ignore), path@, *node).1),
        grows(old(store)@, final(store)@, node_records(ignore_views(ignore), path@, *node)),
    decreases node,
{
    let ghost ign = ignore_views(ignore);
    match node {
        Node::File(b) => {
            let oid = store.put(ObjectType::Blob, b.as_slice());
            proof {
                lemma_grows_put(old(store)@, store@, ObjectType::Blob, b@);
            }
            (ObjectType::Blob, oid)
        },
        Node::Dir(es) => {
            let mut entries: Vec<TreeEntry> = Vec::new();
            let mut i: usize = 0;
            proof {
                assert(es@.subrange(0, 0) =~= seq![]);
                assert(entry_views(entries@) =~= seq![]);
                assert(old(store)@ =~= store@);
                assert(grows(store@, store@, set![]));
            }
            while i < es.len()
                invariant
                    i <= es.len(),
                    store.wf(),
                    unsupported_in(ign, path@, es@) is None,
                    ign == ignore_views(ignore),
                    *node == Node::Dir(*es),
                    entry_views(entries@) == child_entries(ign, path@, es@.subrange(0, i as int)),
                    grows(old(store)@, store@, records_in(ign, path@, es@.subrange(0, i as int))),
                decreases es.len() - i,
            {
                let e = &es[i];
                let ghost pre = es@.subrange(0, i as int);
                let ghost cur = es@.subrange(0, i + 1);
                proof {
                    assert(cur.drop_last() =~= pre);
                    assert(cur.last() == *e);
                    lemma_unsupported_prefix(ign, path@, es@, i + 1);
                    assert(decreases_to!(*node => node->Dir_0));
                    assert(decreases_to!(*es => es@));
                    assert(decreases_to!(es@[i as int] => es@[i as int].node));
                    assert(decreases_to!(es@ => es@[i as int]));
                    assert(decreases_to!(*node => e.node));
                }
                let child_path = join_path(path.as_slice(), e.name.as_slice());
                let comps = split_path(child_path.as_slice());
                if !ignored_components(ignore, &comps) {
                    let ghost s0 = store@;
                    let (kind, oid) = snapshot_node(store, ignore, &child_path, &e.node);
                    proof {
                        lemma_grows_trans(old(store)@, s0, store@, records_in(ign, path@, pre),
                            node_records(ign, child_path@, e.node));
                    }
                    let key = vstd::slice::slice_to_vec(oid.as_str().as_bytes());
                    let name = vstd::slice::slice_to_vec(e.name.as_slice());
                    let ghost before = entry_views(entries@);
                    entries.push(TreeEntry { kind, oid: key, name });
                    assert(entry_views(entries@) =~= before.push((kind, key_of(oid@), e.name@)));
                }
                i = i + 1;
            }
            assert(es@.subrange(0, es@.len() as int) =~= es@);
            let sorted = sort_tree_entries(entries);
            let payload = encode_tree(&sorted);
            let ghost s1 = store@;
            let oid = store.put(ObjectType::Tree, payload.as_slice());
            proof {
                lemma_grows_put(s1, store@, ObjectType::Tree, payload@);
                lemma_grows_trans(old(store)@, s1, store@, records_in(ign, path@, es@),
                    set![encode_object(ObjectType::Tree, payload@)]);
                assert(records_in(ign, path@, es@).union(set![encode_object(ObjectType::Tree, payload@)])
                    =~= node_records(ign, path@, *node));
            }
            (ObjectType::Tree, oid)
        },
        Node::Other => {
            // ruled out by the precondition
            assert(false);
            (ObjectType::Blob, OID(String::new()))
        },
    }
}

proof fn lemma_unsupported_extend(ignore: Seq<Seq<Seq<u8>>>, p: Seq<u8>, es: Seq<DirEntry>, j: int, k: int)
    requires
        0 <= j <= k <= es.len(),
        unsupported_in(ignore, p, es.subrange(0, j)) is Some,
    ensures
        unsupported_in(ignore, p, es.subrange(0, k)) == unsupported_in(ignore, p, es.subrange(0, j)),
    decreases k - j,
{
    if j < k {
        lemma_unsupported_extend(ignore, p, es, j, k - 1);
        assert(es.subrange(0, k).drop_last() =~= es.subrange(0, k - 1));
    }
}

/// Finds the first unsupported path under `node`, in listing order.
fn find_unsupported(ignore: &Vec<Vec<Vec<u8>>>, path: &Vec<u8>, node: &Node) -> (r: Option<Vec<u8>>)
    ensures
        r matches Some(x) ==> unsupported(ignore_views(ignore), path@, *node) == Some(x@),
        r is None ==> unsupported(ignore_views(ignore), path@, *node) is None,
    decreases node,
{
    let ghost ign = ignore_views(ignore);
    match node {
        Node::File(_) => None,
        Node::Other => Some(vstd::slice::slice_to_vec(path.as_slice())),
        Node::Dir(es) => {
            let mut i: usize = 0;
            assert(es@.subrange(0, 0) =~= seq![]);
            while i < es.len()
                invariant
                    i <= es.len(),
                    ign == ignore_views(ignore),
                    *node == Node::Dir(*es),
                    unsupported_in(ign, path@, es@.subrange(0, i as int)) is None,
                decreases es.len() - i,
            {
                let e = &es[i];
                let ghost cur = es@.subrange(0, i + 1);
                proof {
                    assert(cur.drop_last() =~= es@.subrange(0, i as int));
                    assert(cur.last() == *e);
                    assert(decreases_to!(*node => node->Dir_0));
                    assert(decreases_to!(*es => es@));
                    assert(decreases_to!(es@[i as int] => es@[i as int].node));
                }
                let child_path = join_path(path.as_slice(), e.name.as_slice());
                let comps = split_path(child_path.as_slice());
                if !ignored_components(ignore, &comps) {
                    match find_unsupported(ignore, &child_path, &e.node) {
                        Some(x) => {
                            proof {
                                lemma_unsupported_extend(ign, path@, es@, i + 1, es@.len() as int);
                                assert(es@.subrange(0, es@.len() as int) =~= es@);
                            }
                            return Some(x);
                        },
                        None => {},
                    }
                }
                i = i + 1;
            }
            assert(es@.subrange(0, es@.len() as int) =~= es@);
            None
        },
    }
}

/// Why a snapshot of `root` at `p` cannot be taken, as the offending path:
/// the root itself where it is no directory, else the first unsupported
/// entry under it.
pub open spec fn snapshot_error(ignore: Seq<Seq<Seq<u8>>>, p: Seq<u8>, root: Node) -> Option<Seq<u8>> {
    if root is Dir {
        unsupported(ignore, p, root)
    } else {
        Some(p)
    }
}

/// Stores a snapshot of the directory `root`, found at `path`, leaving out
/// every entry whose path lies under one of `ignore`, and returns the
/// identifier of its tree. Where the snapshot cannot be taken the store is
/// left as it was.
pub fn snapshot(
    store: &mut ObjectStore,
    ignore: &Vec<Vec<Vec<u8>>>,
    path: &[u8],
    root: &Node,
) -> (r: Result<OID, CliError>)
    requires
        old(store).wf(),
    ensures
        final(store).wf(),
        r is Err <==> snapshot_error(ignore_views(ignore), path@, *root) is Some,
        r matches Err(e) ==> e matches CliError::UnsupportedFileType { path: x }
            && snapshot_error(ignore_views(ignore), path@, *root) == Some(x@)
            && final(store)@ == old(store)@,
        r matches Ok(oid) ==> oid@ == oid_of(ObjectType::Tree, node_object(ignore_views(ignore), path@, *root).1)
            && grows(old(store)@, final(store)@, node_records(ignore_views(ignore), path@, *root)),
{
    let root_path = vstd::slice::slice_to_vec(path);
    match root {
        Node::Dir(_) => {},
        _ => {
            return Err(CliError::UnsupportedFileType { path: root_path });
        },
    }
    match find_unsupported(ignore, &root_path, root) {
        Some(x) => Err(CliError::UnsupportedFileType { path: x }),
        None => {
            let (_, oid) = snapshot_node(store, ignore, &root_path, root);
            Ok(oid)
        },
    }
}

/// The tree entry that stands for the directory entry `e` of the directory at `p`.
pub open spec fn entry_of(ignore: Seq<Seq<Seq<u8>>>, p: Seq<u8>, e: DirEntry) -> (ObjectType, Seq<u8>, Seq<u8>) {
    let o = node_object(ignore, join(p, e.name@), e.node);
    (o.0, key_of(oid_of(o.0, o.1)), e.name@)
}

/// Within every directory under `n`, entries have distinct names.
pub open spec fn unique_names(n: Node) -> bool
    decreases n,
{
    match n {
        Node::Dir(es) => {
            &&& forall|i: int, j: int| 0 <= i < j < es@.len() ==> (#[trigger] es@[i]).name@ != (#[trigger] es@[j]).name@
            &&& forall|i: int| 0 <= i < es@.len() ==> unique_names(#[trigger] es@[i].node)
        },
        _ => true,
    }
}

/// Every entry of `a`, found at `pa`, that is not ignored has an entry of
/// the same name in `b`, found at `pb`, that is not ignored either and that
/// it covers in turn; files cover files of the same content.
pub open spec fn covers(ignore: Seq<Seq<Seq<u8>>>, pa: Seq<u8>, a: Node, pb: Seq<u8>, b: Node) -> bool
    decreases a,
{
    match a {
        Node::File(x) => b matches Node::File(y) && x@ == y@,
        Node::Dir(ea) => b matches Node::Dir(eb) && forall|i: int|
            0 <= i < ea@.len() && !skipped(ignore, pa, (#[trigger] ea@[i]).name@) ==> exists|j: int|
                0 <= j < eb@.len() && eb@[j].name@ == ea@[i].name@ && !skipped(ignore, pb, eb@[j].name@) && covers(
                    ignore,
                    join(pa, ea@[i].name@),
                    ea@[i].node,
                    join(pb, eb@[j].name@),
                    eb@[j].node,
                ),
        Node::Other => b is Other,
    }
}

/// The tree entries of a listing are those of its entries that are not
/// ignored.
pub proof fn lemma_child_entries(ignore: Seq<Seq<Seq<u8>>>, p: Seq<u8>, es: Seq<DirEntry>)
    ensures
        forall|x| #[trigger] child_entries(ignore, p, es).contains(x) <==> exists|i: int|
            0 <= i < es.len() && !skipped(ignore, p, es[i].name@) && x == entry_of(ignore, p, es[i]),
        (forall|i: int, j: int| 0 <= i < j < es.len() ==> (#[trigger] es[i]).name@ != (#[trigger] es[j]).name@)
            ==> child_entries(ignore, p, es).no_duplicates(),
        forall|k: int| 0 <= k < child_entries(ignore, p, es).len() ==> exists|i: int|
            0 <= i < es.len() && (#[trigger] child_entries(ignore, p, es)[k]).2 == es[i].name@,
    decreases es.len(),
{
    if es.len() > 0 {
        let t = es.drop_last();
        let e = es.last();
        lemma_child_entries(ignore, p, t);
        let rest = child_entries(ignore, p, t);
        let all = child_entries(ignore, p, es);
        assert forall|x| #[trigger] all.contains(x) <==> exists|i: int|
            0 <= i < es.len() && !skipped(ignore, p, es[i].name@) && x == entry_of(ignore, p, es[i]) by {
            if all.contains(x) {
                if rest.contains(x) {
                    let i = choose|i: int| 0 <= i < t.len() && !skipped(ignore, p, t[i].name@) && x == entry_of(ignore, p, t[i]);
                    assert(es[i] == t[i]);
                } else {
                    let k = choose|k: int| 0 <= k < all.len() && all[k] == x;
                    assert(!skipped(ignore, p, e.name@));
                    assert(all == rest.push(entry_of(ignore, p, e)));
                    if k < rest.len() {
                        assert(rest[k] == x);
                    }
                    assert(es[es.len() - 1] == e);
                }
            }
            if exists|i: int| 0 <= i < es.len() && !skipped(ignore, p, es[i].name@) && x == entry_of(ignore, p, es[i]) {
                let i = choose|i: int| 0 <= i < es.len() && !skipped(ignore, p, es[i].name@) && x == entry_of(ignore, p, es[i]);
                if i < t.len() {
                    assert(t[i] == es[i]);
                    assert(rest.contains(x));
                    let k = choose|k: int| 0 <= k < rest.len() && rest[k] == x;
                    assert(all[k] == x);
                } else {
                    assert(all == rest.push(entry_of(ignore, p, e)));
                    assert(all[rest.len() as int] == x);
                }
            }
        }
        assert forall|k: int| 0 <= k < all.len() implies exists|i: int|
            0 <= i < es.len() && (#[trigger] all[k]).2 == es[i].name@ by {
            if k < rest.len() {
                assert(all[k] == rest[k]);
                let i = choose|i: int| 0 <= i < t.len() && (#[trigger] rest[k]).2 == t[i].name@;
                assert(es[i] == t[i]);
            } else {
                assert(all[k] == entry_of(ignore, p, e));
                assert(es[es.len() - 1] == e);
            }
        }
        if forall|i: int, j: int| 0 <= i < j < es.len() ==> (#[trigger] es[i]).name@ != (#[trigger] es[j]).name@ {
            assert forall|i: int, j: int| 0 <= i < j < t.len() implies (#[trigger] t[i]).name@ != (#[trigger] t[j]).name@ by {
                assert(t[i] == es[i] && t[j] == es[j]);
            }
            if !skipped(ignore, p, e.name@) {
                assert forall|a: int, b: int| 0 <= a < b < all.len() implies all[a] != all[b] by {
                    if b == rest.len() {
                        assert(all[a] == rest[a]);
                        let i = choose|i: int| 0 <= i < t.len() && (#[trigger] rest[a]).2 == t[i].name@;
                        assert(t[i] == es[i]);
                        assert(es[es.len() - 1] == e);
                    } else {
                        assert(all[a] == rest[a] && all[b] == rest[b]);
                    }
                }
            }
        }
    }
}

/// The paths of every entry, at any depth, that a snapshot of `n` at `p`
/// records.
pub open spec fn recorded_paths(ignore: Seq<Seq<Seq<u8>>>, p: Seq<u8>, n: Node) -> Set<Seq<u8>>
    decreases n,
{
    match n {
        Node::Dir(es) => recorded_in(ignore, p, es@),
        _ => Set::empty(),
    }
}

/// The paths that snapshots of the entries `es` of the directory at `p`
/// record.
pub open spec fn recorded_in(ignore: Seq<Seq<Seq<u8>>>, p: Seq<u8>, es: Seq<DirEntry>) -> Set<Seq<u8>>
    decreases es,
{
    if es.len() == 0 {
        Set::empty()
    } else {
        let e = es.last();
        let rest = recorded_in(ignore, p, es.drop_last());
        if skipped(ignore, p, e.name@) {
            rest
        } else {
            rest.insert(join(p, e.name@)).union(recorded_paths(ignore, join(p, e.name@), e.node))
        }
    }
}

} // verus!
