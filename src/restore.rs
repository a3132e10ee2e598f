//! Reading objects back: typed lookups and the restoration of trees.

use vstd::prelude::*;

use crate::bytes::bytes_eq;
use crate::bytes::copy_range;
use crate::error::CliError;
use crate::error::Failure;
use crate::node::DirEntry;
use crate::node::Node;
use crate::object::decode;
use crate::object::decode_record;
use crate::object::ObjectType;
use crate::path::views;
use crate::store::ObjectStore;
use crate::tree::parse_tree;
use crate::tree::parse_tree_payload;

verus! {

/// Whether a caller that lists `expected` accepts kind `t`: an empty list
/// accepts every kind.
pub open spec fn accepts(expected: Seq<ObjectType>, t: ObjectType) -> bool {
    expected.len() == 0 || expected.contains(t)
}

/// The payload of the record under `key`, or why there is none: no record,
/// a record that is no object, or an object of a kind not accepted.
pub open spec fn fetch(store: Map<Seq<u8>, Seq<u8>>, key: Seq<u8>, expected: Seq<ObjectType>) -> Result<Seq<u8>, Failure> {
    if !store.contains_key(key) {
        Err(Failure::NotFound(key))
    } else {
        match decode_record(store[key]) {
            None => Err(Failure::Corrupt(key)),
            Some(d) => if accepts(expected, d.0) {
                Ok(d.1)
            } else {
                Err(Failure::InvalidType(expected, d.0))
            },
        }
    }
}

fn accepts_kind(expected: &[ObjectType], t: ObjectType) -> (r: bool)
    ensures
        r == accepts(expected@, t),
{
    if expected.len() == 0 {
        return true;
    }
    let mut i: usize = 0;
    while i < expected.len()
        invariant
            i <= expected.len(),
            forall|j: int| 0 <= j < i ==> expected@[j] != t,
        decreases expected.len() - i,
    {
        if expected[i] == t {
            assert(expected@.contains(t));
            return true;
        }
        i = i + 1;
    }
    false
}

/// Looks up the record under `key` and returns its payload if its kind is
/// accepted by `expected`.
pub fn fetch_object(store: &ObjectStore, key: &[u8], expected: &[ObjectType]) -> (r: Result<Vec<u8>, CliError>)
    requires
        store.wf(),
    ensures
        r is Ok <==> fetch(store@, key@, expected@) is Ok,
        r matches Ok(v) ==> fetch(store@, key@, expected@) == Ok::<Seq<u8>, Failure>(v@),
        r matches Err(e) ==> fetch(store@, key@, expected@) == Err::<Seq<u8>, Failure>(e@),
{
    let record = match store.get(key) {
        Some(rec) => rec,
        None => {
            return Err(CliError::NotFound { object: vstd::slice::slice_to_vec(key) });
        },
    };
    match decode(record.as_slice()) {
        None => Err(CliError::Corrupt { object: vstd::slice::slice_to_vec(key) }),
        Some((t, payload)) => {
            if accepts_kind(expected, t) {
                Ok(payload)
            } else {
                Err(CliError::InvalidType { expected: vstd::slice::slice_to_vec(expected), found: t })
            }
        },
    }
}

/// The outcome of restoring the tree under `key`, below trees whose keys
/// are `above`: a tree found again below itself is corrupt.
pub open spec fn restore_outcome(store: Map<Seq<u8>, Seq<u8>>, key: Seq<u8>, above: Set<Seq<u8>>) -> Result<(), Failure>
    decreases store.dom().difference(above).len(), 0nat,
    when store.dom().finite()
{
    if above.contains(key) {
        Err(Failure::Corrupt(key))
    } else {
        match fetch(store, key, seq![ObjectType::Tree]) {
            Err(k) => Err(k),
            Ok(p) => match parse_tree(p) {
                None => Err(Failure::Corrupt(key)),
                Some(es) => {
                    proof {
                        lemma_difference_shrinks(store.dom(), above, key);
                    }
                    entries_outcome(store, es, above.insert(key), 0)
                },
            },
        }
    }
}

/// The outcome of restoring the entries `es[i..]` of a tree.
pub open spec fn entries_outcome(
    store: Map<Seq<u8>, Seq<u8>>,
    es: Seq<(ObjectType, Seq<u8>, Seq<u8>)>,
    above: Set<Seq<u8>>,
    i: int,
) -> Result<(), Failure>
    decreases store.dom().difference(above).len(), es.len() - i + 1,
    when store.dom().finite() && 0 <= i
{
    if i >= es.len() {
        Ok(())
    } else {
        let e = es[i];
        let here = match e.0 {
            ObjectType::Blob => match fetch(store, e.1, seq![ObjectType::Blob]) {
                Err(k) => Err(k),
                Ok(_) => Ok(()),
            },
            ObjectType::Tree => restore_outcome(store, e.1, above),
        };
        match here {
            Err(k) => Err(k),
            Ok(_) => entries_outcome(store, es, above, i + 1),
        }
    }
}

/// Taking one more key out leaves fewer keys.
pub proof fn lemma_difference_shrinks(d: Set<Seq<u8>>, above: Set<Seq<u8>>, key: Seq<u8>)
    requires
        d.finite(),
        d.contains(key),
        !above.contains(key),
    ensures
        d.difference(above.insert(key)).len() < d.difference(above).len(),
{
    assert(d.difference(above.insert(key)) =~= d.difference(above).remove(key));
}

/// `n` is the directory restored from the tree under `key`, below trees
/// whose keys are `above`.
pub open spec fn restores(store: Map<Seq<u8>, Seq<u8>>, key: Seq<u8>, above: Set<Seq<u8>>, n: Node) -> bool
    decreases n,
{
    match n {
        Node::Dir(v) => {
            &&& !above.contains(key)
            &&& fetch(store, key, seq![ObjectType::Tree]) is Ok
            &&& parse_tree(fetch(store, key, seq![ObjectType::Tree])->Ok_0) is Some
            &&& restores_entries(store, parse_tree(fetch(store, key, seq![ObjectType::Tree])->Ok_0)->Some_0, above.insert(key), v@)
        },
        _ => false,
    }
}

/// `nodes` are the entries restored from the tree entries `es`, one for one.
pub open spec fn restores_entries(
    store: Map<Seq<u8>, Seq<u8>>,
    es: Seq<(ObjectType, Seq<u8>, Seq<u8>)>,
    above: Set<Seq<u8>>,
    nodes: Seq<DirEntry>,
) -> bool
    decreases nodes,
{
    &&& nodes.len() == es.len()
    &&& nodes.len() > 0 ==> {
        &&& restores_entries(store, es.drop_last(), above, nodes.drop_last())
        &&& nodes.last().name@ == es.last().2
        &&& match es.last().0 {
            ObjectType::Blob => (nodes.last().node matches Node::File(c)
                && fetch(store, es.last().1, seq![ObjectType::Blob]) == Ok::<Seq<u8>, Failure>(c@)),
            ObjectType::Tree => restores(store, es.last().1, above, nodes.last().node),
        }
    }
}

fn contains_key(keys: &Vec<Vec<u8>>, key: &[u8]) -> (r: bool)
    ensures
        r == views(keys@).to_set().contains(key@),
{
    let mut i: usize = 0;
    while i < keys.len()
        invariant
            i <= keys.len(),
            forall|j: int| 0 <= j < i ==> views(keys@)[j] != key@,
        decreases keys.len() - i,
    {
        if bytes_eq(keys[i].as_slice(), key) {
            assert(views(keys@)[i as int] == key@);
            return true;
        }
        i = i + 1;
    }
    false
}

fn copy_keys(keys: &Vec<Vec<u8>>) -> (r: Vec<Vec<u8>>)
    ensures
        views(r@) == views(keys@),
{
    let mut r: Vec<Vec<u8>> = Vec::new();
    let mut i: usize = 0;
    while i < keys.len()
        invariant
            i <= keys.len(),
            views(r@) == views(keys@).subrange(0, i as int),
        decreases keys.len() - i,
    {
        let ghost before = views(r@);
        let k = vstd::slice::slice_to_vec(keys[i].as_slice());
        r.push(k);
        assert(views(r@) =~= before.push(keys@[i as int]@));
        assert(views(r@) =~= views(keys@).subrange(0, i + 1));
        i = i + 1;
    }
    assert(views(keys@).subrange(0, keys@.len() as int) =~= views(keys@));
    r
}

/// Restores the tree under `key`, below the trees whose keys are `above`.
pub(crate) fn restore_tree(store: &ObjectStore, key: &[u8], above: &Vec<Vec<u8>>) -> (r: Result<Node, CliError>)
    requires
        store.wf(),
    ensures
        r is Ok <==> restore_outcome(store@, key@, views(above@).to_set()) is Ok,
        r matches Ok(n) ==> restores(store@, key@, views(above@).to_set(), n),
        r matches Err(e) ==> restore_outcome(store@, key@, views(above@).to_set()) == Err::<(), Failure>(e@),
    decreases store@.dom().difference(views(above@).to_set()).len(), 0nat,
{
    proof {
        store.lemma_finite();
    }
    let ghost up = views(above@).to_set();
    if contains_key(above, key) {
        return Err(CliError::Corrupt { object: vstd::slice::slice_to_vec(key) });
    }
    let tree_kind = [ObjectType::Tree];
    assert(tree_kind@ =~= seq![ObjectType::Tree]);
    let payload = match fetch_object(store, key, &tree_kind) {
        Ok(p) => p,
        Err(e) => {
            return Err(e);
        },
    };
    let entries = match parse_tree_payload(payload.as_slice()) {
        Some(v) => v,
        None => {
            return Err(CliError::Corrupt { object: vstd::slice::slice_to_vec(key) });
        },
    };
    let ghost es = crate::tree::entry_views(entries@);
    let mut below = copy_keys(above);
    below.push(vstd::slice::slice_to_vec(key));
    let ghost up2 = views(below@).to_set();
    assert(views(below@) =~= views(above@).push(key@));
    assert forall|x: Seq<u8>| up2.contains(x) <==> up.insert(key@).contains(x) by {
        let vb = views(below@);
        let va = views(above@);
        if up2.contains(x) {
            let j = choose|j: int| 0 <= j < vb.len() && vb[j] == x;
            if j < va.len() {
                assert(va[j] == x);
                assert(up.contains(x));
            }
        }
        if up.contains(x) {
            let j = choose|j: int| 0 <= j < va.len() && va[j] == x;
            assert(vb[j] == x);
        }
        if x == key@ {
            assert(vb[va.len() as int] == x);
        }
    }
    assert(up2 =~= up.insert(key@));
    assert(restore_outcome(store@, key@, up) == entries_outcome(store@, es, up2, 0));
    proof {
        lemma_difference_shrinks(store@.dom(), up, key@);
    }
    let blob_kind = [ObjectType::Blob];
    assert(blob_kind@ =~= seq![ObjectType::Blob]);
    let mut out: Vec<DirEntry> = Vec::new();
    let mut i: usize = 0;
    assert(es.subrange(0, 0) =~= seq![]);
    assert(out@ =~= seq![]);
    while i < entries.len()
        invariant
            store.wf(),
            store@.dom().finite(),
            i <= entries.len(),
            es == crate::tree::entry_views(entries@),
            up2 == views(below@).to_set(),
            up == views(above@).to_set(),
            up2 == up.insert(key@),
            !up.contains(key@),
            fetch(store@, key@, seq![ObjectType::Tree]) == Ok::<Seq<u8>, Failure>(payload@),
            parse_tree(payload@) == Some(es),
            store@.dom().difference(up2).len() < store@.dom().difference(up).len(),
            blob_kind@ == seq![ObjectType::Blob],
            entries_outcome(store@, es, up2, 0) == entries_outcome(store@, es, up2, i as int),
            restore_outcome(store@, key@, up) == entries_outcome(store@, es, up2, 0),
            restores_entries(store@, es.subrange(0, i as int), up2, out@),
        decreases entries.len() - i,
    {
        let e = &entries[i];
        let ghost pre = es.subrange(0, i as int);
        let ghost cur = es.subrange(0, i + 1);
        assert(cur.drop_last() =~= pre);
        assert(cur.last() == e@);
        assert(es[i as int] == e@);
        let name = copy_range(e.name.as_slice(), 0, e.name.len());
        assert(e.name@.subrange(0, e.name@.len() as int) =~= e.name@);
        let node = match e.kind {
            ObjectType::Blob => match fetch_object(store, e.oid.as_slice(), &blob_kind) {
                Ok(c) => Node::File(c),
                Err(err) => {
                    assert(entries_outcome(store@, es, up2, i as int) == Err::<(), Failure>(err@));
                    return Err(err);
                },
            },
            ObjectType::Tree => match restore_tree(store, e.oid.as_slice(), &below) {
                Ok(n) => n,
                Err(err) => {
                    assert(restore_outcome(store@, e.oid@, up2) == Err::<(), Failure>(err@));
                    assert(entries_outcome(store@, es, up2, i as int) == Err::<(), Failure>(err@));
                    return Err(err);
                },
            },
        };
        let ghost before = out@;
        out.push(DirEntry { name, node });
        proof {
            assert(out@.drop_last() =~= before);
        }
        i = i + 1;
    }
    assert(es.subrange(0, es.len() as int) =~= es);
    Ok(Node::Dir(out))
}

} // verus!
