//! Properties that relate several operations of the store and of the
//! snapshot engine.

use vstd::prelude::*;
use vstd::utf8::encode_utf8;

use crate::context::ignore_list_of;
use crate::error::Failure;
use crate::node::DirEntry;
use crate::node::Node;
use crate::object::encode_object;
use crate::object::key_of;
use crate::object::lemma_decode_encode;
use crate::object::ObjectType;
use crate::object::oid_of;
use crate::path::components;
use crate::path::join;
use crate::path::path_ignored;
use crate::restore::accepts;
use crate::restore::fetch;
use crate::restore::restore_outcome;
use crate::restore::restores;
use crate::round_trip::agrees;
use crate::round_trip::digests_distinct;
use crate::round_trip::lemma_holds;
use crate::round_trip::lemma_restore;
use crate::round_trip::plain_names;
use crate::snapshot::child_entries;
use crate::snapshot::lemma_child_entries;
use crate::snapshot::covers;
use crate::snapshot::entry_of;
use crate::snapshot::grows;
use crate::snapshot::node_object;
use crate::snapshot::node_records;
use crate::snapshot::recorded_in;
use crate::snapshot::recorded_paths;
use crate::snapshot::skipped;
use crate::snapshot::snapshot_error;
use crate::snapshot::unique_names;
use crate::tree::lemma_sort_entries;
use crate::tree::lemma_sorted_unique;
use crate::tree::sort_entries;

verus! {

/// The records after storing `payload` as kind `t`: its record is added
/// under its key where that key is free.
pub open spec fn after_put(store: Map<Seq<u8>, Seq<u8>>, t: ObjectType, payload: Seq<u8>) -> Map<Seq<u8>, Seq<u8>> {
    let key = key_of(oid_of(t, payload));
    if store.contains_key(key) {
        store
    } else {
        store.insert(key, encode_object(t, payload))
    }
}

/// Storing a payload twice under the same kind gives the same identifier
/// and leaves the records as the first store left them; fetching that
/// identifier with the kind accepted returns the payload unchanged, where
/// the store held no other record under its key.
pub proof fn law_deterministic_put(
    store: Map<Seq<u8>, Seq<u8>>,
    t: ObjectType,
    payload: Seq<u8>,
    expected: Seq<ObjectType>,
)
    requires
        accepts(expected, t),
        store.contains_key(key_of(oid_of(t, payload))) ==> store[key_of(oid_of(t, payload))] == encode_object(t, payload),
    ensures
        after_put(after_put(store, t, payload), t, payload) == after_put(store, t, payload),
        fetch(after_put(store, t, payload), key_of(oid_of(t, payload)), expected) == Ok::<Seq<u8>, Failure>(payload),
{
    lemma_decode_encode(t, payload);
}

/// A payload stored as a blob cannot be fetched as a tree: the error names
/// the kinds accepted and the blob kind found, where the store held no
/// other record under its key.
pub proof fn law_type_enforced(store: Map<Seq<u8>, Seq<u8>>, payload: Seq<u8>)
    requires
        store.contains_key(key_of(oid_of(ObjectType::Blob, payload))) ==> store[key_of(oid_of(ObjectType::Blob, payload))]
            == encode_object(ObjectType::Blob, payload),
    ensures
        fetch(after_put(store, ObjectType::Blob, payload), key_of(oid_of(ObjectType::Blob, payload)), seq![ObjectType::Tree])
            == Err::<Seq<u8>, Failure>(Failure::InvalidType(seq![ObjectType::Tree], ObjectType::Blob)),
{
    lemma_decode_encode(ObjectType::Blob, payload);
    assert(!seq![ObjectType::Tree].contains(ObjectType::Blob)) by {
        assert(seq![ObjectType::Tree][0] != ObjectType::Blob);
    }
}

/// A key under which nothing was stored is not found, whatever kinds are
/// accepted, and the error names the key.
pub proof fn law_unknown_not_found(store: Map<Seq<u8>, Seq<u8>>, key: Seq<u8>, expected: Seq<ObjectType>)
    requires
        !store.contains_key(key),
    ensures
        fetch(store, key, expected) == Err::<Seq<u8>, Failure>(Failure::NotFound(key)),
{
}

/// Two directories that hold the same entries, by name and content, give
/// the same tree object, whatever order they were listed in and wherever
/// they are found; entries that are ignored play no part.
pub proof fn law_listing_order(ignore: Seq<Seq<Seq<u8>>>, pa: Seq<u8>, a: Node, pb: Seq<u8>, b: Node)
    requires
        unique_names(a),
        unique_names(b),
        covers(ignore, pa, a, pb, b),
        covers(ignore, pb, b, pa, a),
    ensures
        node_object(ignore, pa, a) == node_object(ignore, pb, b),
    decreases a,
{
    match a {
        Node::Dir(ea) => {
            let eb = b->Dir_0;
            let ta = child_entries(ignore, pa, ea@);
            let tb = child_entries(ignore, pb, eb@);
            lemma_child_entries(ignore, pa, ea@);
            lemma_child_entries(ignore, pb, eb@);
            assert forall|x| ta.contains(x) implies tb.contains(x) by {
                let i = choose|i: int| 0 <= i < ea@.len() && !skipped(ignore, pa, ea@[i].name@) && x == entry_of(ignore, pa, ea@[i]);
                assert(decreases_to!(a => a->Dir_0));
                assert(decreases_to!(ea => ea@));
                assert(decreases_to!(ea@ => ea@[i]));
                let j = lemma_same_entry(ignore, pa, a, pb, b, i);
            }
            assert forall|x| tb.contains(x) implies ta.contains(x) by {
                let j = choose|j: int| 0 <= j < eb@.len() && !skipped(ignore, pb, eb@[j].name@) && x == entry_of(ignore, pb, eb@[j]);
                let i = choose|i: int| 0 <= i < ea@.len() && ea@[i].name@ == eb@[j].name@ && !skipped(ignore, pa, ea@[i].name@)
                    && covers(ignore, join(pb, eb@[j].name@), eb@[j].node, join(pa, ea@[i].name@), ea@[i].node);
                assert(decreases_to!(a => a->Dir_0));
                assert(decreases_to!(ea => ea@));
                assert(decreases_to!(ea@ => ea@[i]));
                let j2 = lemma_same_entry(ignore, pa, a, pb, b, i);
                if j2 != j {
                    assert(unique_names(b));
                    if j < j2 {
                        assert(eb@[j].name@ != eb@[j2].name@);
                    } else {
                        assert(eb@[j2].name@ != eb@[j].name@);
                    }
                }
            }
            lemma_sort_entries(ta);
            lemma_sort_entries(tb);
            assert forall|x| sort_entries(ta).contains(x) <==> sort_entries(tb).contains(x) by {
                assert(sort_entries(ta).contains(x) <==> ta.contains(x));
                assert(sort_entries(tb).contains(x) <==> tb.contains(x));
            }
            lemma_sorted_unique(sort_entries(ta), sort_entries(tb));
        },
        _ => {},
    }
}

/// A kept entry of `a` has the same tree entry as the kept entry of `b`
/// that it covers, and the returned index names it.
proof fn lemma_same_entry(ignore: Seq<Seq<Seq<u8>>>, pa: Seq<u8>, a: Node, pb: Seq<u8>, b: Node, i: int) -> (j: int)
    requires
        a is Dir,
        0 <= i < a->Dir_0@.len(),
        !skipped(ignore, pa, a->Dir_0@[i].name@),
        unique_names(a),
        unique_names(b),
        covers(ignore, pa, a, pb, b),
        covers(ignore, pb, b, pa, a),
    ensures
        b is Dir,
        0 <= j < b->Dir_0@.len(),
        !skipped(ignore, pb, b->Dir_0@[j].name@),
        b->Dir_0@[j].name@ == a->Dir_0@[i].name@,
        entry_of(ignore, pa, a->Dir_0@[i]) == entry_of(ignore, pb, b->Dir_0@[j]),
    decreases a->Dir_0@[i],
{
    let ea = a->Dir_0@;
    let eb = b->Dir_0@;
    let j = choose|j: int| 0 <= j < eb.len() && eb[j].name@ == ea[i].name@ && !skipped(ignore, pb, eb[j].name@)
        && covers(ignore, join(pa, ea[i].name@), ea[i].node, join(pb, eb[j].name@), eb[j].node);
    let i2 = choose|i2: int| 0 <= i2 < ea.len() && ea[i2].name@ == eb[j].name@ && !skipped(ignore, pa, ea[i2].name@)
        && covers(ignore, join(pb, eb[j].name@), eb[j].node, join(pa, ea[i2].name@), ea[i2].node);
    if i2 != i {
        if i < i2 {
            assert(ea[i].name@ != ea[i2].name@);
        } else {
            assert(ea[i2].name@ != ea[i].name@);
        }
    }
    assert(unique_names(ea[i].node));
    assert(unique_names(eb[j].node));
    assert(decreases_to!(ea[i] => ea[i].node));
    law_listing_order(ignore, join(pa, ea[i].name@), ea[i].node, join(pb, eb[j].name@), eb[j].node);
    j
}

/// No tree that a snapshot writes lists an ignored entry: every entry of
/// the tree for a directory at `p` names a path under no ignored path.
pub proof fn law_ignored_left_out(ignore: Seq<Seq<Seq<u8>>>, p: Seq<u8>, es: Seq<DirEntry>)
    ensures
        forall|k: int| 0 <= k < sort_entries(child_entries(ignore, p, es)).len()
            ==> !skipped(ignore, p, (#[trigger] sort_entries(child_entries(ignore, p, es))[k]).2),
{
    let t = child_entries(ignore, p, es);
    lemma_child_entries(ignore, p, es);
    lemma_sort_entries(t);
    assert forall|k: int| 0 <= k < sort_entries(t).len() implies !skipped(ignore, p, (#[trigger] sort_entries(t)[k]).2) by {
        let x = sort_entries(t)[k];
        assert(sort_entries(t).contains(x));
        assert(t.contains(x));
        let i = choose|i: int| 0 <= i < es.len() && !skipped(ignore, p, es[i].name@) && x == entry_of(ignore, p, es[i]);
    }
}

/// A snapshot of a work tree never lists the repository directory that
/// lies in it.
pub proof fn law_repository_left_out(work_dir: Seq<char>, repo_dir: Seq<char>, name: Seq<u8>, es: Seq<DirEntry>)
    requires
        encode_utf8(repo_dir) == join(encode_utf8(work_dir), name),
    ensures
        forall|k: int| 0 <= k < sort_entries(child_entries(ignore_list_of(work_dir, repo_dir), encode_utf8(work_dir), es)).len()
            ==> (#[trigger] sort_entries(child_entries(ignore_list_of(work_dir, repo_dir), encode_utf8(work_dir), es))[k]).2 != name,
{
    let ign = ignore_list_of(work_dir, repo_dir);
    let w = encode_utf8(work_dir);
    law_ignored_left_out(ign, w, es);
    assert(ign[0] == components(join(w, name)));
    assert(ign[0].is_prefix_of(components(join(w, name))));
    assert(skipped(ign, w, name));
}

/// No entry that a snapshot records, at any depth, lies under an ignored
/// path.
pub proof fn law_no_ignored_path_recorded(ignore: Seq<Seq<Seq<u8>>>, p: Seq<u8>, n: Node)
    ensures
        forall|q: Seq<u8>| #[trigger] recorded_paths(ignore, p, n).contains(q) ==> !path_ignored(ignore, components(q)),
    decreases n,
{
    match n {
        Node::Dir(es) => {
            assert(decreases_to!(n => n->Dir_0));
            lemma_no_ignored_in(ignore, p, n, es@.len() as int);
            assert(es@.subrange(0, es@.len() as int) =~= es@);
            assert(recorded_in(ignore, p, es@.subrange(0, es@.len() as int)) == recorded_paths(ignore, p, n));
        },
        _ => {},
    }
}

proof fn lemma_no_ignored_in(ignore: Seq<Seq<Seq<u8>>>, p: Seq<u8>, n: Node, k: int)
    requires
        n is Dir,
        0 <= k <= n->Dir_0@.len(),
    ensures
        forall|q: Seq<u8>| #[trigger] recorded_in(ignore, p, n->Dir_0@.subrange(0, k)).contains(q)
            ==> !path_ignored(ignore, components(q)),
    decreases n->Dir_0, k,
{
    let es = n->Dir_0@;
    if k > 0 {
        lemma_no_ignored_in(ignore, p, n, k - 1);
        let cur = es.subrange(0, k);
        assert(cur.drop_last() =~= es.subrange(0, k - 1));
        let e = es[k - 1];
        assert(cur.last() == e);
        assert(decreases_to!(n->Dir_0 => n->Dir_0@));
        assert(decreases_to!(es => es[k - 1]));
        assert(decreases_to!(es[k - 1] => es[k - 1].node));
        law_no_ignored_path_recorded(ignore, join(p, e.name@), e.node);
        assert forall|q: Seq<u8>| #[trigger] recorded_in(ignore, p, cur).contains(q)
            implies !path_ignored(ignore, components(q)) by {
            if !skipped(ignore, p, e.name@) && q != join(p, e.name@)
                && !recorded_in(ignore, p, es.subrange(0, k - 1)).contains(q) {
                assert(recorded_paths(ignore, join(p, e.name@), e.node).contains(q));
            }
        }
    }
}

/// A snapshot of a work tree never records the repository directory, at
/// any depth.
pub proof fn law_repository_never_recorded(work_dir: Seq<char>, repo_dir: Seq<char>, p: Seq<u8>, n: Node)
    ensures
        !recorded_paths(ignore_list_of(work_dir, repo_dir), p, n).contains(encode_utf8(repo_dir)),
{
    let ign = ignore_list_of(work_dir, repo_dir);
    let q = encode_utf8(repo_dir);
    law_no_ignored_path_recorded(ign, p, n);
    assert(ign[0] == components(q));
    assert(ign[0].is_prefix_of(components(q)));
    assert(path_ignored(ign, components(q)));
}

/// Restoring a snapshot gives the directory back. After a snapshot of the
/// directory `root` has grown a store, restoring its tree succeeds, and what
/// comes back holds, under the same names, every entry that was not
/// ignored: files with the same bytes, directories (empty ones too) with
/// the same entries, and nothing else. This holds where no name holds a
/// NUL byte or a newline, the records written have distinct digests, and
/// the store held no other record under any of their keys.
pub proof fn law_round_trip(
    ignore: Seq<Seq<Seq<u8>>>,
    p: Seq<u8>,
    root: Node,
    before: Map<Seq<u8>, Seq<u8>>,
    after: Map<Seq<u8>, Seq<u8>>,
)
    requires
        snapshot_error(ignore, p, root) is None,
        plain_names(root),
        digests_distinct(node_records(ignore, p, root)),
        agrees(before, node_records(ignore, p, root)),
        grows(before, after, node_records(ignore, p, root)),
        after.dom().finite(),
    ensures
        ({
            let key = key_of(oid_of(ObjectType::Tree, node_object(ignore, p, root).1));
            &&& restore_outcome(after, key, Set::empty()) is Ok
            &&& forall|r: Node| restores(after, key, Set::empty(), r)
                ==> covers(ignore, p, root, p, r) && covers(ignore, p, r, p, root)
        }),
{
    let rs = node_records(ignore, p, root);
    lemma_holds(before, after, rs);
    assert(rs.subset_of(rs));
    lemma_restore(ignore, p, root, rs, after, Set::empty());
}

} // verus!
