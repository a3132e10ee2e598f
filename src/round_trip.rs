//! Why restoring a snapshot gives the directory back: the facts about
//! snapshots that the round-trip law rests on.

use vstd::prelude::*;

use crate::digest::sha1_of;
use crate::error::Failure;
use crate::node::DirEntry;
use crate::node::Node;
use crate::object::encode_object;
use crate::object::hex_of;
use crate::object::key_of;
use crate::object::lemma_decode_encode;
use crate::object::lemma_hex_injective;
use crate::object::lemma_key_plain;
use crate::object::ObjectType;
use crate::object::oid_of;
use crate::path::join;
use crate::restore::entries_outcome;
use crate::restore::fetch;
use crate::restore::restore_outcome;
use crate::restore::restores;
use crate::restore::restores_entries;
use crate::snapshot::child_entries;
use crate::snapshot::covers;
use crate::snapshot::entry_of;
use crate::snapshot::grows;
use crate::snapshot::lemma_child_entries;
use crate::snapshot::node_object;
use crate::snapshot::node_records;
use crate::snapshot::record_key;
use crate::snapshot::records_in;
use crate::snapshot::skipped;
use crate::snapshot::unsupported;
use crate::snapshot::unsupported_in;
use crate::tree::lemma_parse_payload;
use crate::tree::lemma_sort_entries;
use crate::tree::plain_entry;
use crate::tree::sort_entries;
use crate::tree::tree_payload;

verus! {

/// No name under `n` holds a NUL byte or a newline.
pub open spec fn plain_names(n: Node) -> bool
    decreases n,
{
    match n {
        Node::Dir(es) => forall|i: int|
            0 <= i < es@.len() ==> {
                &&& forall|j: int| 0 <= j < (#[trigger] es@[i]).name@.len() ==> es@[i].name@[j] != 0 && es@[i].name@[j] != 10
                &&& plain_names(es@[i].node)
            },
        _ => true,
    }
}

/// Different records among `rs` have different digests.
pub open spec fn digests_distinct(rs: Set<Seq<u8>>) -> bool {
    forall|a: Seq<u8>, b: Seq<u8>| rs.contains(a) && rs.contains(b) && sha1_of(a) == sha1_of(b) ==> a == b
}

/// Every record of `rs` is stored under its key.
pub open spec fn holds_all(store: Map<Seq<u8>, Seq<u8>>, rs: Set<Seq<u8>>) -> bool {
    forall|r: Seq<u8>| #[trigger] rs.contains(r) ==> store.contains_key(record_key(r)) && store[record_key(r)] == r
}

/// The record of the object that stands for `n`.
pub open spec fn node_record(ignore: Seq<Seq<Seq<u8>>>, p: Seq<u8>, n: Node) -> Seq<u8> {
    encode_object(node_object(ignore, p, n).0, node_object(ignore, p, n).1)
}

/// The key of the object that stands for `n`.
pub open spec fn node_key(ignore: Seq<Seq<Seq<u8>>>, p: Seq<u8>, n: Node) -> Seq<u8> {
    key_of(oid_of(node_object(ignore, p, n).0, node_object(ignore, p, n).1))
}

/// Equal keys come from equal digests.
pub proof fn lemma_record_key_injective(a: Seq<u8>, b: Seq<u8>)
    requires
        record_key(a) == record_key(b),
    ensures
        sha1_of(a) == sha1_of(b),
{
    vstd::utf8::encode_utf8_decode_utf8(hex_of(sha1_of(a)));
    vstd::utf8::encode_utf8_decode_utf8(hex_of(sha1_of(b)));
    lemma_hex_injective(sha1_of(a), sha1_of(b));
}

/// The store holds no record other than `r` under the key of any `r` of `rs`.
pub open spec fn agrees(store: Map<Seq<u8>, Seq<u8>>, rs: Set<Seq<u8>>) -> bool {
    forall|r: Seq<u8>| #[trigger] rs.contains(r) && store.contains_key(record_key(r)) ==> store[record_key(r)] == r
}

/// Where digests differ, and the store held no other record under their
/// keys, a store grown by records holds each of them.
pub proof fn lemma_holds(before: Map<Seq<u8>, Seq<u8>>, after: Map<Seq<u8>, Seq<u8>>, rs: Set<Seq<u8>>)
    requires
        grows(before, after, rs),
        digests_distinct(rs),
        agrees(before, rs),
    ensures
        holds_all(after, rs),
{
    assert forall|r: Seq<u8>| #[trigger] rs.contains(r) implies after.contains_key(record_key(r)) && after[record_key(r)] == r by {
        let k = record_key(r);
        assert(after.contains_key(k));
        if !before.contains_key(k) {
            let s = after[k];
            assert(rs.contains(s) && record_key(s) == k);
            lemma_record_key_injective(s, r);
        }
    }
}

/// A node that a snapshot can take stores its own record.
pub proof fn lemma_own_record(ignore: Seq<Seq<Seq<u8>>>, p: Seq<u8>, n: Node)
    requires
        unsupported(ignore, p, n) is None,
    ensures
        node_records(ignore, p, n).contains(node_record(ignore, p, n)),
        record_key(node_record(ignore, p, n)) == node_key(ignore, p, n),
{
}

/// What holds of a directory's snapshot holds of each entry it keeps.
pub proof fn lemma_child(ignore: Seq<Seq<Seq<u8>>>, p: Seq<u8>, es: Seq<DirEntry>, i: int)
    requires
        0 <= i < es.len(),
        !skipped(ignore, p, es[i].name@),
    ensures
        node_records(ignore, join(p, es[i].name@), es[i].node).subset_of(records_in(ignore, p, es)),
        unsupported_in(ignore, p, es) is None ==> unsupported(ignore, join(p, es[i].name@), es[i].node) is None,
    decreases es.len(),
{
    if i < es.len() - 1 {
        lemma_child(ignore, p, es.drop_last(), i);
        assert(es.drop_last()[i] == es[i]);
    }
}

/// The height of the tree under `n`: how deep its kept directories nest.
pub open spec fn height(ignore: Seq<Seq<Seq<u8>>>, p: Seq<u8>, n: Node) -> nat
    decreases n,
{
    match n {
        Node::Dir(es) => 1 + height_in(ignore, p, es@),
        _ => 0,
    }
}

/// The greatest height among the kept entries `es` of the directory at `p`.
pub open spec fn height_in(ignore: Seq<Seq<Seq<u8>>>, p: Seq<u8>, es: Seq<DirEntry>) -> nat
    decreases es,
{
    if es.len() == 0 {
        0
    } else {
        let e = es.last();
        let h = height_in(ignore, p, es.drop_last());
        if skipped(ignore, p, e.name@) {
            h
        } else {
            let c = height(ignore, join(p, e.name@), e.node);
            if c > h {
                c
            } else {
                h
            }
        }
    }
}

/// Each kept entry is at most as high as the greatest, which is no higher
/// than any bound of them all.
pub proof fn lemma_height_in(ignore: Seq<Seq<Seq<u8>>>, p: Seq<u8>, es: Seq<DirEntry>, bound: nat)
    ensures
        forall|i: int| 0 <= i < es.len() && !skipped(ignore, p, (#[trigger] es[i]).name@)
            ==> height(ignore, join(p, es[i].name@), es[i].node) <= height_in(ignore, p, es),
        (forall|i: int| 0 <= i < es.len() && !skipped(ignore, p, (#[trigger] es[i]).name@)
            ==> height(ignore, join(p, es[i].name@), es[i].node) <= bound) ==> height_in(ignore, p, es) <= bound,
    decreases es.len(),
{
    if es.len() > 0 {
        let t = es.drop_last();
        lemma_height_in(ignore, p, t, bound);
        assert forall|i: int| 0 <= i < es.len() && !skipped(ignore, p, (#[trigger] es[i]).name@)
            implies height(ignore, join(p, es[i].name@), es[i].node) <= height_in(ignore, p, es) by {
            if i < t.len() {
                assert(t[i] == es[i]);
            }
        }
        if forall|i: int| 0 <= i < es.len() && !skipped(ignore, p, (#[trigger] es[i]).name@)
            ==> height(ignore, join(p, es[i].name@), es[i].node) <= bound {
            assert forall|i: int| 0 <= i < t.len() && !skipped(ignore, p, (#[trigger] t[i]).name@)
                implies height(ignore, join(p, t[i].name@), t[i].node) <= bound by {
                assert(t[i] == es[i]);
            }
            assert(es[es.len() - 1] == es.last());
        }
    }
}

/// The entries of a directory's tree, in canonical order, hold no NUL byte
/// and no newline in their keys and names.
pub proof fn lemma_plain_entries(ignore: Seq<Seq<Seq<u8>>>, p: Seq<u8>, es: Seq<DirEntry>)
    requires
        forall|i: int| 0 <= i < es.len() ==> forall|j: int|
            0 <= j < (#[trigger] es[i]).name@.len() ==> es[i].name@[j] != 0 && es[i].name@[j] != 10,
    ensures
        forall|j: int| 0 <= j < sort_entries(child_entries(ignore, p, es)).len()
            ==> plain_entry(#[trigger] sort_entries(child_entries(ignore, p, es))[j]),
{
    let t = child_entries(ignore, p, es);
    lemma_child_entries(ignore, p, es);
    lemma_sort_entries(t);
    assert forall|j: int| 0 <= j < sort_entries(t).len() implies plain_entry(#[trigger] sort_entries(t)[j]) by {
        let x = sort_entries(t)[j];
        assert(sort_entries(t).contains(x));
        let i = choose|i: int| 0 <= i < es.len() && !skipped(ignore, p, es[i].name@) && x == entry_of(ignore, p, es[i]);
        let o = node_object(ignore, join(p, es[i].name@), es[i].node);
        lemma_key_plain(sha1_of(encode_object(o.0, o.1)));
    }
}

/// Nodes that stand for the same object are equally high, where the
/// records involved have distinct digests.
#[verifier::rlimit(60)]
pub proof fn lemma_same_object_same_height(
    ignore: Seq<Seq<Seq<u8>>>,
    px: Seq<u8>,
    x: Node,
    py: Seq<u8>,
    y: Node,
    rs: Set<Seq<u8>>,
)
    requires
        unsupported(ignore, px, x) is None,
        unsupported(ignore, py, y) is None,
        plain_names(x),
        plain_names(y),
        node_records(ignore, px, x).subset_of(rs),
        node_records(ignore, py, y).subset_of(rs),
        digests_distinct(rs),
        node_object(ignore, px, x) == node_object(ignore, py, y),
    ensures
        height(ignore, px, x) == height(ignore, py, y),
    decreases x,
{
    match x {
        Node::Dir(ex) => {
            let ey = y->Dir_0;
            let ta = child_entries(ignore, px, ex@);
            let tb = child_entries(ignore, py, ey@);
            lemma_plain_entries(ignore, px, ex@);
            lemma_plain_entries(ignore, py, ey@);
            lemma_parse_payload(sort_entries(ta));
            lemma_parse_payload(sort_entries(tb));
            assert(sort_entries(ta) == sort_entries(tb));
            lemma_child_entries(ignore, px, ex@);
            lemma_child_entries(ignore, py, ey@);
            lemma_sort_entries(ta);
            lemma_sort_entries(tb);
            lemma_height_in(ignore, px, ex@, height_in(ignore, py, ey@));
            lemma_height_in(ignore, py, ey@, height_in(ignore, px, ex@));
            assert forall|i: int| 0 <= i < ex@.len() && !skipped(ignore, px, (#[trigger] ex@[i]).name@)
                implies height(ignore, join(px, ex@[i].name@), ex@[i].node) <= height_in(ignore, py, ey@) by {
                let e = entry_of(ignore, px, ex@[i]);
                assert(ta.contains(e));
                assert(sort_entries(ta).contains(e));
                assert(tb.contains(e));
                let j = choose|j: int| 0 <= j < ey@.len() && !skipped(ignore, py, ey@[j].name@) && e == entry_of(ignore, py, ey@[j]);
                assert(decreases_to!(x => x->Dir_0));
                assert(decreases_to!(ex => ex@));
                assert(decreases_to!(ex@ => ex@[i]));
                lemma_pair(ignore, px, ex@, i, py, ey@, j, rs);
            }
            assert forall|j: int| 0 <= j < ey@.len() && !skipped(ignore, py, (#[trigger] ey@[j]).name@)
                implies height(ignore, join(py, ey@[j].name@), ey@[j].node) <= height_in(ignore, px, ex@) by {
                let e = entry_of(ignore, py, ey@[j]);
                assert(tb.contains(e));
                assert(sort_entries(tb).contains(e));
                assert(ta.contains(e));
                let i = choose|i: int| 0 <= i < ex@.len() && !skipped(ignore, px, ex@[i].name@) && e == entry_of(ignore, px, ex@[i]);
                assert(decreases_to!(x => x->Dir_0));
                assert(decreases_to!(ex => ex@));
                assert(decreases_to!(ex@ => ex@[i]));
                lemma_pair(ignore, px, ex@, i, py, ey@, j, rs);
            }
        },
        _ => {},
    }
}

/// Two kept entries with the same tree entry stand for the same object and
/// are equally high.
proof fn lemma_pair(
    ignore: Seq<Seq<Seq<u8>>>,
    px: Seq<u8>,
    ex: Seq<DirEntry>,
    i: int,
    py: Seq<u8>,
    ey: Seq<DirEntry>,
    j: int,
    rs: Set<Seq<u8>>,
)
    requires
        0 <= i < ex.len(),
        0 <= j < ey.len(),
        !skipped(ignore, px, ex[i].name@),
        !skipped(ignore, py, ey[j].name@),
        entry_of(ignore, px, ex[i]) == entry_of(ignore, py, ey[j]),
        unsupported_in(ignore, px, ex) is None,
        unsupported_in(ignore, py, ey) is None,
        plain_names(ex[i].node),
        plain_names(ey[j].node),
        records_in(ignore, px, ex).subset_of(rs),
        records_in(ignore, py, ey).subset_of(rs),
        digests_distinct(rs),
    ensures
        height(ignore, join(px, ex[i].name@), ex[i].node) == height(ignore, join(py, ey[j].name@), ey[j].node),
    decreases ex[i],
{
    let cpx = join(px, ex[i].name@);
    let cpy = join(py, ey[j].name@);
    lemma_child(ignore, px, ex, i);
    lemma_child(ignore, py, ey, j);
    lemma_own_record(ignore, cpx, ex[i].node);
    lemma_own_record(ignore, cpy, ey[j].node);
    let rx = node_record(ignore, cpx, ex[i].node);
    let ry = node_record(ignore, cpy, ey[j].node);
    lemma_record_key_injective(rx, ry);
    assert(rx == ry);
    let ox = node_object(ignore, cpx, ex[i].node);
    let oy = node_object(ignore, cpy, ey[j].node);
    lemma_decode_encode(ox.0, ox.1);
    lemma_decode_encode(oy.0, oy.1);
    assert(decreases_to!(ex[i] => ex[i].node));
    lemma_same_object_same_height(ignore, cpx, ex[i].node, cpy, ey[j].node, rs);
}

/// Every key in `above` is that of a snapshot node higher than `h`.
pub open spec fn above_higher(ignore: Seq<Seq<Seq<u8>>>, rs: Set<Seq<u8>>, above: Set<Seq<u8>>, h: nat) -> bool {
    forall|k: Seq<u8>| #[trigger] above.contains(k) ==> exists|q: Seq<u8>, m: Node|
        {
            &&& unsupported(ignore, q, m) is None
            &&& plain_names(m)
            &&& node_records(ignore, q, m).subset_of(rs)
            &&& node_key(ignore, q, m) == k
            &&& height(ignore, q, m) > h
        }
}

/// The restoration of one tree entry went as the entry says.
pub open spec fn entry_restored(
    store: Map<Seq<u8>, Seq<u8>>,
    x: (ObjectType, Seq<u8>, Seq<u8>),
    above: Set<Seq<u8>>,
    d: Node,
) -> bool {
    match x.0 {
        ObjectType::Blob => d matches Node::File(c) && fetch(store, x.1, seq![ObjectType::Blob]) == Ok::<Seq<u8>, Failure>(c@),
        ObjectType::Tree => restores(store, x.1, above, d),
    }
}

/// The restoration of one tree entry succeeds.
pub open spec fn entry_ok(store: Map<Seq<u8>, Seq<u8>>, x: (ObjectType, Seq<u8>, Seq<u8>), above: Set<Seq<u8>>) -> bool {
    match x.0 {
        ObjectType::Blob => fetch(store, x.1, seq![ObjectType::Blob]) is Ok,
        ObjectType::Tree => restore_outcome(store, x.1, above) is Ok,
    }
}

proof fn lemma_restores_entries(
    store: Map<Seq<u8>, Seq<u8>>,
    es: Seq<(ObjectType, Seq<u8>, Seq<u8>)>,
    above: Set<Seq<u8>>,
    nodes: Seq<DirEntry>,
)
    requires
        restores_entries(store, es, above, nodes),
    ensures
        nodes.len() == es.len(),
        forall|k: int| 0 <= k < nodes.len() ==> (#[trigger] nodes[k]).name@ == es[k].2
            && entry_restored(store, es[k], above, nodes[k].node),
    decreases nodes.len(),
{
    if nodes.len() > 0 {
        lemma_restores_entries(store, es.drop_last(), above, nodes.drop_last());
        assert forall|k: int| 0 <= k < nodes.len() implies (#[trigger] nodes[k]).name@ == es[k].2
            && entry_restored(store, es[k], above, nodes[k].node) by {
            if k < nodes.len() - 1 {
                assert(nodes.drop_last()[k] == nodes[k]);
                assert(es.drop_last()[k] == es[k]);
            }
        }
    }
}

proof fn lemma_entries_ok(
    store: Map<Seq<u8>, Seq<u8>>,
    es: Seq<(ObjectType, Seq<u8>, Seq<u8>)>,
    above: Set<Seq<u8>>,
    i: int,
)
    requires
        store.dom().finite(),
        0 <= i <= es.len(),
        forall|k: int| i <= k < es.len() ==> entry_ok(store, #[trigger] es[k], above),
    ensures
        entries_outcome(store, es, above, i) is Ok,
    decreases es.len() - i,
{
    if i < es.len() {
        lemma_entries_ok(store, es, above, i + 1);
        assert(entry_ok(store, es[i], above));
    }
}

proof fn lemma_above_extend(
    ignore: Seq<Seq<Seq<u8>>>,
    p: Seq<u8>,
    n: Node,
    rs: Set<Seq<u8>>,
    above: Set<Seq<u8>>,
    h: nat,
)
    requires
        unsupported(ignore, p, n) is None,
        plain_names(n),
        node_records(ignore, p, n).subset_of(rs),
        above_higher(ignore, rs, above, height(ignore, p, n)),
        h < height(ignore, p, n),
    ensures
        above_higher(ignore, rs, above.insert(node_key(ignore, p, n)), h),
{
    assert forall|k: Seq<u8>| #[trigger] above.insert(node_key(ignore, p, n)).contains(k) implies exists|q: Seq<u8>, m: Node|
        {
            &&& unsupported(ignore, q, m) is None
            &&& plain_names(m)
            &&& node_records(ignore, q, m).subset_of(rs)
            &&& node_key(ignore, q, m) == k
            &&& height(ignore, q, m) > h
        } by {
        if k == node_key(ignore, p, n) {
        } else {
            assert(above.contains(k));
        }
    }
}

/// The key of a snapshot node is not that of a higher one.
proof fn lemma_not_above(
    ignore: Seq<Seq<Seq<u8>>>,
    p: Seq<u8>,
    n: Node,
    rs: Set<Seq<u8>>,
    above: Set<Seq<u8>>,
)
    requires
        unsupported(ignore, p, n) is None,
        plain_names(n),
        node_records(ignore, p, n).subset_of(rs),
        digests_distinct(rs),
        above_higher(ignore, rs, above, height(ignore, p, n)),
    ensures
        !above.contains(node_key(ignore, p, n)),
{
    let key = node_key(ignore, p, n);
    lemma_own_record(ignore, p, n);
    let rec = node_record(ignore, p, n);
    let o = node_object(ignore, p, n);
    if above.contains(key) {
        let (q, m) = choose|q: Seq<u8>, m: Node| {
            &&& unsupported(ignore, q, m) is None
            &&& plain_names(m)
            &&& node_records(ignore, q, m).subset_of(rs)
            &&& node_key(ignore, q, m) == key
            &&& height(ignore, q, m) > height(ignore, p, n)
        };
        lemma_own_record(ignore, q, m);
        let recm = node_record(ignore, q, m);
        lemma_record_key_injective(recm, rec);
        assert(recm == rec);
        let om = node_object(ignore, q, m);
        lemma_decode_encode(om.0, om.1);
        lemma_decode_encode(o.0, o.1);
        lemma_same_object_same_height(ignore, q, m, p, n, rs);
    }
}

/// Each kept entry of a directory restores from its tree entry, as what
/// covers it both ways.
pub open spec fn children_restore(
    ignore: Seq<Seq<Seq<u8>>>,
    p: Seq<u8>,
    es: Seq<DirEntry>,
    store: Map<Seq<u8>, Seq<u8>>,
    above: Set<Seq<u8>>,
) -> bool {
    forall|i: int| 0 <= i < es.len() && !skipped(ignore, p, (#[trigger] es[i]).name@) ==> {
        &&& entry_ok(store, entry_of(ignore, p, es[i]), above)
        &&& forall|d: Node| entry_restored(store, entry_of(ignore, p, es[i]), above, d)
            ==> covers(ignore, join(p, es[i].name@), es[i].node, join(p, es[i].name@), d) && covers(ignore, join(p, es[i].name@), d, join(p, es[i].name@), es[i].node)
    }
}

proof fn lemma_children_restore(
    ignore: Seq<Seq<Seq<u8>>>,
    p: Seq<u8>,
    n: Node,
    rs: Set<Seq<u8>>,
    store: Map<Seq<u8>, Seq<u8>>,
    above: Set<Seq<u8>>,
)
    requires
        n is Dir,
        unsupported(ignore, p, n) is None,
        plain_names(n),
        node_records(ignore, p, n).subset_of(rs),
        digests_distinct(rs),
        holds_all(store, rs),
        store.dom().finite(),
        above_higher(ignore, rs, above, height(ignore, p, n)),
    ensures
        children_restore(ignore, p, n->Dir_0@, store, above.insert(node_key(ignore, p, n))),
    decreases n->Dir_0,
{
    let v = n->Dir_0;
    let es = v@;
    let above2 = above.insert(node_key(ignore, p, n));
    lemma_height_in(ignore, p, es, 0);
    assert forall|i: int| 0 <= i < es.len() && !skipped(ignore, p, (#[trigger] es[i]).name@) implies {
        &&& entry_ok(store, entry_of(ignore, p, es[i]), above2)
        &&& forall|d: Node| entry_restored(store, entry_of(ignore, p, es[i]), above2, d)
            ==> covers(ignore, join(p, es[i].name@), es[i].node, join(p, es[i].name@), d) && covers(ignore, join(p, es[i].name@), d, join(p, es[i].name@), es[i].node)
    } by {
        lemma_above_extend(ignore, p, n, rs, above, height(ignore, join(p, es[i].name@), es[i].node));
        assert(decreases_to!(v => v@));
        assert(decreases_to!(es => es[i]));
        lemma_restore_child(ignore, p, n, i, rs, store, above2);
    }
}

proof fn lemma_restored_covers(
    ignore: Seq<Seq<Seq<u8>>>,
    p: Seq<u8>,
    n: Node,
    store: Map<Seq<u8>, Seq<u8>>,
    above2: Set<Seq<u8>>,
    r: Node,
)
    requires
        n is Dir,
        r is Dir,
        children_restore(ignore, p, n->Dir_0@, store, above2),
        restores_entries(store, sort_entries(child_entries(ignore, p, n->Dir_0@)), above2, r->Dir_0@),
    ensures
        covers(ignore, p, n, p, r),
        covers(ignore, p, r, p, n),
{
    let es = n->Dir_0@;
    let ta = child_entries(ignore, p, es);
    let st = sort_entries(ta);
    let w = r->Dir_0;
    lemma_child_entries(ignore, p, es);
    lemma_sort_entries(ta);
    lemma_restores_entries(store, st, above2, w@);
    assert forall|i: int| 0 <= i < es.len() && !skipped(ignore, p, (#[trigger] es[i]).name@) implies exists|j: int|
        0 <= j < w@.len() && w@[j].name@ == es[i].name@ && !skipped(ignore, p, w@[j].name@) && covers(ignore, join(p, es[i].name@), es[i].node, join(p, es[i].name@), w@[j].node) by {
        let x = entry_of(ignore, p, es[i]);
        assert(ta.contains(x));
        assert(st.contains(x));
        let k = choose|k: int| 0 <= k < st.len() && st[k] == x;
        assert(entry_restored(store, st[k], above2, w@[k].node));
        assert(w@[k].name@ == es[i].name@);
    }
    assert forall|j: int| 0 <= j < w@.len() && !skipped(ignore, p, (#[trigger] w@[j]).name@) implies exists|i: int|
        0 <= i < es.len() && es[i].name@ == w@[j].name@ && !skipped(ignore, p, es[i].name@) && covers(ignore, join(p, w@[j].name@), w@[j].node, join(p, w@[j].name@), es[i].node) by {
        assert(entry_restored(store, st[j], above2, w@[j].node));
        assert(st.contains(st[j]));
        assert(ta.contains(st[j]));
        let i = choose|i: int| 0 <= i < es.len() && !skipped(ignore, p, es[i].name@) && st[j] == entry_of(ignore, p, es[i]);
        assert(w@[j].name@ == es[i].name@);
    }
}

/// A tree that a snapshot stored restores, and what comes back covers the
/// directory both ways.
pub proof fn lemma_restore(
    ignore: Seq<Seq<Seq<u8>>>,
    p: Seq<u8>,
    n: Node,
    rs: Set<Seq<u8>>,
    store: Map<Seq<u8>, Seq<u8>>,
    above: Set<Seq<u8>>,
)
    requires
        n is Dir,
        unsupported(ignore, p, n) is None,
        plain_names(n),
        node_records(ignore, p, n).subset_of(rs),
        digests_distinct(rs),
        holds_all(store, rs),
        store.dom().finite(),
        above_higher(ignore, rs, above, height(ignore, p, n)),
    ensures
        restore_outcome(store, node_key(ignore, p, n), above) is Ok,
        forall|r: Node| restores(store, node_key(ignore, p, n), above, r)
            ==> covers(ignore, p, n, p, r) && covers(ignore, p, r, p, n),
    decreases n,
{
    let es = n->Dir_0@;
    let key = node_key(ignore, p, n);
    let st = sort_entries(child_entries(ignore, p, es));
    let o = node_object(ignore, p, n);
    lemma_not_above(ignore, p, n, rs, above);
    lemma_own_record(ignore, p, n);
    assert(store[key] == node_record(ignore, p, n));
    lemma_decode_encode(o.0, o.1);
    assert(seq![ObjectType::Tree].contains(ObjectType::Tree)) by {
        assert(seq![ObjectType::Tree][0] == ObjectType::Tree);
    }
    assert(fetch(store, key, seq![ObjectType::Tree]) == Ok::<Seq<u8>, Failure>(tree_payload(st)));
    lemma_plain_entries(ignore, p, es);
    lemma_parse_payload(st);
    let above2 = above.insert(key);
    assert(decreases_to!(n => n->Dir_0));
    lemma_children_restore(ignore, p, n, rs, store, above);
    lemma_child_entries(ignore, p, es);
    lemma_sort_entries(child_entries(ignore, p, es));
    assert forall|k: int| 0 <= k < st.len() implies entry_ok(store, #[trigger] st[k], above2) by {
        assert(st.contains(st[k]));
        assert(child_entries(ignore, p, es).contains(st[k]));
        let i = choose|i: int| 0 <= i < es.len() && !skipped(ignore, p, es[i].name@) && st[k] == entry_of(ignore, p, es[i]);
    }
    lemma_entries_ok(store, st, above2, 0);
    assert forall|r: Node| restores(store, key, above, r) implies covers(ignore, p, n, p, r) && covers(ignore, p, r, p, n) by {
        lemma_restored_covers(ignore, p, n, store, above2, r);
    }
}

proof fn lemma_restore_child(
    ignore: Seq<Seq<Seq<u8>>>,
    p: Seq<u8>,
    n: Node,
    i: int,
    rs: Set<Seq<u8>>,
    store: Map<Seq<u8>, Seq<u8>>,
    above: Set<Seq<u8>>,
)
    requires
        n is Dir,
        0 <= i < n->Dir_0@.len(),
        !skipped(ignore, p, n->Dir_0@[i].name@),
        unsupported(ignore, p, n) is None,
        plain_names(n),
        node_records(ignore, p, n).subset_of(rs),
        digests_distinct(rs),
        holds_all(store, rs),
        store.dom().finite(),
        above_higher(ignore, rs, above, height(ignore, join(p, n->Dir_0@[i].name@), n->Dir_0@[i].node)),
    ensures
        ({
            let e = n->Dir_0@[i];
            let x = entry_of(ignore, p, e);
            &&& entry_ok(store, x, above)
            &&& forall|d: Node| entry_restored(store, x, above, d) ==>
                covers(ignore, join(p, e.name@), e.node, join(p, e.name@), d) && covers(ignore, join(p, e.name@), d, join(p, e.name@), e.node)
        }),
    decreases n->Dir_0@[i],
{
    let es = n->Dir_0@;
    let e = es[i];
    let cp = join(p, e.name@);
    let c = e.node;
    let x = entry_of(ignore, p, e);
    lemma_child(ignore, p, es, i);
    assert(plain_names(c));
    lemma_own_record(ignore, cp, c);
    let oc = node_object(ignore, cp, c);
    lemma_decode_encode(oc.0, oc.1);
    assert(node_records(ignore, p, n) == records_in(ignore, p, es).insert(node_record(ignore, p, n)));
    match c {
        Node::File(b) => {
            let rc = node_record(ignore, cp, c);
            assert(node_records(ignore, cp, c).contains(rc));
            assert(records_in(ignore, p, es).contains(rc));
            assert(node_records(ignore, p, n).contains(rc));
            assert(rs.contains(rc));
            assert(x.1 == record_key(rc));
            assert(store[x.1] == rc);
            assert(seq![ObjectType::Blob].contains(ObjectType::Blob)) by {
                assert(seq![ObjectType::Blob][0] == ObjectType::Blob);
            }
            assert(fetch(store, x.1, seq![ObjectType::Blob]) == Ok::<Seq<u8>, Failure>(b@));
        },
        Node::Dir(_) => {
            assert(decreases_to!(e => e.node));
            lemma_restore(ignore, cp, c, rs, store, above);
        },
        Node::Other => {},
    }
}

} // verus!
