//! Tree entries: their canonical order and the tree payload format.

use vstd::prelude::*;

use crate::bytes::append_bytes;
use crate::bytes::copy_range;
use crate::bytes::find_byte;
use crate::object::ObjectType;
use crate::object::parse_tag;
use crate::object::tag_bytes;
use crate::object::tag_rank;

verus! {

/// The byte that separates entries in a tree payload.
pub const NEWLINE: u8 = 10;

/// One child of a tree: its kind, the key of its object, and its name.
pub struct TreeEntry {
    pub kind: ObjectType,
    pub oid: Vec<u8>,
    pub name: Vec<u8>,
}

impl View for TreeEntry {
    type V = (ObjectType, Seq<u8>, Seq<u8>);

    open spec fn view(&self) -> (ObjectType, Seq<u8>, Seq<u8>) {
        (self.kind, self.oid@, self.name@)
    }
}

/// The views of a sequence of entries.
pub open spec fn entry_views(v: Seq<TreeEntry>) -> Seq<(ObjectType, Seq<u8>, Seq<u8>)> {
    v.map_values(|e: TreeEntry| e@)
}

/// Lexicographic order on byte sequences; a proper prefix comes first.
pub open spec fn bytes_lt(a: Seq<u8>, b: Seq<u8>) -> bool
    decreases a.len(),
{
    if a.len() == 0 {
        b.len() > 0
    } else if b.len() == 0 {
        false
    } else if a[0] != b[0] {
        a[0] < b[0]
    } else {
        bytes_lt(a.drop_first(), b.drop_first())
    }
}

/// The canonical order of entries: by kind (blobs first), then key, then name.
pub open spec fn entry_lt(a: (ObjectType, Seq<u8>, Seq<u8>), b: (ObjectType, Seq<u8>, Seq<u8>)) -> bool {
    ||| tag_rank(a.0) < tag_rank(b.0)
    ||| (a.0 == b.0 && bytes_lt(a.1, b.1))
    ||| (a.0 == b.0 && a.1 == b.1 && bytes_lt(a.2, b.2))
}

/// Places `e` before the first entry of `s` that does not precede it.
pub open spec fn insert_entry(
    s: Seq<(ObjectType, Seq<u8>, Seq<u8>)>,
    e: (ObjectType, Seq<u8>, Seq<u8>),
) -> Seq<(ObjectType, Seq<u8>, Seq<u8>)>
    decreases s.len(),
{
    if s.len() == 0 {
        seq![e]
    } else if entry_lt(s[0], e) {
        seq![s[0]] + insert_entry(s.drop_first(), e)
    } else {
        seq![e] + s
    }
}

/// Entries in canonical order, by insertion from the last one to the first.
pub open spec fn sort_entries(s: Seq<(ObjectType, Seq<u8>, Seq<u8>)>) -> Seq<(ObjectType, Seq<u8>, Seq<u8>)>
    decreases s.len(),
{
    if s.len() == 0 {
        s
    } else {
        insert_entry(sort_entries(s.drop_first()), s[0])
    }
}

/// One entry of a tree payload: `kind NUL key NUL name`.
pub open spec fn entry_line(e: (ObjectType, Seq<u8>, Seq<u8>)) -> Seq<u8> {
    tag_bytes(e.0) + seq![0u8] + e.1 + seq![0u8] + e.2
}

/// A tree payload: its entries' lines joined by newlines; empty for no entries.
pub open spec fn tree_payload(es: Seq<(ObjectType, Seq<u8>, Seq<u8>)>) -> Seq<u8>
    decreases es.len(),
{
    if es.len() == 0 {
        seq![]
    } else if es.len() == 1 {
        entry_line(es[0])
    } else {
        tree_payload(es.drop_last()) + seq![NEWLINE] + entry_line(es.last())
    }
}

/// The index of the first `b` in `p[i..]`, or the length of `p`.
pub open spec fn next_index(p: Seq<u8>, i: int, b: u8) -> int
    decreases p.len() - i,
{
    if i >= p.len() {
        p.len() as int
    } else if p[i] == b {
        i
    } else {
        next_index(p, i + 1, b)
    }
}

/// The entry that a line holds: exactly three NUL-separated fields, the
/// first a known tag.
pub open spec fn parse_entry(line: Seq<u8>) -> Option<(ObjectType, Seq<u8>, Seq<u8>)> {
    let a = next_index(line, 0, 0);
    let b = next_index(line, a + 1, 0);
    if a < line.len() && b < line.len() && next_index(line, b + 1, 0) == line.len()
        && parse_tag(line.subrange(0, a)) is Some {
        Some((parse_tag(line.subrange(0, a))->0, line.subrange(a + 1, b), line.subrange(b + 1, line.len() as int)))
    } else {
        None
    }
}

/// The entries of the lines of `p` from `i` on, after `acc`, with the
/// current line begun at `start`.
pub open spec fn scan_lines(
    p: Seq<u8>,
    i: int,
    start: int,
    acc: Seq<(ObjectType, Seq<u8>, Seq<u8>)>,
) -> Option<Seq<(ObjectType, Seq<u8>, Seq<u8>)>>
    decreases p.len() - i,
{
    if i >= p.len() {
        match parse_entry(p.subrange(start, p.len() as int)) {
            Some(e) => Some(acc.push(e)),
            None => None,
        }
    } else if p[i] == NEWLINE {
        match parse_entry(p.subrange(start, i)) {
            Some(e) => scan_lines(p, i + 1, i + 1, acc.push(e)),
            None => None,
        }
    } else {
        scan_lines(p, i + 1, start, acc)
    }
}

/// The entries of a tree payload: none for an empty payload, else one per
/// newline-separated line; `None` where a line is malformed.
pub open spec fn parse_tree(p: Seq<u8>) -> Option<Seq<(ObjectType, Seq<u8>, Seq<u8>)>> {
    if p.len() == 0 {
        Some(seq![])
    } else {
        scan_lines(p, 0, 0, seq![])
    }
}

proof fn lemma_bytes_lt_skip(a: Seq<u8>, b: Seq<u8>, i: int)
    requires
        0 <= i <= a.len(),
        i <= b.len(),
        a.subrange(0, i) == b.subrange(0, i),
    ensures
        bytes_lt(a, b) == bytes_lt(a.subrange(i, a.len() as int), b.subrange(i, b.len() as int)),
    decreases i,
{
    if i > 0 {
        assert(a[0] == a.subrange(0, i)[0]);
        assert(b[0] == b.subrange(0, i)[0]);
        assert(a.drop_first().subrange(0, i - 1) =~= a.subrange(0, i).drop_first());
        assert(b.drop_first().subrange(0, i - 1) =~= b.subrange(0, i).drop_first());
        lemma_bytes_lt_skip(a.drop_first(), b.drop_first(), i - 1);
        assert(a.drop_first().subrange(i - 1, a.len() - 1) =~= a.subrange(i, a.len() as int));
        assert(b.drop_first().subrange(i - 1, b.len() - 1) =~= b.subrange(i, b.len() as int));
    } else {
        assert(a.subrange(0, a.len() as int) =~= a);
        assert(b.subrange(0, b.len() as int) =~= b);
    }
}

/// Whether `a` comes before `b` in lexicographic order.
pub fn bytes_less(a: &[u8], b: &[u8]) -> (r: bool)
    ensures
        r == bytes_lt(a@, b@),
{
    let mut i: usize = 0;
    while i < a.len() && i < b.len()
        invariant
            i <= a.len(),
            i <= b.len(),
            a@.subrange(0, i as int) == b@.subrange(0, i as int),
        decreases a.len() - i,
    {
        if a[i] != b[i] {
            proof {
                lemma_bytes_lt_skip(a@, b@, i as int);
                let sa = a@.subrange(i as int, a@.len() as int);
                let sb = b@.subrange(i as int, b@.len() as int);
                assert(sa[0] == a@[i as int]);
                assert(sb[0] == b@[i as int]);
            }
            return a[i] < b[i];
        }
        assert(a@.subrange(0, i + 1) =~= a@.subrange(0, i as int).push(a@[i as int]));
        assert(b@.subrange(0, i + 1) =~= b@.subrange(0, i as int).push(b@[i as int]));
        i = i + 1;
    }
    proof {
        lemma_bytes_lt_skip(a@, b@, i as int);
    }
    i < b.len()
}

/// Whether entry `a` comes before entry `b` in canonical order.
pub fn entry_less(a: &TreeEntry, b: &TreeEntry) -> (r: bool)
    ensures
        r == entry_lt(a@, b@),
{
    let ra: u8 = match a.kind {
        ObjectType::Blob => 0,
        ObjectType::Tree => 1,
    };
    let rb: u8 = match b.kind {
        ObjectType::Blob => 0,
        ObjectType::Tree => 1,
    };
    if ra != rb {
        return ra < rb;
    }
    if bytes_less(a.oid.as_slice(), b.oid.as_slice()) {
        return true;
    }
    if bytes_less(b.oid.as_slice(), a.oid.as_slice()) {
        proof {
            lemma_bytes_lt_asym(b.oid@, a.oid@);
        }
        return false;
    }
    proof {
        lemma_bytes_lt_total(a.oid@, b.oid@);
    }
    bytes_less(a.name.as_slice(), b.name.as_slice())
}

/// No sequence precedes itself, and two never precede each other.
pub proof fn lemma_bytes_lt_asym(a: Seq<u8>, b: Seq<u8>)
    ensures
        !(bytes_lt(a, b) && bytes_lt(b, a)),
        !bytes_lt(a, a),
    decreases a.len(),
{
    if a.len() > 0 && b.len() > 0 {
        lemma_bytes_lt_asym(a.drop_first(), b.drop_first());
    }
    if a.len() > 0 {
        lemma_bytes_lt_asym(a.drop_first(), a.drop_first());
    }
}

/// Of two different sequences one precedes the other.
pub proof fn lemma_bytes_lt_total(a: Seq<u8>, b: Seq<u8>)
    ensures
        a == b || bytes_lt(a, b) || bytes_lt(b, a),
    decreases a.len(),
{
    if a.len() > 0 && b.len() > 0 {
        lemma_bytes_lt_total(a.drop_first(), b.drop_first());
        if a[0] == b[0] && a.drop_first() == b.drop_first() {
            assert(a =~= seq![a[0]] + a.drop_first());
            assert(b =~= seq![b[0]] + b.drop_first());
        }
    } else if a.len() == 0 && b.len() == 0 {
        assert(a =~= b);
    }
}

/// The order on byte sequences is transitive.
pub proof fn lemma_bytes_lt_trans(a: Seq<u8>, b: Seq<u8>, c: Seq<u8>)
    requires
        bytes_lt(a, b),
        bytes_lt(b, c),
    ensures
        bytes_lt(a, c),
    decreases a.len(),
{
    if a.len() > 0 && b.len() > 0 && c.len() > 0 && a[0] == b[0] && b[0] == c[0] {
        lemma_bytes_lt_trans(a.drop_first(), b.drop_first(), c.drop_first());
    }
}

proof fn lemma_insert_at(
    s: Seq<(ObjectType, Seq<u8>, Seq<u8>)>,
    e: (ObjectType, Seq<u8>, Seq<u8>),
    j: int,
)
    requires
        0 <= j <= s.len(),
        forall|k: int| 0 <= k < j ==> entry_lt(#[trigger] s[k], e),
        j < s.len() ==> !entry_lt(s[j], e),
    ensures
        insert_entry(s, e) == s.subrange(0, j) + seq![e] + s.subrange(j, s.len() as int),
    decreases j,
{
    if j == 0 {
        assert(s.subrange(0, s.len() as int) =~= s);
        assert(s.subrange(0, 0) + seq![e] + s =~= seq![e] + s);
    } else {
        let t = s.drop_first();
        assert forall|k: int| 0 <= k < j - 1 implies entry_lt(#[trigger] t[k], e) by {
            assert(t[k] == s[k + 1]);
        }
        assert(entry_lt(s[0], e));
        lemma_insert_at(t, e, j - 1);
        assert(s.subrange(0, j) + seq![e] + s.subrange(j, s.len() as int)
            =~= seq![s[0]] + (t.subrange(0, j - 1) + seq![e] + t.subrange(j - 1, t.len() as int)));
    }
}

/// Sorts entries into canonical order.
pub fn sort_tree_entries(entries: Vec<TreeEntry>) -> (r: Vec<TreeEntry>)
    ensures
        entry_views(r@) == sort_entries(entry_views(entries@)),
{
    let ghost orig = entry_views(entries@);
    let mut rest = entries;
    let mut sorted: Vec<TreeEntry> = Vec::new();
    assert(orig.subrange(orig.len() as int, orig.len() as int) =~= seq![]);
    while rest.len() > 0
        invariant
            rest.len() <= orig.len(),
            entry_views(rest@) == orig.subrange(0, rest.len() as int),
            entry_views(sorted@) == sort_entries(orig.subrange(rest.len() as int, orig.len() as int)),
        decreases rest.len(),
    {
        let ghost n = rest.len();
        let ghost old_rest = rest@;
        let e = rest.pop().unwrap();
        assert(e == old_rest[n - 1]);
        assert(entry_views(old_rest)[n - 1] == orig.subrange(0, n as int)[n - 1]);
        assert(e@ == orig[n - 1]);
        assert(entry_views(rest@) =~= orig.subrange(0, n - 1));
        let mut j: usize = 0;
        while j < sorted.len() && entry_less(&sorted[j], &e)
            invariant
                j <= sorted.len(),
                forall|k: int| 0 <= k < j ==> entry_lt(#[trigger] entry_views(sorted@)[k], e@),
            decreases sorted.len() - j,
        {
            j = j + 1;
        }
        let ghost before = entry_views(sorted@);
        proof {
            lemma_insert_at(before, e@, j as int);
        }
        sorted.insert(j, e);
        proof {
            let tail = orig.subrange(n - 1, orig.len() as int);
            assert(tail.drop_first() =~= orig.subrange(n as int, orig.len() as int));
            assert(tail[0] == e@);
            assert(entry_views(sorted@) =~= before.subrange(0, j as int) + seq![e@] + before.subrange(j as int, before.len() as int));
        }
    }
    assert(orig.subrange(0, orig.len() as int) =~= orig);
    sorted
}

/// Writes the payload of a tree with these entries, in this order.
pub fn encode_tree(entries: &Vec<TreeEntry>) -> (r: Vec<u8>)
    ensures
        r@ == tree_payload(entry_views(entries@)),
{
    let ghost es = entry_views(entries@);
    let mut out: Vec<u8> = Vec::new();
    let mut i: usize = 0;
    while i < entries.len()
        invariant
            i <= entries.len(),
            es == entry_views(entries@),
            out@ == tree_payload(es.subrange(0, i as int)),
        decreases entries.len() - i,
    {
        let ghost prev = out@;
        if i > 0 {
            out.push(NEWLINE);
        }
        let e = &entries[i];
        let tag = e.kind.to_bytes();
        append_bytes(&mut out, tag.as_slice());
        out.push(0u8);
        append_bytes(&mut out, e.oid.as_slice());
        out.push(0u8);
        append_bytes(&mut out, e.name.as_slice());
        proof {
            let s = es.subrange(0, i + 1);
            assert(s.drop_last() =~= es.subrange(0, i as int));
            assert(s.last() == e@);
            if i == 0 {
                assert(out@ =~= entry_line(e@));
            } else {
                assert(out@ =~= prev + seq![NEWLINE] + entry_line(e@));
            }
        }
        i = i + 1;
    }
    assert(es.subrange(0, es.len() as int) =~= es);
    out
}

/// The first `b` at or after `i` is the one at `k` where nothing before it is.
pub proof fn lemma_next_index(p: Seq<u8>, i: int, b: u8, k: int)
    requires
        0 <= i <= k <= p.len(),
        forall|j: int| i <= j < k ==> p[j] != b,
        k == p.len() || p[k] == b,
    ensures
        next_index(p, i, b) == k,
    decreases k - i,
{
    if i < k {
        lemma_next_index(p, i + 1, b, k);
    }
}

/// Reads one entry line; `None` where it is malformed.
pub fn parse_entry_line(line: &[u8]) -> (r: Option<TreeEntry>)
    ensures
        r matches Some(e) ==> parse_entry(line@) == Some(e@),
        r is None ==> parse_entry(line@) is None,
{
    let a = match find_byte(line, 0u8, 0) {
        Some(a) => a,
        None => {
            proof {
                lemma_next_index(line@, 0, 0u8, line@.len() as int);
            }
            return None;
        },
    };
    proof {
        lemma_next_index(line@, 0, 0u8, a as int);
    }
    let b = match find_byte(line, 0u8, a + 1) {
        Some(b) => b,
        None => {
            proof {
                lemma_next_index(line@, a + 1, 0u8, line@.len() as int);
            }
            return None;
        },
    };
    proof {
        lemma_next_index(line@, a + 1, 0u8, b as int);
    }
    match find_byte(line, 0u8, b + 1) {
        Some(c) => {
            proof {
                lemma_next_index(line@, b + 1, 0u8, c as int);
            }
            return None;
        },
        None => {
            proof {
                lemma_next_index(line@, b + 1, 0u8, line@.len() as int);
            }
        },
    }
    let tag = copy_range(line, 0, a);
    let kind = match ObjectType::from_bytes(tag.as_slice()) {
        Some(k) => k,
        None => {
            return None;
        },
    };
    let oid = copy_range(line, a + 1, b);
    let name = copy_range(line, b + 1, line.len());
    Some(TreeEntry { kind, oid, name })
}

/// Reads the entries of a tree payload; `None` where a line is malformed.
pub fn parse_tree_payload(p: &[u8]) -> (r: Option<Vec<TreeEntry>>)
    ensures
        r matches Some(v) ==> parse_tree(p@) == Some(entry_views(v@)),
        r is None ==> parse_tree(p@) is None,
{
    let mut acc: Vec<TreeEntry> = Vec::new();
    if p.len() == 0 {
        assert(entry_views(acc@) =~= seq![]);
        return Some(acc);
    }
    let mut i: usize = 0;
    let mut start: usize = 0;
    assert(entry_views(acc@) =~= seq![]);
    while i < p.len()
        invariant
            start <= i <= p.len(),
            p.len() > 0,
            scan_lines(p@, i as int, start as int, entry_views(acc@)) == parse_tree(p@),
        decreases p.len() - i,
    {
        if p[i] == NEWLINE {
            let line = copy_range(p, start, i);
            match parse_entry_line(line.as_slice()) {
                Some(e) => {
                    let ghost before = entry_views(acc@);
                    acc.push(e);
                    assert(entry_views(acc@) =~= before.push(e@));
                },
                None => {
                    return None;
                },
            }
            start = i + 1;
        }
        i = i + 1;
    }
    let line = copy_range(p, start, p.len());
    match parse_entry_line(line.as_slice()) {
        Some(e) => {
            let ghost before = entry_views(acc@);
            acc.push(e);
            assert(entry_views(acc@) =~= before.push(e@));
            Some(acc)
        },
        None => None,
    }
}

/// The canonical order on entries is a strict total order.
pub proof fn lemma_entry_order(
    a: (ObjectType, Seq<u8>, Seq<u8>),
    b: (ObjectType, Seq<u8>, Seq<u8>),
    c: (ObjectType, Seq<u8>, Seq<u8>),
)
    ensures
        !entry_lt(a, a),
        !(entry_lt(a, b) && entry_lt(b, a)),
        a == b || entry_lt(a, b) || entry_lt(b, a),
        entry_lt(a, b) && entry_lt(b, c) ==> entry_lt(a, c),
{
    lemma_bytes_lt_asym(a.1, b.1);
    lemma_bytes_lt_asym(a.2, b.2);
    lemma_bytes_lt_total(a.1, b.1);
    lemma_bytes_lt_total(a.2, b.2);
    if entry_lt(a, b) && entry_lt(b, c) {
        if a.0 == b.0 && b.0 == c.0 {
            if bytes_lt(a.1, b.1) && bytes_lt(b.1, c.1) {
                lemma_bytes_lt_trans(a.1, b.1, c.1);
            }
            if a.1 == b.1 && b.1 == c.1 {
                lemma_bytes_lt_trans(a.2, b.2, c.2);
            }
        }
    }
    if a.0 == b.0 && a.1 == b.1 && a.2 == b.2 {
        assert(a == b);
    }
}

/// Entries are in order where none precedes an earlier one.
pub open spec fn entries_sorted(s: Seq<(ObjectType, Seq<u8>, Seq<u8>)>) -> bool {
    forall|i: int, j: int| 0 <= i < j < s.len() ==> !entry_lt(#[trigger] s[j], #[trigger] s[i])
}

/// Inserting adds exactly the inserted entry, keeps order, and adds no
/// duplicate where the entry was absent.
pub proof fn lemma_insert_entry(s: Seq<(ObjectType, Seq<u8>, Seq<u8>)>, e: (ObjectType, Seq<u8>, Seq<u8>))
    ensures
        insert_entry(s, e).len() == s.len() + 1,
        forall|x| #[trigger] insert_entry(s, e).contains(x) <==> s.contains(x) || x == e,
        entries_sorted(s) ==> entries_sorted(insert_entry(s, e)),
        s.no_duplicates() && !s.contains(e) ==> insert_entry(s, e).no_duplicates(),
    decreases s.len(),
{
    let r = insert_entry(s, e);
    if s.len() == 0 {
        assert forall|x| #[trigger] r.contains(x) <==> s.contains(x) || x == e by {
            if r.contains(x) {
                assert(r[0] == x);
            }
            if x == e {
                assert(r[0] == e);
            }
        }
    } else if entry_lt(s[0], e) {
        let t = s.drop_first();
        lemma_insert_entry(t, e);
        let it = insert_entry(t, e);
        assert(r == seq![s[0]] + it);
        assert forall|x| #[trigger] r.contains(x) <==> s.contains(x) || x == e by {
            if r.contains(x) {
                let k = choose|k: int| 0 <= k < r.len() && r[k] == x;
                if k > 0 {
                    assert(it[k - 1] == x);
                    assert(it.contains(x));
                    if t.contains(x) {
                        let m = choose|m: int| 0 <= m < t.len() && t[m] == x;
                        assert(s[m + 1] == x);
                    }
                } else {
                    assert(s[0] == x);
                }
            }
            if s.contains(x) {
                let k = choose|k: int| 0 <= k < s.len() && s[k] == x;
                if k == 0 {
                    assert(r[0] == x);
                } else {
                    assert(t[k - 1] == x);
                    assert(t.contains(x));
                    assert(it.contains(x));
                    let m = choose|m: int| 0 <= m < it.len() && it[m] == x;
                    assert(r[m + 1] == x);
                }
            }
            if x == e {
                assert(it.contains(x));
                let m = choose|m: int| 0 <= m < it.len() && it[m] == x;
                assert(r[m + 1] == x);
            }
        }
        if entries_sorted(s) {
            assert(entries_sorted(t)) by {
                assert forall|i: int, j: int| 0 <= i < j < t.len() implies !entry_lt(#[trigger] t[j], #[trigger] t[i]) by {
                    assert(t[i] == s[i + 1] && t[j] == s[j + 1]);
                }
            }
            assert forall|i: int, j: int| 0 <= i < j < r.len() implies !entry_lt(#[trigger] r[j], #[trigger] r[i]) by {
                if i == 0 {
                    assert(r[j] == it[j - 1]);
                    assert(it.contains(r[j]));
                    if r[j] == e {
                        lemma_entry_order(s[0], e, e);
                    } else {
                        assert(t.contains(r[j]));
                        let m = choose|m: int| 0 <= m < t.len() && t[m] == r[j];
                        assert(s[m + 1] == r[j]);
                        assert(!entry_lt(s[m + 1], s[0]));
                    }
                } else {
                    assert(r[i] == it[i - 1] && r[j] == it[j - 1]);
                }
            }
        }
        if s.no_duplicates() && !s.contains(e) {
            assert(t.no_duplicates());
            assert(!t.contains(e)) by {
                if t.contains(e) {
                    let m = choose|m: int| 0 <= m < t.len() && t[m] == e;
                    assert(s[m + 1] == e);
                }
            }
            assert forall|i: int, j: int| 0 <= i < j < r.len() implies r[i] != r[j] by {
                if i == 0 {
                    assert(r[j] == it[j - 1]);
                    assert(it.contains(r[j]));
                    if r[j] == s[0] {
                        if t.contains(r[j]) {
                            let m = choose|m: int| 0 <= m < t.len() && t[m] == r[j];
                            assert(s[m + 1] == s[0]);
                        }
                        assert(r[j] == e);
                        assert(s[0] == e);
                    }
                } else {
                    assert(r[i] == it[i - 1] && r[j] == it[j - 1]);
                }
            }
        }
    } else {
        assert(r == seq![e] + s);
        assert forall|x| #[trigger] r.contains(x) <==> s.contains(x) || x == e by {
            if r.contains(x) {
                let k = choose|k: int| 0 <= k < r.len() && r[k] == x;
                if k > 0 {
                    assert(s[k - 1] == x);
                }
            }
            if s.contains(x) {
                let k = choose|k: int| 0 <= k < s.len() && s[k] == x;
                assert(r[k + 1] == x);
            }
            if x == e {
                assert(r[0] == x);
            }
        }
        if entries_sorted(s) {
            assert forall|i: int, j: int| 0 <= i < j < r.len() implies !entry_lt(#[trigger] r[j], #[trigger] r[i]) by {
                if i == 0 {
                    assert(r[j] == s[j - 1]);
                    lemma_entry_order(s[j - 1], s[0], e);
                    lemma_entry_order(e, s[0], s[j - 1]);
                    if j - 1 > 0 {
                        assert(!entry_lt(s[j - 1], s[0]));
                    }
                    lemma_entry_order(s[j - 1], e, s[0]);
                } else {
                    assert(r[i] == s[i - 1] && r[j] == s[j - 1]);
                }
            }
        }
        if s.no_duplicates() && !s.contains(e) {
            assert forall|i: int, j: int| 0 <= i < j < r.len() implies r[i] != r[j] by {
                if i == 0 {
                    assert(r[j] == s[j - 1]);
                } else {
                    assert(r[i] == s[i - 1] && r[j] == s[j - 1]);
                }
            }
        }
    }
}

/// Sorting keeps the entries, puts them in order, and adds no duplicate.
pub proof fn lemma_sort_entries(s: Seq<(ObjectType, Seq<u8>, Seq<u8>)>)
    ensures
        sort_entries(s).len() == s.len(),
        forall|x| #[trigger] sort_entries(s).contains(x) <==> s.contains(x),
        entries_sorted(sort_entries(s)),
        s.no_duplicates() ==> sort_entries(s).no_duplicates(),
    decreases s.len(),
{
    if s.len() > 0 {
        let t = s.drop_first();
        lemma_sort_entries(t);
        lemma_insert_entry(sort_entries(t), s[0]);
        assert forall|x| #[trigger] sort_entries(s).contains(x) <==> s.contains(x) by {
            if t.contains(x) {
                let m = choose|m: int| 0 <= m < t.len() && t[m] == x;
                assert(s[m + 1] == x);
            }
            if s.contains(x) {
                let k = choose|k: int| 0 <= k < s.len() && s[k] == x;
                if k > 0 {
                    assert(t[k - 1] == x);
                }
            }
        }
        if s.no_duplicates() {
            assert(t.no_duplicates());
            if t.contains(s[0]) {
                let m = choose|m: int| 0 <= m < t.len() && t[m] == s[0];
                assert(s[m + 1] == s[0]);
            }
        }
    }
}

/// Two ordered sequences of distinct entries that hold the same entries
/// are equal.
pub proof fn lemma_sorted_unique(a: Seq<(ObjectType, Seq<u8>, Seq<u8>)>, b: Seq<(ObjectType, Seq<u8>, Seq<u8>)>)
    requires
        entries_sorted(a),
        entries_sorted(b),
        a.no_duplicates(),
        b.no_duplicates(),
        forall|x| a.contains(x) <==> b.contains(x),
    ensures
        a == b,
    decreases a.len(),
{
    if a.len() == 0 {
        if b.len() > 0 {
            assert(b.contains(b[0]));
        }
        assert(a =~= b);
    } else {
        assert(a.contains(a[0]));
        assert(b.len() > 0);
        assert(b.contains(b[0]));
        let k = choose|k: int| 0 <= k < b.len() && b[k] == a[0];
        let m = choose|m: int| 0 <= m < a.len() && a[m] == b[0];
        if k > 0 && m > 0 {
            assert(!entry_lt(b[k], b[0]));
            assert(!entry_lt(a[m], a[0]));
            lemma_entry_order(a[0], b[0], a[0]);
        } else if k > 0 {
            assert(b[0] == a[0]);
        } else if m > 0 {
            assert(a[0] == b[0]);
        }
        assert(a[0] == b[0]);
        let ta = a.drop_first();
        let tb = b.drop_first();
        assert forall|x| ta.contains(x) <==> tb.contains(x) by {
            if ta.contains(x) {
                let i = choose|i: int| 0 <= i < ta.len() && ta[i] == x;
                assert(a[i + 1] == x);
                assert(b.contains(x));
                let j = choose|j: int| 0 <= j < b.len() && b[j] == x;
                if j == 0 {
                    assert(a[0] == a[i + 1]);
                }
                assert(tb[j - 1] == x);
            }
            if tb.contains(x) {
                let j = choose|j: int| 0 <= j < tb.len() && tb[j] == x;
                assert(b[j + 1] == x);
                assert(a.contains(x));
                let i = choose|i: int| 0 <= i < a.len() && a[i] == x;
                if i == 0 {
                    assert(b[0] == b[j + 1]);
                }
                assert(ta[i - 1] == x);
            }
        }
        assert(entries_sorted(ta)) by {
            assert forall|i: int, j: int| 0 <= i < j < ta.len() implies !entry_lt(#[trigger] ta[j], #[trigger] ta[i]) by {
                assert(ta[i] == a[i + 1] && ta[j] == a[j + 1]);
            }
        }
        assert(entries_sorted(tb)) by {
            assert forall|i: int, j: int| 0 <= i < j < tb.len() implies !entry_lt(#[trigger] tb[j], #[trigger] tb[i]) by {
                assert(tb[i] == b[i + 1] && tb[j] == b[j + 1]);
            }
        }
        lemma_sorted_unique(ta, tb);
        assert(a =~= seq![a[0]] + ta);
        assert(b =~= seq![b[0]] + tb);
    }
}

/// Neither the key nor the name of an entry holds a NUL byte or a newline.
pub open spec fn plain_entry(e: (ObjectType, Seq<u8>, Seq<u8>)) -> bool {
    &&& forall|i: int| 0 <= i < e.1.len() ==> #[trigger] e.1[i] != 0 && e.1[i] != NEWLINE
    &&& forall|i: int| 0 <= i < e.2.len() ==> #[trigger] e.2[i] != 0 && e.2[i] != NEWLINE
}

/// A payload of two or more entries is the first entry's line, a newline,
/// and the payload of the rest.
pub proof fn lemma_payload_first(t: Seq<(ObjectType, Seq<u8>, Seq<u8>)>)
    requires
        t.len() >= 2,
    ensures
        tree_payload(t) == entry_line(t[0]) + seq![NEWLINE] + tree_payload(t.drop_first()),
    decreases t.len(),
{
    if t.len() > 2 {
        let dl = t.drop_last();
        let df = t.drop_first();
        lemma_payload_first(dl);
        assert(dl.drop_first() =~= df.drop_last());
        assert(dl[0] == t[0]);
        assert(df.last() == t.last());
        assert(tree_payload(t) == tree_payload(dl) + seq![NEWLINE] + entry_line(t.last()));
        assert(tree_payload(df) == tree_payload(df.drop_last()) + seq![NEWLINE] + entry_line(df.last()));
        assert(tree_payload(t) =~= entry_line(t[0]) + seq![NEWLINE] + tree_payload(df));
    } else {
        let dl = t.drop_last();
        let df = t.drop_first();
        assert(dl =~= seq![t[0]]);
        assert(df =~= seq![t[1]]);
        assert(tree_payload(dl) == entry_line(t[0]));
        assert(tree_payload(df) == entry_line(t[1]));
        assert(t.last() == t[1]);
    }
}

/// An entry's line reads back as the entry.
pub proof fn lemma_parse_entry_line(e: (ObjectType, Seq<u8>, Seq<u8>))
    requires
        plain_entry(e),
    ensures
        parse_entry(entry_line(e)) == Some(e),
{
    let line = entry_line(e);
    let tb = tag_bytes(e.0);
    let a = 4int;
    let b: int = 5 + e.1.len() as int;
    assert(line.len() == 6 + e.1.len() + e.2.len());
    assert forall|j: int| 0 <= j < a implies line[j] != 0u8 by {
        assert(line[j] == tb[j]);
    }
    assert(line[a] == 0u8);
    lemma_next_index(line, 0, 0u8, a);
    assert forall|j: int| a + 1 <= j < b implies line[j] != 0u8 by {
        assert(line[j] == e.1[j - 5]);
    }
    assert(line[b] == 0u8);
    lemma_next_index(line, a + 1, 0u8, b);
    assert forall|j: int| b + 1 <= j < line.len() implies line[j] != 0u8 by {
        assert(line[j] == e.2[j - b - 1]);
    }
    lemma_next_index(line, b + 1, 0u8, line.len() as int);
    assert(line.subrange(0, a) =~= tb);
    assert(line.subrange(a + 1, b) =~= e.1);
    assert(line.subrange(b + 1, line.len() as int) =~= e.2);
}

/// Scanning over bytes that are no newline only moves the position.
proof fn lemma_scan_skip(
    p: Seq<u8>,
    i: int,
    start: int,
    acc: Seq<(ObjectType, Seq<u8>, Seq<u8>)>,
    k: int,
)
    requires
        0 <= start <= i <= k <= p.len(),
        forall|j: int| i <= j < k ==> p[j] != NEWLINE,
    ensures
        scan_lines(p, i, start, acc) == scan_lines(p, k, start, acc),
    decreases k - i,
{
    if i < k {
        lemma_scan_skip(p, i + 1, start, acc, k);
    }
}

proof fn lemma_scan_payload(
    p: Seq<u8>,
    i: int,
    acc: Seq<(ObjectType, Seq<u8>, Seq<u8>)>,
    t: Seq<(ObjectType, Seq<u8>, Seq<u8>)>,
)
    requires
        0 <= i <= p.len(),
        t.len() > 0,
        forall|j: int| 0 <= j < t.len() ==> plain_entry(#[trigger] t[j]),
        p.subrange(i, p.len() as int) == tree_payload(t),
    ensures
        scan_lines(p, i, i, acc) == Some(acc + t),
    decreases t.len(),
{
    let e = t[0];
    let line = entry_line(e);
    let k: int = i + line.len() as int;
    assert(plain_entry(e));
    lemma_parse_entry_line(e);
    if t.len() >= 2 {
        lemma_payload_first(t);
    } else {
        assert(tree_payload(t) == line);
    }
    assert(p.subrange(i, k) =~= line) by {
        assert forall|j: int| 0 <= j < line.len() implies p.subrange(i, k)[j] == line[j] by {
            assert(p.subrange(i, k)[j] == p.subrange(i, p.len() as int)[j]);
        }
    }
    assert forall|j: int| i <= j < k implies p[j] != NEWLINE by {
        assert(p[j] == p.subrange(i, p.len() as int)[j - i]);
        assert(p[j] == line[j - i]);
        let tb = tag_bytes(e.0);
        if j - i < 4 {
            assert(line[j - i] == tb[j - i]);
        } else if j - i == 4 {
        } else if j - i < 5 + e.1.len() {
            assert(line[j - i] == e.1[j - i - 5]);
        } else if j - i == 5 + e.1.len() {
        } else {
            assert(line[j - i] == e.2[j - i - 6 - e.1.len()]);
        }
    }
    lemma_scan_skip(p, i, i, acc, k);
    if t.len() >= 2 {
        let rest = t.drop_first();
        assert(p[k] == p.subrange(i, p.len() as int)[line.len() as int]);
        assert(p[k] == NEWLINE);
        assert(p.subrange(k + 1, p.len() as int) =~= tree_payload(rest)) by {
            let whole = p.subrange(i, p.len() as int);
            assert(whole == line + seq![NEWLINE] + tree_payload(rest));
            assert forall|j: int| 0 <= j < p.len() - k - 1 implies p.subrange(k + 1, p.len() as int)[j] == tree_payload(rest)[j] by {
                assert(p.subrange(k + 1, p.len() as int)[j] == whole[line.len() + 1 + j]);
            }
        }
        assert forall|j: int| 0 <= j < rest.len() implies plain_entry(#[trigger] rest[j]) by {
            assert(rest[j] == t[j + 1]);
        }
        lemma_scan_payload(p, k + 1, acc.push(e), rest);
        assert(acc.push(e) + rest =~= acc + t);
    } else {
        assert(k == p.len());
        assert(acc.push(e) =~= acc + t);
    }
}

/// A payload reads back as the entries it was written from.
pub proof fn lemma_parse_payload(t: Seq<(ObjectType, Seq<u8>, Seq<u8>)>)
    requires
        forall|j: int| 0 <= j < t.len() ==> plain_entry(#[trigger] t[j]),
    ensures
        parse_tree(tree_payload(t)) == Some(t),
{
    let p = tree_payload(t);
    if t.len() == 0 {
        assert(t =~= seq![]);
    } else {
        if t.len() >= 2 {
            lemma_payload_first(t);
        }
        assert(p.len() > 0);
        assert(p.subrange(0, p.len() as int) =~= p);
        lemma_scan_payload(p, 0, seq![], t);
        assert(seq![] + t =~= t);
    }
}

} // verus!
