//! Paths as sequences of components, and the ignore filter.

use vstd::prelude::*;

use crate::bytes::bytes_eq;

verus! {

/// The byte `/`.
pub const SEPARATOR: u8 = 47;

/// The byte `.`.
pub const DOT: u8 = 46;

/// Adds a finished segment to the components read so far: empty segments
/// and `.` name no component.
pub open spec fn push_segment(acc: Seq<Seq<u8>>, seg: Seq<u8>) -> Seq<Seq<u8>> {
    if seg.len() == 0 || seg == seq![DOT] {
        acc
    } else {
        acc.push(seg)
    }
}

/// The components of `p[i..]`, after `acc` and with `cur` the segment begun
/// so far.
pub open spec fn split_from(p: Seq<u8>, i: int, acc: Seq<Seq<u8>>, cur: Seq<u8>) -> Seq<Seq<u8>>
    decreases p.len() - i,
{
    if i >= p.len() {
        push_segment(acc, cur)
    } else if p[i] == SEPARATOR {
        split_from(p, i + 1, push_segment(acc, cur), seq![])
    } else {
        split_from(p, i + 1, acc, cur.push(p[i]))
    }
}

/// The components of a path: its `/`-separated segments, without empty
/// ones and `.`. An absolute path begins with the empty component, which
/// stands for the root.
pub open spec fn components(p: Seq<u8>) -> Seq<Seq<u8>> {
    if p.len() > 0 && p[0] == SEPARATOR {
        split_from(p, 1, seq![seq![]], seq![])
    } else {
        split_from(p, 0, seq![], seq![])
    }
}

/// A path lies under an ignored one where the latter's components begin it.
pub open spec fn path_ignored(ignore: Seq<Seq<Seq<u8>>>, comps: Seq<Seq<u8>>) -> bool {
    exists|i: int| 0 <= i < ignore.len() && (#[trigger] ignore[i]).is_prefix_of(comps)
}

/// The byte sequences that a vector of byte vectors holds.
pub open spec fn views(v: Seq<Vec<u8>>) -> Seq<Seq<u8>> {
    v.map_values(|x: Vec<u8>| x@)
}

/// The component lists that a vector of component vectors holds.
pub open spec fn views2(v: Seq<Vec<Vec<u8>>>) -> Seq<Seq<Seq<u8>>> {
    v.map_values(|x: Vec<Vec<u8>>| views(x@))
}

/// The path `p/name`.
pub open spec fn join(p: Seq<u8>, name: Seq<u8>) -> Seq<u8> {
    p + seq![SEPARATOR] + name
}

fn is_dot(seg: &Vec<u8>) -> (r: bool)
    ensures
        r == (seg@ == seq![DOT]),
{
    if seg.len() == 1 && seg[0] == DOT {
        assert(seg@ =~= seq![DOT]);
        true
    } else {
        false
    }
}

/// Splits a path into its components.
pub fn split_path(p: &[u8]) -> (r: Vec<Vec<u8>>)
    ensures
        views(r@) == components(p@),
{
    let mut acc: Vec<Vec<u8>> = Vec::new();
    let mut cur: Vec<u8> = Vec::new();
    let mut i: usize = 0;
    if p.len() > 0 && p[0] == SEPARATOR {
        acc.push(Vec::new());
        i = 1;
        assert(views(acc@) =~= seq![seq![]]);
    } else {
        assert(views(acc@) =~= seq![]);
    }
    assert(cur@ =~= seq![]);
    while i < p.len()
        invariant
            i <= p.len(),
            split_from(p@, i as int, views(acc@), cur@) == components(p@),
        decreases p.len() - i,
    {
        if p[i] == SEPARATOR {
            let ghost before = views(acc@);
            if cur.len() > 0 && !is_dot(&cur) {
                acc.push(cur);
                assert(views(acc@) =~= before.push(cur@));
            }
            cur = Vec::new();
            assert(cur@ =~= seq![]);
        } else {
            cur.push(p[i]);
        }
        i = i + 1;
    }
    let ghost before = views(acc@);
    if cur.len() > 0 && !is_dot(&cur) {
        acc.push(cur);
        assert(views(acc@) =~= before.push(cur@));
    }
    acc
}

/// Whether the components `a` begin the components `b`.
pub fn components_prefix(a: &Vec<Vec<u8>>, b: &Vec<Vec<u8>>) -> (r: bool)
    ensures
        r == views(a@).is_prefix_of(views(b@)),
{
    if a.len() > b.len() {
        return false;
    }
    let mut i: usize = 0;
    while i < a.len()
        invariant
            i <= a.len() <= b.len(),
            forall|j: int| 0 <= j < i ==> views(a@)[j] == views(b@)[j],
        decreases a.len() - i,
    {
        if !bytes_eq(a[i].as_slice(), b[i].as_slice()) {
            assert(views(a@)[i as int] != views(b@)[i as int]);
            return false;
        }
        i = i + 1;
    }
    assert(views(a@) =~= views(b@).subrange(0, views(a@).len() as int));
    true
}

/// Whether the path with components `comps` lies under one of `ignore`.
pub fn ignored_components(ignore: &Vec<Vec<Vec<u8>>>, comps: &Vec<Vec<u8>>) -> (r: bool)
    ensures
        r == path_ignored(views2(ignore@), views(comps@)),
{
    let mut i: usize = 0;
    while i < ignore.len()
        invariant
            i <= ignore.len(),
            forall|j: int| 0 <= j < i ==> !(#[trigger] views2(ignore@)[j]).is_prefix_of(views(comps@)),
        decreases ignore.len() - i,
    {
        if components_prefix(&ignore[i], comps) {
            assert(views2(ignore@)[i as int] == views(ignore@[i as int]@));
            return true;
        }
        assert(views2(ignore@)[i as int] == views(ignore@[i as int]@));
        i = i + 1;
    }
    false
}

/// Builds `p/name`.
pub fn join_path(p: &[u8], name: &[u8]) -> (r: Vec<u8>)
    ensures
        r@ == join(p@, name@),
{
    let mut r = vstd::slice::slice_to_vec(p);
    r.push(SEPARATOR);
    crate::bytes::append_bytes(&mut r, name);
    r
}

} // verus!
