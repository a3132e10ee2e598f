//! Listing the files of a work tree, skipping repository directories.

use vstd::prelude::*;
use vstd::utf8::encode_utf8;

use crate::bytes::bytes_eq;
use crate::error::CliError;
use crate::node::DirEntry;
use crate::node::Node;
use crate::path::components;
use crate::path::join;
use crate::path::join_path;
use crate::path::split_path;
use crate::path::views;

verus! {

/// The name of a repository directory: `.rustig`.
pub open spec fn repo_dir_name() -> Seq<u8> {
    seq![46u8, 114u8, 117u8, 115u8, 116u8, 105u8, 103u8]
}

/// A path is skipped where one of its components is a repository directory.
pub open spec fn in_repo_dir(p: Seq<u8>) -> bool {
    components(p).contains(repo_dir_name())
}

/// Whether `path` passes through a repository directory.
pub fn is_ignored(path: &str) -> (r: bool)
    ensures
        r == in_repo_dir(encode_utf8(path@)),
{
    is_ignored_bytes(path.as_bytes())
}

/// The paths of the files under the directory `n`, found at `p`, depth
/// first in listing order, leaving out what lies in a repository
/// directory; or the path of the first entry that is neither a file nor a
/// directory, which is an error. A root that is no directory is one too.
pub open spec fn listed_files(p: Seq<u8>, n: Node) -> Result<Seq<Seq<u8>>, Seq<u8>>
    decreases n,
{
    match n {
        Node::Dir(es) => listed_in(p, es@),
        _ => Err(p),
    }
}

/// The listed files of the entries `es` of the directory at `p`.
pub open spec fn listed_in(p: Seq<u8>, es: Seq<DirEntry>) -> Result<Seq<Seq<u8>>, Seq<u8>>
    decreases es,
{
    if es.len() == 0 {
        Ok(seq![])
    } else {
        match listed_in(p, es.drop_last()) {
            Err(x) => Err(x),
            Ok(rest) => {
                let e = es.last();
                let cp = join(p, e.name@);
                if in_repo_dir(cp) {
                    Ok(rest)
                } else {
                    match e.node {
                        Node::File(_) => Ok(rest.push(cp)),
                        Node::Dir(_) => match listed_files(cp, e.node) {
                            Err(x) => Err(x),
                            Ok(sub) => Ok(rest + sub),
                        },
                        Node::Other => Err(cp),
                    }
                }
            },
        }
    }
}

/// Lists the files of the directory `tree` found at `directory`, leaving out
/// those in repository directories. An entry that is neither a file nor a
/// directory is reported as unsupported.
pub fn write_tree(directory: &str, tree: &Node) -> (r: Result<Vec<Vec<u8>>, CliError>)
    ensures
        r matches Ok(v) ==> listed_files(encode_utf8(directory@), *tree) == Ok::<Seq<Seq<u8>>, Seq<u8>>(views(v@)),
        r matches Err(e) ==> (e matches CliError::UnsupportedFileType { path }
            && listed_files(encode_utf8(directory@), *tree) == Err::<Seq<Seq<u8>>, Seq<u8>>(path@)),
        r is Ok <==> listed_files(encode_utf8(directory@), *tree) is Ok,
{
    let mut out: Vec<Vec<u8>> = Vec::new();
    assert(views(out@) =~= seq![]);
    match list_into(&vstd::slice::slice_to_vec(directory.as_bytes()), tree, &mut out) {
        Ok(()) => {
            assert(views(out@) =~= seq![] + listed_files(encode_utf8(directory@), *tree)->Ok_0);
            Ok(out)
        },
        Err(path) => Err(CliError::UnsupportedFileType { path }),
    }
}

fn list_into(p: &Vec<u8>, n: &Node, out: &mut Vec<Vec<u8>>) -> (r: Result<(), Vec<u8>>)
    ensures
        r is Ok <==> listed_files(p@, *n) is Ok,
        r is Ok ==> views(final(out)@) == views(old(out)@) + listed_files(p@, *n)->Ok_0,
        r matches Err(x) ==> listed_files(p@, *n) == Err::<Seq<Seq<u8>>, Seq<u8>>(x@),
    decreases n,
{
    match n {
        Node::Dir(es) => {
            let ghost start = views(out@);
            let mut i: usize = 0;
            assert(es@.subrange(0, 0) =~= seq![]);
            assert(views(out@) =~= start + seq![]);
            while i < es.len()
                invariant
                    i <= es.len(),
                    *n == Node::Dir(*es),
                    listed_in(p@, es@.subrange(0, i as int)) is Ok,
                    views(out@) == start + listed_in(p@, es@.subrange(0, i as int))->Ok_0,
                decreases es.len() - i,
            {
                let e = &es[i];
                let ghost cur = es@.subrange(0, i + 1);
                proof {
                    assert(cur.drop_last() =~= es@.subrange(0, i as int));
                    assert(cur.last() == *e);
                    assert(decreases_to!(*n => n->Dir_0));
                    assert(decreases_to!(*es => es@));
                    assert(decreases_to!(es@[i as int] => es@[i as int].node));
                }
                let cp = join_path(p.as_slice(), e.name.as_slice());
                if !is_ignored_bytes(cp.as_slice()) {
                    let ghost before = views(out@);
                    match &e.node {
                        Node::File(_) => {
                            out.push(cp);
                            assert(views(out@) =~= before.push(cp@));
                        },
                        Node::Dir(_) => {
                            match list_into(&cp, &e.node, out) {
                                Ok(()) => {},
                                Err(x) => {
                                    proof {
                                        lemma_listed_err_extends(p@, es@, i as int + 1, es@.len() as int);
                                        assert(es@.subrange(0, es@.len() as int) =~= es@);
                                    }
                                    return Err(x);
                                },
                            }
                        },
                        Node::Other => {
                            proof {
                                lemma_listed_err_extends(p@, es@, i as int + 1, es@.len() as int);
                                assert(es@.subrange(0, es@.len() as int) =~= es@);
                            }
                            return Err(cp);
                        },
                    }
                    assert(views(out@) =~= start + listed_in(p@, cur)->Ok_0);
                }
                i = i + 1;
            }
            assert(es@.subrange(0, es@.len() as int) =~= es@);
            Ok(())
        },
        _ => Err(vstd::slice::slice_to_vec(p.as_slice())),
    }
}

proof fn lemma_listed_err_extends(p: Seq<u8>, es: Seq<DirEntry>, j: int, k: int)
    requires
        0 <= j <= k <= es.len(),
        listed_in(p, es.subrange(0, j)) is Err,
    ensures
        listed_in(p, es.subrange(0, k)) == listed_in(p, es.subrange(0, j)),
    decreases k - j,
{
    if j < k {
        lemma_listed_err_extends(p, es, j, k - 1);
        assert(es.subrange(0, k).drop_last() =~= es.subrange(0, k - 1));
    }
}

fn is_ignored_bytes(p: &[u8]) -> (r: bool)
    ensures
        r == in_repo_dir(p@),
{
    let name: Vec<u8> = vec![46u8, 114u8, 117u8, 115u8, 116u8, 105u8, 103u8];
    assert(name@ =~= repo_dir_name());
    let comps = split_path(p);
    let mut i: usize = 0;
    while i < comps.len()
        invariant
            i <= comps.len(),
            name@ == repo_dir_name(),
            views(comps@) == components(p@),
            forall|j: int| 0 <= j < i ==> views(comps@)[j] != repo_dir_name(),
        decreases comps.len() - i,
    {
        if bytes_eq(comps[i].as_slice(), name.as_slice()) {
            assert(views(comps@)[i as int] == repo_dir_name());
            return true;
        }
        i = i + 1;
    }
    false
}

} // verus!
