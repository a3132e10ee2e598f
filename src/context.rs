//! A repository: where its work tree and its objects are, and the
//! operations on both.

use vstd::prelude::*;
use vstd::string::StrSliceExecFns;
use vstd::string::StringExecFns;
use vstd::utf8::encode_utf8;

use crate::error::CliError;
use crate::error::Failure;
use crate::node::Node;
use crate::object::encode_object;
use crate::object::key_of;
use crate::object::ObjectType;
use crate::object::OID;
use crate::object::oid_of;
use crate::path::components;
use crate::path::ignored_components;
use crate::path::join;
use crate::path::join_path;
use crate::path::path_ignored;
use crate::path::split_path;
use crate::path::views2;
use crate::path::views;
use crate::restore::fetch;
use crate::restore::fetch_object;
use crate::restore::restore_outcome;
use crate::restore::restore_tree;
use crate::restore::restores;
use crate::snapshot::grows;
use crate::snapshot::node_object;
use crate::snapshot::node_records;
use crate::snapshot::snapshot;
use crate::snapshot::snapshot_error;
use crate::store::ObjectStore;

verus! {

/// The name of the directory, under the work tree, that build outputs go to.
pub open spec fn target_name() -> Seq<u8> {
    seq![116u8, 97u8, 114u8, 103u8, 101u8, 116u8]
}

/// The name of another tool's repository directory.
pub open spec fn git_name() -> Seq<u8> {
    seq![46u8, 103u8, 105u8, 116u8]
}

/// The paths that snapshots leave out: the repository itself, and the
/// work tree's `target` and `.git` directories.
pub open spec fn ignore_paths_of(work_dir: Seq<char>, repo_dir: Seq<char>) -> Seq<Seq<u8>> {
    let work = encode_utf8(work_dir);
    seq![encode_utf8(repo_dir), join(work, target_name()), join(work, git_name())]
}

/// The ignored paths as component lists.
pub open spec fn ignore_list_of(work_dir: Seq<char>, repo_dir: Seq<char>) -> Seq<Seq<Seq<u8>>> {
    ignore_paths_of(work_dir, repo_dir).map_values(|p: Seq<u8>| components(p))
}

/// A repository: a work tree, and a store of objects that is ready once
/// the repository has been initialised.
pub struct Context {
    /// The directory whose snapshots are taken.
    pub work_dir: String,
    /// The directory that holds the repository's objects.
    pub repo_dir: String,
    /// The repository's records; `None` until it is initialised.
    pub objects: Option<ObjectStore>,
}

impl Context {
    /// The store, where there is one, is well formed.
    pub open spec fn wf(&self) -> bool {
        self.objects matches Some(s) ==> s.wf()
    }

    /// Whether the repository has been initialised.
    pub open spec fn ready(&self) -> bool {
        self.objects is Some
    }

    /// The records of the repository, by key.
    pub open spec fn objects(&self) -> Map<Seq<u8>, Seq<u8>> {
        match self.objects {
            Some(s) => s@,
            None => Map::empty(),
        }
    }

    /// The paths that snapshots of this repository leave out.
    pub open spec fn ignore_list(&self) -> Seq<Seq<Seq<u8>>> {
        ignore_list_of(self.work_dir@, self.repo_dir@)
    }

    /// A repository that has not been initialised.
    pub fn new(work_dir: String, repo_dir: String) -> (r: Context)
        ensures
            r.wf(),
            !r.ready(),
            r.work_dir@ == work_dir@,
            r.repo_dir@ == repo_dir@,
    {
        Context { work_dir, repo_dir, objects: None }
    }

    /// An initialised repository whose records are those of `store`.
    pub fn open(work_dir: String, repo_dir: String, store: ObjectStore) -> (r: Context)
        requires
            store.wf(),
        ensures
            r.wf(),
            r.ready(),
            r.objects() == store@,
            r.work_dir@ == work_dir@,
            r.repo_dir@ == repo_dir@,
    {
        Context { work_dir, repo_dir, objects: Some(store) }
    }

    /// The store, where the repository is initialised.
    pub fn store(&self) -> (r: Option<&ObjectStore>)
        requires
            self.wf(),
        ensures
            r is Some <==> self.ready(),
            r matches Some(s) ==> s.wf() && s@ == self.objects(),
    {
        match &self.objects {
            Some(s) => Some(s),
            None => None,
        }
    }

    /// Fails with `NotInitialized` unless the repository is initialised.
    pub fn ensure_init(&self) -> (r: Result<(), CliError>)
        ensures
            r is Ok <==> self.ready(),
            r matches Err(e) ==> e is NotInitialized,
    {
        match &self.objects {
            Some(_) => Ok(()),
            None => Err(CliError::NotInitialized),
        }
    }

    /// Initialises the repository, keeping any records it already has, and
    /// returns the repository's directory.
    pub fn init(&mut self) -> (r: Result<String, CliError>)
        requires
            old(self).wf(),
        ensures
            final(self).wf(),
            final(self).ready(),
            old(self).ready() ==> final(self).objects() == old(self).objects(),
            !old(self).ready() ==> final(self).objects() == Map::<Seq<u8>, Seq<u8>>::empty(),
            final(self).work_dir == old(self).work_dir,
            final(self).repo_dir == old(self).repo_dir,
            r matches Ok(s) && s@ == old(self).repo_dir@,
    {
        if self.objects.is_none() {
            self.objects = Some(ObjectStore::new());
        }
        Ok(self.repo_dir.clone())
    }

    /// The directory, under the repository's, that holds its objects: the
    /// repository's path joined with `objects`, adding a separator only
    /// where the path is not empty and does not end in one.
    pub fn obj_dir(&self) -> (r: String)
        ensures
            r@ == (if self.repo_dir@.len() == 0 {
                "objects"@
            } else if self.repo_dir@.last() == '/' {
                self.repo_dir@ + "objects"@
            } else {
                self.repo_dir@ + "/objects"@
            }),
    {
        let base = self.repo_dir.as_str();
        let n = base.unicode_len();
        if n == 0 {
            String::from_str("objects")
        } else if base.get_char(n - 1) == '/' {
            self.repo_dir.clone().concat("objects")
        } else {
            self.repo_dir.clone().concat("/objects")
        }
    }

    fn ignore_components(&self) -> (r: Vec<Vec<Vec<u8>>>)
        ensures
            views2(r@) == self.ignore_list(),
    {
        let work = self.work_dir.as_str().as_bytes();
        let target: Vec<u8> = vec![116u8, 97u8, 114u8, 103u8, 101u8, 116u8];
        let git: Vec<u8> = vec![46u8, 103u8, 105u8, 116u8];
        assert(target@ =~= target_name());
        assert(git@ =~= git_name());
        let t = join_path(work, target.as_slice());
        let g = join_path(work, git.as_slice());
        let mut r: Vec<Vec<Vec<u8>>> = Vec::new();
        r.push(split_path(self.repo_dir.as_str().as_bytes()));
        r.push(split_path(t.as_slice()));
        r.push(split_path(g.as_slice()));
        assert(views2(r@) =~= self.ignore_list());
        r
    }

    /// Whether snapshots leave out the entry at `path`: it lies under the
    /// repository's directory, or under the work tree's `target` or `.git`.
    pub fn is_ignored(&self, path: &str) -> (r: bool)
        ensures
            r == path_ignored(self.ignore_list(), components(encode_utf8(path@))),
    {
        let ignore = self.ignore_components();
        let comps = split_path(path.as_bytes());
        ignored_components(&ignore, &comps)
    }

    /// Stores `data` as an object of kind `typ` and returns its identifier;
    /// a record already stored under that identifier is kept as it is.
    pub fn hash_object(&mut self, data: Vec<u8>, typ: ObjectType) -> (r: Result<OID, CliError>)
        requires
            old(self).wf(),
        ensures
            final(self).wf(),
            final(self).ready() == old(self).ready(),
            final(self).work_dir == old(self).work_dir,
            final(self).repo_dir == old(self).repo_dir,
            !old(self).ready() ==> (r matches Err(e) && e is NotInitialized) && final(self).objects() == old(self).objects(),
            old(self).ready() ==> (r matches Ok(oid) && oid@ == oid_of(typ, data@) && oid@.len() == 40
                && (old(self).objects().contains_key(key_of(oid@)) ==> final(self).objects() == old(self).objects())
                && (!old(self).objects().contains_key(key_of(oid@)) ==> final(self).objects()
                    == old(self).objects().insert(key_of(oid@), encode_object(typ, data@)))),
    {
        match &mut self.objects {
            Some(s) => Ok(s.put(typ, data.as_slice())),
            None => Err(CliError::NotInitialized),
        }
    }

    /// The payload of the object `object`, whose kind must be one of
    /// `expected` where that list is not empty.
    pub fn get_object(&self, object: OID, expected: &[ObjectType]) -> (r: Result<Vec<u8>, CliError>)
        requires
            self.wf(),
        ensures
            !self.ready() ==> (r matches Err(e) && e is NotInitialized),
            self.ready() ==> {
                let f = fetch(self.objects(), key_of(object@), expected@);
                &&& r is Ok <==> f is Ok
                &&& r matches Ok(v) ==> f == Ok::<Seq<u8>, Failure>(v@)
                &&& r matches Err(e) ==> f == Err::<Seq<u8>, Failure>(e@)
            },
    {
        match &self.objects {
            Some(s) => fetch_object(s, object.as_str().as_bytes(), expected),
            None => Err(CliError::NotInitialized),
        }
    }

    /// Stores a snapshot of the directory `tree`, found at `path`, leaving
    /// out the ignored paths, and returns the identifier of its tree.
    pub fn write_tree(&mut self, path: &str, tree: &Node) -> (r: Result<OID, CliError>)
        requires
            old(self).wf(),
        ensures
            final(self).wf(),
            final(self).ready() == old(self).ready(),
            final(self).work_dir == old(self).work_dir,
            final(self).repo_dir == old(self).repo_dir,
            !old(self).ready() ==> (r matches Err(e) && e is NotInitialized) && final(self).objects() == old(self).objects(),
            old(self).ready() ==> {
                let ign = old(self).ignore_list();
                let p = encode_utf8(path@);
                &&& r is Err <==> snapshot_error(ign, p, *tree) is Some
                &&& r matches Err(e) ==> (e matches CliError::UnsupportedFileType { path: x }
                    && snapshot_error(ign, p, *tree) == Some(x@))
                    && final(self).objects() == old(self).objects()
                &&& r matches Ok(oid) ==> oid@ == oid_of(ObjectType::Tree, node_object(ign, p, *tree).1)
                    && grows(old(self).objects(), final(self).objects(), node_records(ign, p, *tree))
            },
    {
        let ignore = self.ignore_components();
        match &mut self.objects {
            Some(s) => snapshot(s, &ignore, path.as_bytes(), tree),
            None => Err(CliError::NotInitialized),
        }
    }

    /// Restores the tree `object` as a directory.
    pub fn read_tree(&self, object: OID) -> (r: Result<Node, CliError>)
        requires
            self.wf(),
        ensures
            !self.ready() ==> (r matches Err(e) && e is NotInitialized),
            self.ready() ==> {
                let o = restore_outcome(self.objects(), key_of(object@), Set::empty());
                &&& r is Ok <==> o is Ok
                &&& r matches Ok(n) ==> restores(self.objects(), key_of(object@), Set::empty(), n)
                &&& r matches Err(e) ==> o == Err::<(), Failure>(e@)
            },
    {
        match &self.objects {
            Some(s) => {
                let above: Vec<Vec<u8>> = Vec::new();
                assert(views(above@).to_set() =~= Set::empty());
                restore_tree(s, object.as_str().as_bytes(), &above)
            },
            None => Err(CliError::NotInitialized),
        }
    }
}

} // verus!
