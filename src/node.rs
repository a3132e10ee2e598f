//! A directory as the snapshot engine sees it.

use vstd::prelude::*;
use vstd::string::StringSliceAdditionalSpecFns;

verus! {

/// What a directory entry holds.
#[derive(Debug)]
pub enum Node {
    /// A regular file and its content.
    File(Vec<u8>),
    /// A directory and its entries, in listing order.
    Dir(Vec<DirEntry>),
    /// Anything else: a socket, a device, a dangling link.
    Other,
}

/// A named entry of a directory.
#[derive(Debug)]
pub struct DirEntry {
    /// The last component of the entry's path.
    pub name: Vec<u8>,
    pub node: Node,
}

impl DirEntry {
    /// A regular file named `name` holding `content`.
    pub fn file(name: &str, content: &[u8]) -> (r: DirEntry)
        ensures
            r.name@ == name.spec_bytes(),
            r.node matches Node::File(c) && c@ == content@,
    {
        DirEntry {
            name: vstd::slice::slice_to_vec(name.as_bytes()),
            node: Node::File(vstd::slice::slice_to_vec(content)),
        }
    }

    /// A directory named `name` holding `entries`.
    pub fn dir(name: &str, entries: Vec<DirEntry>) -> (r: DirEntry)
        ensures
            r.name@ == name.spec_bytes(),
            r.node == Node::Dir(entries),
    {
        DirEntry { name: vstd::slice::slice_to_vec(name.as_bytes()), node: Node::Dir(entries) }
    }
}

} // verus!
