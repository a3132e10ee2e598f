//! An in-memory content-addressed map from keys to object records.

use vstd::prelude::*;

use crate::bytes::bytes_eq;
use crate::object::encode;
use crate::object::encode_object;
use crate::object::key_of;
use crate::object::object_id;
use crate::object::ObjectType;
use crate::object::OID;
use crate::object::oid_of;

verus! {

/// Records keyed by the bytes of their identifiers.
pub struct ObjectStore {
    keys: Vec<Vec<u8>>,
    records: Vec<Vec<u8>>,
    contents: Ghost<Map<Seq<u8>, Seq<u8>>>,
}

impl View for ObjectStore {
    type V = Map<Seq<u8>, Seq<u8>>;

    closed spec fn view(&self) -> Map<Seq<u8>, Seq<u8>> {
        self.contents@
    }
}

impl ObjectStore {
    /// The two vectors hold the map's entries, each key once.
    pub closed spec fn wf(&self) -> bool {
        &&& self.keys.len() == self.records.len()
        &&& self.contents@.dom().finite()
        &&& forall|i: int|
            0 <= i < self.keys.len() ==> {
                &&& self.contents@.contains_key(#[trigger] self.keys@[i]@)
                &&& self.contents@[self.keys@[i]@] == self.records@[i]@
            }
        &&& forall|k: Seq<u8>|
            #[trigger] self.contents@.contains_key(k) ==> exists|i: int|
                0 <= i < self.keys.len() && self.keys@[i]@ == k
        &&& forall|i: int, j: int|
            0 <= i < self.keys.len() && 0 <= j < self.keys.len() && i != j
                ==> #[trigger] self.keys@[i]@ != #[trigger] self.keys@[j]@
    }

    /// A well-formed store holds finitely many records.
    pub proof fn lemma_finite(&self)
        requires
            self.wf(),
        ensures
            self@.dom().finite(),
    {
    }

    /// An empty store.
    pub fn new() -> (r: ObjectStore)
        ensures
            r.wf(),
            r@ == Map::<Seq<u8>, Seq<u8>>::empty(),
    {
        ObjectStore { keys: Vec::new(), records: Vec::new(), contents: Ghost(Map::empty()) }
    }

    /// The number of records.
    pub fn len(&self) -> (r: usize)
        requires
            self.wf(),
        ensures
            r == self@.dom().len(),
    {
        proof {
            self.lemma_len();
        }
        self.keys.len()
    }

    proof fn lemma_len(&self)
        requires
            self.wf(),
        ensures
            self.keys.len() == self@.dom().len(),
    {
        let ks = self.keys@.map_values(|k: Vec<u8>| k@);
        assert forall|i: int, j: int| 0 <= i < ks.len() && 0 <= j < ks.len() && i != j implies ks[i] != ks[j] by {
            assert(self.keys@[i]@ != self.keys@[j]@);
        }
        assert(ks.no_duplicates());
        ks.unique_seq_to_set();
        assert forall|k: Seq<u8>| ks.to_set().contains(k) <==> self@.dom().contains(k) by {
            if ks.to_set().contains(k) {
                let i = choose|i: int| 0 <= i < ks.len() && ks[i] == k;
                assert(self.contents@.contains_key(self.keys@[i]@));
            }
            if self@.dom().contains(k) {
                assert(self.contents@.contains_key(k));
                let i = choose|i: int| 0 <= i < self.keys.len() && self.keys@[i]@ == k;
                assert(ks[i] == k);
            }
        }
        assert(ks.to_set() =~= self@.dom());
    }

    /// The keys in storage order.
    pub closed spec fn key_list(&self) -> Seq<Seq<u8>> {
        self.keys@.map_values(|k: Vec<u8>| k@)
    }

    /// The keys in storage order are the map's keys, each once.
    pub proof fn lemma_key_list(&self)
        requires
            self.wf(),
        ensures
            self.key_list().len() == self@.dom().len(),
            self.key_list().no_duplicates(),
            forall|i: int| 0 <= i < self.key_list().len() ==> self@.contains_key(#[trigger] self.key_list()[i]),
            forall|k: Seq<u8>| #[trigger] self@.contains_key(k) ==> self.key_list().contains(k),
    {
        self.lemma_len();
        let ks = self.key_list();
        assert forall|i: int, j: int| 0 <= i < ks.len() && 0 <= j < ks.len() && i != j implies ks[i] != ks[j] by {
            assert(self.keys@[i]@ != self.keys@[j]@);
        }
        assert forall|i: int| 0 <= i < ks.len() implies self@.contains_key(#[trigger] ks[i]) by {
            assert(self.contents@.contains_key(self.keys@[i]@));
        }
        assert forall|k: Seq<u8>| #[trigger] self@.contains_key(k) implies ks.contains(k) by {
            assert(self.contents@.contains_key(k));
            let i = choose|i: int| 0 <= i < self.keys.len() && self.keys@[i]@ == k;
            assert(ks[i] == k);
        }
    }

    /// The key at `i`, in storage order.
    pub fn key_at(&self, i: usize) -> (r: &Vec<u8>)
        requires
            self.wf(),
            i < self@.dom().len(),
        ensures
            r@ == self.key_list()[i as int],
            self@.contains_key(r@),
    {
        proof {
            self.lemma_len();
        }
        &self.keys[i]
    }

    fn find(&self, key: &[u8]) -> (r: Option<usize>)
        requires
            self.wf(),
        ensures
            r matches Some(i) ==> i < self.keys.len() && self.keys@[i as int]@ == key@,
            r is None <==> !self@.contains_key(key@),
    {
        let mut i: usize = 0;
        while i < self.keys.len()
            invariant
                self.wf(),
                i <= self.keys.len(),
                forall|j: int| 0 <= j < i ==> self.keys@[j]@ != key@,
            decreases self.keys.len() - i,
        {
            if bytes_eq(self.keys[i].as_slice(), key) {
                return Some(i);
            }
            i = i + 1;
        }
        None
    }

    /// The record stored under `key`.
    pub fn get(&self, key: &[u8]) -> (r: Option<&Vec<u8>>)
        requires
            self.wf(),
        ensures
            r is Some <==> self@.contains_key(key@),
            r matches Some(v) ==> v@ == self@[key@],
    {
        match self.find(key) {
            Some(i) => Some(&self.records[i]),
            None => None,
        }
    }

    /// Stores `record` under `key` where no record is stored under it yet;
    /// a record already there is kept as it is.
    pub fn insert(&mut self, key: Vec<u8>, record: Vec<u8>)
        requires
            old(self).wf(),
        ensures
            final(self).wf(),
            old(self)@.contains_key(key@) ==> final(self)@ == old(self)@,
            !old(self)@.contains_key(key@) ==> final(self)@ == old(self)@.insert(key@, record@),
    {
        let ghost k = key@;
        let ghost v = record@;
        match self.find(key.as_slice()) {
            Some(_) => {},
            None => {
                self.keys.push(key);
                self.records.push(record);
                self.contents = Ghost(self.contents@.insert(k, v));
                proof {
                    let n = self.keys.len() - 1;
                    assert(self.keys@[n]@ == k);
                    assert forall|kk: Seq<u8>| #[trigger] self.contents@.contains_key(kk) implies exists|j: int|
                        0 <= j < self.keys.len() && self.keys@[j]@ == kk by {
                        if kk == k {
                            assert(self.keys@[n]@ == kk);
                        } else {
                            assert(old(self).contents@.contains_key(kk));
                            let j = choose|j: int| 0 <= j < old(self).keys.len() && old(self).keys@[j]@ == kk;
                            assert(self.keys@[j]@ == kk);
                        }
                    }
                    assert forall|a: int, b: int|
                        0 <= a < self.keys.len() && 0 <= b < self.keys.len() && a != b
                            implies #[trigger] self.keys@[a]@ != #[trigger] self.keys@[b]@ by {
                        if a == n {
                            assert(old(self).contents@.contains_key(self.keys@[b]@));
                        } else if b == n {
                            assert(old(self).contents@.contains_key(self.keys@[a]@));
                        }
                    }
                }
            },
        }
    }

    /// Stores an object of kind `t` holding `payload` under its identifier,
    /// which it returns; where that identifier is taken, nothing changes.
    pub fn put(&mut self, t: ObjectType, payload: &[u8]) -> (r: OID)
        requires
            old(self).wf(),
        ensures
            final(self).wf(),
            r@ == oid_of(t, payload@),
            r@.len() == 40,
            old(self)@.contains_key(key_of(r@)) ==> final(self)@ == old(self)@,
            !old(self)@.contains_key(key_of(r@)) ==> final(self)@ == old(self)@.insert(
                key_of(r@),
                encode_object(t, payload@),
            ),
    {
        let oid = object_id(t, payload);
        let record = encode(t, payload);
        let key = vstd::slice::slice_to_vec(oid.as_str().as_bytes());
        self.insert(key, record);
        oid
    }
}

} // verus!
