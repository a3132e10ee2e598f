//! Object tags, object identifiers and the canonical encoding of objects.

use vstd::prelude::*;
use vstd::string::StrSliceExecFns;
use vstd::string::StringExecFns;
use vstd::utf8::encode_utf8;
use vstd::utf8::is_ascii_chars;

use crate::bytes::copy_range;
use crate::bytes::find_byte;
use crate::digest::sha1_digest;
use crate::digest::sha1_of;

verus! {

/// The kind of a stored object.
#[derive(Clone, Copy, Debug, PartialEq, Eq, Structural, PartialOrd, Ord, Hash)]
pub enum ObjectType {
    /// Opaque file content.
    Blob,
    /// A directory listing.
    Tree,
}

/// The ASCII name of a tag, as it appears in encodings.
pub open spec fn tag_bytes(t: ObjectType) -> Seq<u8> {
    match t {
        ObjectType::Blob => seq![98u8, 108u8, 111u8, 98u8],
        ObjectType::Tree => seq![116u8, 114u8, 101u8, 101u8],
    }
}

/// The tag whose name is exactly `b`, if any.
pub open spec fn parse_tag(b: Seq<u8>) -> Option<ObjectType> {
    if b == tag_bytes(ObjectType::Blob) {
        Some(ObjectType::Blob)
    } else if b == tag_bytes(ObjectType::Tree) {
        Some(ObjectType::Tree)
    } else {
        None
    }
}

/// Blobs order before trees.
pub open spec fn tag_rank(t: ObjectType) -> int {
    match t {
        ObjectType::Blob => 0,
        ObjectType::Tree => 1,
    }
}

impl ObjectType {
    /// The tag's name as text: `"blob"` or `"tree"`.
    pub fn name(&self) -> (r: &'static str)
        ensures
            encode_utf8(r@) == tag_bytes(*self),
    {
        match self {
            ObjectType::Blob => {
                let s = "blob";
                proof {
                    reveal_strlit("blob");
                    vstd::utf8::is_ascii_chars_encode_utf8(s@);
                }
                assert(encode_utf8(s@) =~= tag_bytes(*self));
                s
            },
            ObjectType::Tree => {
                let s = "tree";
                proof {
                    reveal_strlit("tree");
                    vstd::utf8::is_ascii_chars_encode_utf8(s@);
                }
                assert(encode_utf8(s@) =~= tag_bytes(*self));
                s
            },
        }
    }

    /// The tag's name as bytes.
    pub fn to_bytes(&self) -> (r: Vec<u8>)
        ensures
            r@ == tag_bytes(*self),
    {
        let r = match self {
            ObjectType::Blob => vec![98u8, 108u8, 111u8, 98u8],
            ObjectType::Tree => vec![116u8, 114u8, 101u8, 101u8],
        };
        assert(r@ =~= tag_bytes(*self));
        r
    }

    /// The tag named by `b`; `None` for any other bytes.
    pub fn from_bytes(b: &[u8]) -> (r: Option<ObjectType>)
        ensures
            r == parse_tag(b@),
    {
        if b.len() != 4 {
            assert(b@ != tag_bytes(ObjectType::Blob));
            assert(b@ != tag_bytes(ObjectType::Tree));
            return None;
        }
        if b[0] == 98 && b[1] == 108 && b[2] == 111 && b[3] == 98 {
            assert(b@ =~= tag_bytes(ObjectType::Blob));
            Some(ObjectType::Blob)
        } else if b[0] == 116 && b[1] == 114 && b[2] == 101 && b[3] == 101 {
            assert(b@ =~= tag_bytes(ObjectType::Tree));
            Some(ObjectType::Tree)
        } else {
            assert(b@ != tag_bytes(ObjectType::Blob) ==> b@[0] != 98 || b@[1] != 108 || b@[2] != 111 || b@[3] != 98);
            None
        }
    }
}

/// The lowercase hexadecimal digits.
pub open spec fn hex_digits() -> Seq<char> {
    seq!['0', '1', '2', '3', '4', '5', '6', '7', '8', '9', 'a', 'b', 'c', 'd', 'e', 'f']
}

/// Two lowercase hexadecimal digits per byte, high nibble first.
pub open spec fn hex_of(d: Seq<u8>) -> Seq<char>
    decreases d.len(),
{
    if d.len() == 0 {
        seq![]
    } else {
        let b = d.last();
        hex_of(d.drop_last()) + seq![hex_digits()[(b / 16) as int], hex_digits()[(b % 16) as int]]
    }
}

/// The canonical encoding of an object: its tag, a NUL byte, its payload.
pub open spec fn encode_object(t: ObjectType, payload: Seq<u8>) -> Seq<u8> {
    tag_bytes(t) + seq![0u8] + payload
}

/// The identifier of an object: the hex SHA-1 digest of its encoding.
pub open spec fn oid_of(t: ObjectType, payload: Seq<u8>) -> Seq<char> {
    hex_of(sha1_of(encode_object(t, payload)))
}

/// The bytes under which an identifier is stored.
pub open spec fn key_of(oid: Seq<char>) -> Seq<u8> {
    encode_utf8(oid)
}

/// The identifier of a stored object.
#[derive(Debug)]
pub struct OID(pub String);

impl View for OID {
    type V = Seq<char>;

    open spec fn view(&self) -> Seq<char> {
        self.0@
    }
}

impl OID {
    /// The identifier as text.
    pub fn as_str(&self) -> (r: &str)
        ensures
            r@ == self@,
    {
        self.0.as_str()
    }

    /// A copy of this identifier.
    pub fn duplicate(&self) -> (r: OID)
        ensures
            r@ == self@,
    {
        OID(self.0.clone())
    }
}

impl PartialEq for OID {
    fn eq(&self, other: &OID) -> (r: bool) {
        self.0 == other.0
    }
}

impl vstd::std_specs::cmp::PartialEqSpecImpl for OID {
    open spec fn obeys_eq_spec() -> bool {
        true
    }

    open spec fn eq_spec(&self, other: &OID) -> bool {
        self@ == other@
    }
}

/// The hex digits form an ASCII text of two characters per byte.
pub proof fn lemma_hex_ascii(d: Seq<u8>)
    ensures
        hex_of(d).len() == 2 * d.len(),
        is_ascii_chars(hex_of(d)),
        forall|i: int| 0 <= i < hex_of(d).len() ==> hex_digits().contains(#[trigger] hex_of(d)[i]),
    decreases d.len(),
{
    if d.len() > 0 {
        lemma_hex_ascii(d.drop_last());
        let b = d.last();
        let h = hex_of(d.drop_last());
        let t = seq![hex_digits()[(b / 16) as int], hex_digits()[(b % 16) as int]];
        assert(hex_of(d) == h + t);
        assert forall|i: int| 0 <= i < hex_of(d).len() implies hex_digits().contains(#[trigger] hex_of(d)[i]) by {
            if i < h.len() {
                assert(hex_of(d)[i] == h[i]);
            } else if i == h.len() {
                assert(hex_of(d)[i] == hex_digits()[(b / 16) as int]);
            } else {
                assert(hex_of(d)[i] == hex_digits()[(b % 16) as int]);
            }
        }
        assert forall|i: int| 0 <= i < hex_of(d).len() implies '\0' <= #[trigger] hex_of(d)[i] <= '\u{7f}' by {
            assert(hex_digits().contains(hex_of(d)[i]));
        }
    }
}

/// Different digests have different hex texts.
pub proof fn lemma_hex_injective(a: Seq<u8>, b: Seq<u8>)
    requires
        hex_of(a) == hex_of(b),
    ensures
        a == b,
    decreases a.len(),
{
    lemma_hex_ascii(a);
    lemma_hex_ascii(b);
    if a.len() > 0 {
        let ha = hex_of(a);
        let n = ha.len() as int;
        let x = a.last();
        let y = b.last();
        assert(ha == hex_of(a.drop_last()) + seq![hex_digits()[(x / 16) as int], hex_digits()[(x % 16) as int]]);
        assert(ha == hex_of(b.drop_last()) + seq![hex_digits()[(y / 16) as int], hex_digits()[(y % 16) as int]]);
        assert(ha[n - 2] == hex_digits()[(x / 16) as int]);
        assert(ha[n - 2] == hex_digits()[(y / 16) as int]);
        assert(ha[n - 1] == hex_digits()[(x % 16) as int]);
        assert(ha[n - 1] == hex_digits()[(y % 16) as int]);
        assert(x / 16 == y / 16);
        assert(x % 16 == y % 16);
        assert(x == y);
        assert(hex_of(a.drop_last()) =~= ha.subrange(0, n - 2));
        assert(hex_of(b.drop_last()) =~= ha.subrange(0, n - 2));
        lemma_hex_injective(a.drop_last(), b.drop_last());
        assert(a =~= a.drop_last().push(x));
        assert(b =~= b.drop_last().push(y));
    } else {
        assert(b.len() == 0);
        assert(a =~= b);
    }
}

/// The key of a hex text holds no NUL byte and no newline.
pub proof fn lemma_key_plain(d: Seq<u8>)
    ensures
        forall|i: int| 0 <= i < key_of(hex_of(d)).len() ==> #[trigger] key_of(hex_of(d))[i] != 0 && key_of(hex_of(d))[i] != 10,
{
    let h = hex_of(d);
    lemma_hex_ascii(d);
    vstd::utf8::is_ascii_chars_encode_utf8(h);
    assert forall|i: int| 0 <= i < key_of(h).len() implies #[trigger] key_of(h)[i] != 0 && key_of(h)[i] != 10 by {
        assert(h[i] as u8 == key_of(h)[i]);
        assert(hex_digits().contains(h[i]));
        let j = choose|j: int| 0 <= j < hex_digits().len() && hex_digits()[j] == h[i];
    }
}

/// Writes the digest `d` as lowercase hexadecimal text.
pub fn to_hex(d: &[u8]) -> (r: String)
    ensures
        r@ == hex_of(d@),
{
    let digits = "0123456789abcdef";
    proof {
        reveal_strlit("0123456789abcdef");
        assert(digits@ =~= hex_digits());
    }
    let mut r = String::new();
    let mut i: usize = 0;
    while i < d.len()
        invariant
            i <= d.len(),
            digits@ == hex_digits(),
            r@ == hex_of(d@.subrange(0, i as int)),
        decreases d.len() - i,
    {
        let b = d[i];
        let hi = (b / 16) as usize;
        let lo = (b % 16) as usize;
        let h = digits.substring_ascii(hi, hi + 1);
        let l = digits.substring_ascii(lo, lo + 1);
        r.append(h);
        r.append(l);
        proof {
            let s = d@.subrange(0, i + 1);
            assert(s.drop_last() =~= d@.subrange(0, i as int));
            assert(s.last() == b);
            assert(r@ =~= hex_of(s));
        }
        i = i + 1;
    }
    assert(d@.subrange(0, d@.len() as int) =~= d@);
    r
}

/// The object that a record encodes: a tag, a NUL byte, then the payload.
/// Neither tag name holds a NUL byte, so the first NUL ends the tag.
pub open spec fn decode_record(r: Seq<u8>) -> Option<(ObjectType, Seq<u8>)> {
    if r.len() >= 5 && r[4] == 0 && parse_tag(r.subrange(0, 4)) is Some {
        Some((parse_tag(r.subrange(0, 4))->0, r.subrange(5, r.len() as int)))
    } else {
        None
    }
}

/// Decoding an encoded object gives the object back.
pub proof fn lemma_decode_encode(t: ObjectType, payload: Seq<u8>)
    ensures
        decode_record(encode_object(t, payload)) == Some((t, payload)),
{
    let r = encode_object(t, payload);
    assert(r.subrange(0, 4) =~= tag_bytes(t));
    assert(r.subrange(5, r.len() as int) =~= payload);
}

/// Splits a record into its tag and payload; `None` where the record has
/// no NUL byte or its tag is unknown.
pub fn decode(record: &[u8]) -> (r: Option<(ObjectType, Vec<u8>)>)
    ensures
        r matches Some((t, p)) ==> decode_record(record@) == Some((t, p@)),
        r is None ==> decode_record(record@) is None,
{
    let pos = match find_byte(record, 0u8, 0) {
        Some(p) => p,
        None => {
            assert(record@.len() >= 5 ==> record@[4] != 0);
            return None;
        },
    };
    let tag = copy_range(record, 0, pos);
    match ObjectType::from_bytes(tag.as_slice()) {
        Some(t) => {
            assert(tag@.len() == 4);
            let payload = copy_range(record, pos + 1, record.len());
            Some((t, payload))
        },
        None => {
            proof {
                if record@.len() >= 5 && record@[4] == 0 && parse_tag(record@.subrange(0, 4)) is Some {
                    let tb = record@.subrange(0, 4);
                    assert(tb[0] != 0 && tb[1] != 0 && tb[2] != 0 && tb[3] != 0);
                    assert(pos == 4);
                    assert(tag@ =~= tb);
                }
            }
            None
        },
    }
}

/// Encodes an object canonically: its tag, a NUL byte, then its payload.
pub fn encode(t: ObjectType, payload: &[u8]) -> (r: Vec<u8>)
    ensures
        r@ == encode_object(t, payload@),
{
    let mut r = t.to_bytes();
    r.push(0u8);
    let mut i: usize = 0;
    while i < payload.len()
        invariant
            i <= payload.len(),
            r@ == tag_bytes(t) + seq![0u8] + payload@.subrange(0, i as int),
        decreases payload.len() - i,
    {
        r.push(payload[i]);
        assert(payload@.subrange(0, i + 1) =~= payload@.subrange(0, i as int).push(payload@[i as int]));
        i = i + 1;
    }
    assert(payload@.subrange(0, payload@.len() as int) =~= payload@);
    r
}

/// Computes the identifier of an object of kind `t` holding `payload`.
pub fn object_id(t: ObjectType, payload: &[u8]) -> (r: OID)
    ensures
        r@ == oid_of(t, payload@),
        r@.len() == 40,
        forall|i: int| 0 <= i < r@.len() ==> hex_digits().contains(#[trigger] r@[i]),
{
    let record = encode(t, payload);
    let digest = sha1_digest(record.as_slice());
    proof {
        lemma_hex_ascii(digest@);
    }
    OID(to_hex(digest.as_slice()))
}

} // verus!
