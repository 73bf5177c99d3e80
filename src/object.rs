//! The object codec: `<kind> <size>\0<payload>`, and loose objects, which
//! are that text zlib-compressed and named by its SHA-1.

use vstd::prelude::*;

use crate::buf::{append_bytes, bytes_equal, copy_range, find_byte};
use crate::digest::{deflate, hex_encode, hex_of, inflate, inflate_of, sha1_digest, sha1_of};

verus! {

/// The four kinds of stored object.
#[derive(Clone, Copy, Debug, PartialEq, Eq, Structural)]
pub enum ObjectKind {
    Blob,
    Tree,
    Commit,
    Tag,
}

/// Why an object could not be read back.
#[derive(Clone, Copy, Debug, PartialEq, Eq, Structural)]
pub enum ObjectError {
    /// The text is not `<kind> <size>\0<payload>` with a known kind and a
    /// size equal to the payload length, or the zlib stream is broken.
    Corrupt,
}

/// An object in memory: its kind and its payload.
#[derive(Clone, Debug)]
pub struct GitObject {
    pub kind: ObjectKind,
    pub payload: Vec<u8>,
}

/// The name of a kind as it stands in the header.
pub open spec fn kind_name(k: ObjectKind) -> Seq<u8> {
    match k {
        ObjectKind::Blob => seq![98u8, 108, 111, 98],
        ObjectKind::Tree => seq![116u8, 114, 101, 101],
        ObjectKind::Commit => seq![99u8, 111, 109, 109, 105, 116],
        ObjectKind::Tag => seq![116u8, 97, 103],
    }
}

/// The kind whose header name is `s`, if any.
pub open spec fn kind_from_name(s: Seq<u8>) -> Option<ObjectKind> {
    if s == kind_name(ObjectKind::Blob) {
        Some(ObjectKind::Blob)
    } else if s == kind_name(ObjectKind::Tree) {
        Some(ObjectKind::Tree)
    } else if s == kind_name(ObjectKind::Commit) {
        Some(ObjectKind::Commit)
    } else if s == kind_name(ObjectKind::Tag) {
        Some(ObjectKind::Tag)
    } else {
        None
    }
}

pub open spec fn is_digit(c: u8) -> bool {
    48 <= c <= 57
}

/// Decimal text of `n`, without leading zeros.
pub open spec fn decimal(n: nat) -> Seq<u8>
    decreases n,
{
    if n < 10 {
        seq![(48 + n) as u8]
    } else {
        decimal(n / 10).push((48 + n % 10) as u8)
    }
}

/// A non-empty run of decimal digits.
pub open spec fn all_digits(s: Seq<u8>) -> bool {
    s.len() > 0 && forall|i: int| 0 <= i < s.len() ==> is_digit(#[trigger] s[i])
}

/// The number that a run of decimal digits spells.
pub open spec fn decimal_value(s: Seq<u8>) -> nat
    decreases s.len(),
{
    if s.len() == 0 {
        0
    } else {
        decimal_value(s.drop_last()) * 10 + (s.last() - 48) as nat
    }
}

/// The canonical text of an object: `<kind> <size>\0<payload>`.
pub open spec fn serialize(k: ObjectKind, payload: Seq<u8>) -> Seq<u8> {
    kind_name(k) + seq![32u8] + decimal(payload.len()) + seq![0u8] + payload
}

/// `i` is the first position of byte `b` in `s`.
pub open spec fn first_index_of(s: Seq<u8>, b: u8, i: int) -> bool {
    &&& 0 <= i < s.len()
    &&& s[i] == b
    &&& forall|j: int| 0 <= j < i ==> s[j] != b
}

/// Reading an object's text back: the header up to the first NUL splits at
/// its first space into a known kind and a decimal size, and the size equals
/// the length of what follows the NUL.
pub open spec fn parse_object_spec(s: Seq<u8>) -> Option<(ObjectKind, Seq<u8>)> {
    if exists|z: int| first_index_of(s, 0, z) {
        let z = choose|z: int| first_index_of(s, 0, z);
        let head = s.subrange(0, z);
        if exists|p: int| first_index_of(head, 32, p) {
            let p = choose|p: int| first_index_of(head, 32, p);
            let kind = kind_from_name(head.subrange(0, p));
            let size = head.subrange(p + 1, z);
            let body = s.subrange(z + 1, s.len() as int);
            if kind.is_some() && all_digits(size) && decimal_value(size) == body.len() {
                Some((kind.unwrap(), body))
            } else {
                None
            }
        } else {
            None
        }
    } else {
        None
    }
}

/// What a loose object's file holds once inflated and read.
pub open spec fn load_spec(compressed: Seq<u8>) -> Option<(ObjectKind, Seq<u8>)> {
    match inflate_of(compressed) {
        Some((text, _)) => parse_object_spec(text),
        None => None,
    }
}

/// The hash that names an object.
pub open spec fn object_hash(k: ObjectKind, payload: Seq<u8>) -> Seq<u8> {
    sha1_of(serialize(k, payload))
}

pub proof fn lemma_first_index_unique(s: Seq<u8>, b: u8, i: int, j: int)
    requires
        first_index_of(s, b, i),
        first_index_of(s, b, j),
    ensures
        i == j,
{
}

proof fn lemma_decimal_digits(n: nat)
    ensures
        all_digits(decimal(n)),
        decimal_value(decimal(n)) == n,
    decreases n,
{
    if n >= 10 {
        lemma_decimal_digits(n / 10);
        let d = decimal(n / 10);
        assert(decimal(n).drop_last() =~= d);
        assert(decimal(n).last() == (48 + n % 10) as u8);
        assert((n / 10) * 10 + n % 10 == n) by (nonlinear_arith);
        assert(decimal_value(decimal(n)) == decimal_value(d) * 10 + (n % 10));
    } else {
        assert(decimal(n).drop_last() =~= Seq::<u8>::empty());
        assert(decimal_value(decimal(n)) == decimal_value(Seq::<u8>::empty()) * 10 + n);
    }
}

/// Reading the canonical text of an object gives back its kind and payload.
pub proof fn lemma_parse_serialize(k: ObjectKind, payload: Seq<u8>)
    ensures
        parse_object_spec(serialize(k, payload)) == Some((k, payload)),
{
    let s = serialize(k, payload);
    let name = kind_name(k);
    let dec = decimal(payload.len());
    lemma_decimal_digits(payload.len());
    let z = (name.len() + 1 + dec.len()) as int;
    let p = name.len() as int;
    assert(s.subrange(0, p) =~= name);
    assert(s.subrange(p + 1, z) =~= dec);
    assert(s.subrange(z + 1, s.len() as int) =~= payload);
    assert(first_index_of(s, 0, z)) by {
        assert forall|j: int| 0 <= j < z implies s[j] != 0 by {
            if j > p {
                assert(s[j] == dec[j - p - 1]);
                assert(is_digit(dec[j - p - 1]));
            }
        }
    }
    let head = s.subrange(0, z);
    assert(first_index_of(head, 32, p));
    let zc = choose|z: int| first_index_of(s, 0, z);
    lemma_first_index_unique(s, 0, z, zc);
    let pc = choose|p: int| first_index_of(head, 32, p);
    lemma_first_index_unique(head, 32, p, pc);
    assert(head.subrange(0, p) =~= name);
    assert(head.subrange(p + 1, z) =~= dec);
}

/// The header name of a kind.
pub fn kind_name_bytes(k: ObjectKind) -> (r: Vec<u8>)
    ensures
        r@ == kind_name(k),
{
    let r = match k {
        ObjectKind::Blob => vec![98u8, 108, 111, 98],
        ObjectKind::Tree => vec![116u8, 114, 101, 101],
        ObjectKind::Commit => vec![99u8, 111, 109, 109, 105, 116],
        ObjectKind::Tag => vec![116u8, 97, 103],
    };
    assert(r@ =~= kind_name(k));
    r
}

/// Decimal text of `n`.
pub fn decimal_bytes(n: u64) -> (r: Vec<u8>)
    ensures
        r@ == decimal(n as nat),
    decreases n,
{
    if n < 10 {
        let r = vec![(48 + n) as u8];
        assert(r@ =~= decimal(n as nat));
        r
    } else {
        let mut r = decimal_bytes(n / 10);
        r.push((48 + n % 10) as u8);
        r
    }
}

/// The canonical text `<kind> <size>\0<payload>` of an object.
pub fn serialize_object(k: ObjectKind, payload: &[u8]) -> (r: Vec<u8>)
    ensures
        r@ == serialize(k, payload@),
{
    let mut r = kind_name_bytes(k);
    r.push(32u8);
    let size = decimal_bytes(payload.len() as u64);
    append_bytes(&mut r, &size);
    r.push(0u8);
    append_bytes(&mut r, payload);
    assert(r@ =~= serialize(k, payload@));
    r
}

/// The kind named by `s[start..end]`, if any.
fn kind_from_bytes(s: &[u8], start: usize, end: usize) -> (r: Option<ObjectKind>)
    requires
        start <= end <= s@.len(),
    ensures
        r == kind_from_name(s@.subrange(start as int, end as int)),
{
    let name = &s[start..end];
    if bytes_equal(name, &kind_name_bytes(ObjectKind::Blob)) {
        Some(ObjectKind::Blob)
    } else if bytes_equal(name, &kind_name_bytes(ObjectKind::Tree)) {
        Some(ObjectKind::Tree)
    } else if bytes_equal(name, &kind_name_bytes(ObjectKind::Commit)) {
        Some(ObjectKind::Commit)
    } else if bytes_equal(name, &kind_name_bytes(ObjectKind::Tag)) {
        Some(ObjectKind::Tag)
    } else {
        None
    }
}

proof fn lemma_decimal_prefix_le(s: Seq<u8>, k: int)
    requires
        0 <= k <= s.len(),
        forall|i: int| 0 <= i < s.len() ==> is_digit(#[trigger] s[i]),
    ensures
        decimal_value(s.subrange(0, k)) <= decimal_value(s),
    decreases s.len() - k,
{
    if k < s.len() {
        lemma_decimal_prefix_le(s, k + 1);
        let t = s.subrange(0, k + 1);
        assert(t.drop_last() =~= s.subrange(0, k));
    } else {
        assert(s.subrange(0, k) =~= s);
    }
}

/// The value of the decimal digits `s[start..end]`, if they are all digits,
/// there is at least one, and the value does not exceed `limit`.
fn parse_decimal(s: &[u8], start: usize, end: usize, limit: usize) -> (r: Option<usize>)
    requires
        start <= end <= s@.len(),
    ensures
        r matches Some(v) ==> all_digits(s@.subrange(start as int, end as int)) && v
            == decimal_value(s@.subrange(start as int, end as int)),
        r is None ==> !all_digits(s@.subrange(start as int, end as int)) || decimal_value(
            s@.subrange(start as int, end as int),
        ) > limit,
{
    let ghost t = s@.subrange(start as int, end as int);
    if start == end {
        return None;
    }
    let mut i = start;
    let mut acc: usize = 0;
    while i < end
        invariant
            start <= i <= end,
            end <= s@.len(),
            t == s@.subrange(start as int, end as int),
            forall|j: int| start <= j < i ==> is_digit(#[trigger] s@[j]),
            acc == decimal_value(t.subrange(0, i - start)),
            acc <= limit,
        decreases end - i,
    {
        let c = s[i];
        if c < 48 || c > 57 {
            assert(!is_digit(t[i - start]));
            return None;
        }
        let d = (c - 48) as usize;
        let next: u128 = acc as u128 * 10 + d as u128;
        assert(t.subrange(0, i + 1 - start).drop_last() =~= t.subrange(0, i - start));
        if next > limit as u128 {
            proof {
                if all_digits(t) {
                    lemma_decimal_prefix_le(t, i + 1 - start);
                }
            }
            return None;
        }
        acc = next as usize;
        i = i + 1;
    }
    assert(t.subrange(0, end - start) =~= t);
    Some(acc)
}

/// Reads an object's text: `<kind> <size>\0<payload>`.
pub fn parse_object(s: &[u8]) -> (r: Result<GitObject, ObjectError>)
    ensures
        r matches Ok(o) ==> parse_object_spec(s@) == Some((o.kind, o.payload@)),
        r is Err ==> parse_object_spec(s@) is None && r == Err::<GitObject, ObjectError>(
            ObjectError::Corrupt,
        ),
{
    let z = find_byte(s, 0, 0, s.len());
    if z == s.len() {
        return Err(ObjectError::Corrupt);
    }
    assert(first_index_of(s@, 0, z as int));
    proof {
        let zc = choose|z: int| first_index_of(s@, 0, z);
        lemma_first_index_unique(s@, 0, z as int, zc);
    }
    let ghost head = s@.subrange(0, z as int);
    let p = find_byte(s, 32, 0, z);
    if p == z {
        assert forall|q: int| !first_index_of(head, 32, q) by {
            if first_index_of(head, 32, q) {
                assert(head[q] == s@[q]);
            }
        }
        return Err(ObjectError::Corrupt);
    }
    assert(first_index_of(head, 32, p as int));
    proof {
        let pc = choose|p: int| first_index_of(head, 32, p);
        lemma_first_index_unique(head, 32, p as int, pc);
    }
    assert(head.subrange(0, p as int) =~= s@.subrange(0, p as int));
    assert(head.subrange(p + 1, z as int) =~= s@.subrange(p + 1, z as int));
    let kind = kind_from_bytes(s, 0, p);
    let body_len = s.len() - z - 1;
    let size = parse_decimal(s, p + 1, z, body_len);
    match (kind, size) {
        (Some(k), Some(n)) => {
            if n != body_len {
                return Err(ObjectError::Corrupt);
            }
            let payload = copy_range(s, z + 1, s.len());
            Ok(GitObject { kind: k, payload })
        },
        _ => Err(ObjectError::Corrupt),
    }
}

/// A loose object as it is written to the store: its raw hash, the hash as
/// hex text, and the compressed canonical text.
pub struct LooseObject {
    pub hash: Vec<u8>,
    pub hex: Vec<u8>,
    pub compressed: Vec<u8>,
}

/// The loose form of an object, hashed and compressed. Loading what it
/// returns gives back the kind and the payload.
pub fn encode_loose(k: ObjectKind, payload: &[u8]) -> (r: LooseObject)
    ensures
        r.hash@ == object_hash(k, payload@),
        r.hex@ == hex_of(r.hash@),
        load_spec(r.compressed@) == Some((k, payload@)),
{
    let text = serialize_object(k, payload);
    let hash = sha1_digest(&text);
    let hex = hex_encode(&hash);
    let compressed = deflate(&text).unwrap();
    proof {
        lemma_parse_serialize(k, payload@);
    }
    LooseObject { hash, hex, compressed }
}

/// Reads a loose object's file contents back: inflate, then parse.
pub fn decode_loose(compressed: &[u8]) -> (r: Result<GitObject, ObjectError>)
    ensures
        r matches Ok(o) ==> load_spec(compressed@) == Some((o.kind, o.payload@)),
        r is Err ==> load_spec(compressed@) is None && r == Err::<GitObject, ObjectError>(
            ObjectError::Corrupt,
        ),
{
    match inflate(compressed) {
        Some((text, _)) => parse_object(&text),
        None => Err(ObjectError::Corrupt),
    }
}

/// Where a loose object lives under `.git`: `objects/<first two hex
/// digits>/<the other thirty-eight>`.
pub open spec fn object_path_spec(hex: Seq<u8>) -> Seq<u8> {
    seq![111u8, 98, 106, 101, 99, 116, 115, 47] + hex.subrange(0, 2) + seq![47u8] + hex.subrange(
        2,
        hex.len() as int,
    )
}

/// The path of a loose object under `.git`, from its hash as hex text.
pub fn object_path(hex: &[u8]) -> (r: Vec<u8>)
    requires
        hex@.len() >= 2,
    ensures
        r@ == object_path_spec(hex@),
{
    let mut r = vec![111u8, 98, 106, 101, 99, 116, 115, 47];
    append_bytes(&mut r, &hex[0..2]);
    r.push(47u8);
    append_bytes(&mut r, &hex[2..hex.len()]);
    assert(r@ =~= object_path_spec(hex@));
    r
}

} // verus!
