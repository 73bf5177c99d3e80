//! Packfiles: a `PACK` header, entries that are whole objects or deltas
//! against earlier ones, and a SHA-1 trailer over everything before it.

use vstd::prelude::*;

use crate::buf::bytes_equal;
use crate::delta::{read_varint, resolve_delta, resolve_spec, varint_end, varint_spec, DeltaError};
use crate::digest::{inflate, inflate_of, sha1_digest, sha1_of};
use crate::object::{object_hash, ObjectKind};
use crate::store::{holds_hash, store_wf, store_write, EntrySpec, ObjectStore};

verus! {

/// The fixed header of a packfile.
#[derive(Clone, Debug)]
pub struct PackHeader {
    pub signature: Vec<u8>,
    pub version: u32,
    pub objects: u32,
}

/// Why a packfile was refused.
#[derive(Clone, Copy, Debug, PartialEq, Eq, Structural)]
pub enum PackError {
    /// Too short to hold a header and a trailer, or an entry runs past the
    /// end of the body.
    ShortPack,
    /// The trailer is not the SHA-1 of the bytes before it.
    ChecksumMismatch,
    /// The first four bytes are not `PACK`.
    BadSignature,
    /// The version is not 2.
    BadVersion,
    /// An entry's header, zlib stream or declared size is wrong.
    Corrupt,
    /// An entry type that is not 1, 2, 3, 4, 6 or 7.
    UnknownType,
    /// A delta's base is neither in the store nor earlier in the pack.
    BaseNotFound,
    /// A delta copies bytes from outside its base.
    DeltaOutOfBounds,
    /// Bytes remain between the last entry and the trailer.
    ExtraBytes,
}

/// Length of the SHA-1 trailer.
pub const TRAILER_LEN: usize = 20;

/// Length of the fixed header.
pub const HEADER_LEN: usize = 12;

/// The big-endian 32-bit integer at `i`.
pub open spec fn be_u32(s: Seq<u8>, i: int) -> nat {
    s[i] as nat * 16777216 + s[i + 1] as nat * 65536 + s[i + 2] as nat * 256 + s[i + 3] as nat
}

/// The bytes the trailer covers.
pub open spec fn pack_body(s: Seq<u8>) -> Seq<u8> {
    s.subrange(0, s.len() - 20)
}

/// The last 20 bytes are the SHA-1 of everything before them.
pub open spec fn checksum_ok(s: Seq<u8>) -> bool {
    s.len() >= 20 && sha1_of(pack_body(s)) == s.subrange(s.len() - 20, s.len() as int)
}

/// The kind of a whole-object entry type.
pub open spec fn kind_of_code(code: u8) -> Option<ObjectKind> {
    if code == 1 {
        Some(ObjectKind::Commit)
    } else if code == 2 {
        Some(ObjectKind::Tree)
    } else if code == 3 {
        Some(ObjectKind::Blob)
    } else if code == 4 {
        Some(ObjectKind::Tag)
    } else {
        None
    }
}

/// An entry's type-and-size header at `pos`: bits 6..4 of the first byte are
/// the type, its low four bits the low bits of the size, and continuation
/// bytes add seven bits each, shifted by `7*i + 4`.
pub open spec fn entry_header_spec(s: Seq<u8>, pos: int) -> Option<(u8, nat, int)> {
    if !(0 <= pos < s.len()) {
        None
    } else {
        let b = s[pos];
        let code = ((b / 16) % 8) as u8;
        if b < 128 {
            Some((code, (b % 16) as nat, pos + 1))
        } else {
            match varint_spec(s, pos + 1) {
                Some((v, n)) => Some((code, (b % 16) as nat + 16 * v, n)),
                None => None,
            }
        }
    }
}

/// The offset-delta distance after `n` of its bytes from `pos`: each
/// continuation adds one before shifting.
pub open spec fn ofs_value(s: Seq<u8>, pos: int, n: nat) -> nat
    decreases n,
{
    if n <= 1 {
        (s[pos] % 128) as nat
    } else {
        (ofs_value(s, pos, (n - 1) as nat) + 1) * 128 + (s[pos + n - 1] % 128) as nat
    }
}

/// The offset-delta distance at `pos` and the position after it.
pub open spec fn ofs_spec(s: Seq<u8>, pos: int) -> Option<(nat, int)> {
    if exists|k: int| varint_end(s, pos, k) {
        let k = choose|k: int| varint_end(s, pos, k);
        Some((ofs_value(s, pos, (k - pos + 1) as nat), k + 1))
    } else {
        None
    }
}

proof fn lemma_ofs_mono(s: Seq<u8>, pos: int, n: nat, m: nat)
    requires
        1 <= n <= m,
    ensures
        ofs_value(s, pos, n) <= ofs_value(s, pos, m),
    decreases m - n,
{
    if n < m {
        lemma_ofs_mono(s, pos, n, (m - 1) as nat);
    }
}

/// Whether the trailer matches the SHA-1 of the bytes before it.
pub fn verify_checksum(data: &[u8]) -> (r: bool)
    ensures
        r == checksum_ok(data@),
{
    if data.len() < TRAILER_LEN {
        return false;
    }
    let split = data.len() - TRAILER_LEN;
    let digest = sha1_digest(&data[0..split]);
    bytes_equal(&digest, &data[split..data.len()])
}

/// Reads the fixed header: `PACK`, version 2, the object count.
pub fn parse_header(data: &[u8]) -> (r: Result<PackHeader, PackError>)
    ensures
        r matches Ok(h) ==> {
            &&& data@.len() >= 12
            &&& data@.subrange(0, 4) == seq![80u8, 65, 67, 75]
            &&& be_u32(data@, 4) == 2
            &&& h.version == 2
            &&& h.objects as nat == be_u32(data@, 8)
            &&& h.signature@ == data@.subrange(0, 4)
        },
        r matches Err(e) ==> {
            ||| data@.len() < 12 && e == PackError::ShortPack
            ||| data@.len() >= 12 && data@.subrange(0, 4) != seq![80u8, 65, 67, 75] && e
                == PackError::BadSignature
            ||| data@.len() >= 12 && data@.subrange(0, 4) == seq![80u8, 65, 67, 75] && be_u32(
                data@,
                4,
            ) != 2 && e == PackError::BadVersion
        },
{
    if data.len() < HEADER_LEN {
        return Err(PackError::ShortPack);
    }
    let magic = vec![80u8, 65, 67, 75];
    if !bytes_equal(&data[0..4], &magic) {
        assert(magic@ =~= seq![80u8, 65, 67, 75]);
        return Err(PackError::BadSignature);
    }
    assert(magic@ =~= seq![80u8, 65, 67, 75]);
    let version: u32 = data[4] as u32 * 16777216 + data[5] as u32 * 65536 + data[6] as u32 * 256
        + data[7] as u32;
    if version != 2 {
        return Err(PackError::BadVersion);
    }
    let objects: u32 = data[8] as u32 * 16777216 + data[9] as u32 * 65536 + data[10] as u32 * 256
        + data[11] as u32;
    let signature = crate::buf::copy_range(data, 0, 4);
    Ok(PackHeader { signature, version, objects })
}

/// Reads an entry's type-and-size header at `pos`.
pub fn read_entry_header(s: &[u8], pos: usize) -> (r: Option<(u8, u64, usize)>)
    requires
        pos <= s@.len(),
    ensures
        r matches Some((c, n, q)) ==> entry_header_spec(s@, pos as int) == Some(
            (c, n as nat, q as int),
        ) && pos < q <= s@.len(),
        r is None ==> match entry_header_spec(s@, pos as int) {
            Some((_, n, _)) => n > u64::MAX,
            None => true,
        },
{
    if pos >= s.len() {
        return None;
    }
    let b = s[pos];
    let code = (b / 16) % 8;
    if b < 128 {
        return Some((code, (b % 16) as u64, pos + 1));
    }
    match read_varint(s, pos + 1) {
        Some((v, n)) => {
            if v > (u64::MAX - 15) / 16 {
                return None;
            }
            Some((code, (b % 16) as u64 + 16 * v, n))
        },
        None => None,
    }
}

/// Reads an offset-delta distance at `pos`. Fails where no byte ends it or
/// the value reaches 2^56.
pub fn read_ofs(s: &[u8], pos: usize) -> (r: Option<(u64, usize)>)
    requires
        pos <= s@.len(),
    ensures
        r matches Some((v, q)) ==> ofs_spec(s@, pos as int) == Some((v as nat, q as int)) && q
            <= s@.len(),
        r is None ==> match ofs_spec(s@, pos as int) {
            Some((v, _)) => v >= 0x100_0000_0000_0000,
            None => true,
        },
{
    if pos >= s.len() {
        assert forall|k: int| !varint_end(s@, pos as int, k) by {}
        return None;
    }
    let mut v: u64 = (s[pos] % 128) as u64;
    let mut i = pos;
    while s[i] >= 128
        invariant
            pos <= i < s@.len(),
            forall|j: int| pos <= j < i ==> s@[j] >= 128,
            v as nat == ofs_value(s@, pos as int, (i - pos + 1) as nat),
        decreases s@.len() - i,
    {
        if i + 1 >= s.len() {
            assert forall|k: int| !varint_end(s@, pos as int, k) by {
                if varint_end(s@, pos as int, k) {
                    assert(s@[k] < 128);
                }
            }
            return None;
        }
        if v >= 0x100_0000_0000_0000 {
            proof {
                if exists|k: int| varint_end(s@, pos as int, k) {
                    let k = choose|k: int| varint_end(s@, pos as int, k);
                    assert(k > i) by {
                        if k < i {
                            assert(s@[k] >= 128);
                        }
                    }
                    lemma_ofs_mono(s@, pos as int, (i - pos + 1) as nat, (k - pos + 1) as nat);
                }
            }
            return None;
        }
        v = (v + 1) * 128 + (s[i + 1] % 128) as u64;
        i = i + 1;
    }
    assert(varint_end(s@, pos as int, i as int));
    proof {
        let k = choose|k: int| varint_end(s@, pos as int, k);
        assert(k == i) by {
            if k < i {
                assert(s@[k] >= 128);
            }
            if k > i {
                assert(s@[i as int] >= 128);
            }
        }
    }
    Some((v, i + 1))
}

/// Where an in-pack index entry points: a pack offset and a store position.
pub type IndexEntry = (usize, usize);

/// The outcome of decoding one entry: kind, payload and where the next entry
/// starts, or the error.
pub type EntryOutcome = Result<(ObjectKind, Seq<u8>, int), PackError>;

/// The pack error that a delta error becomes.
pub open spec fn pack_error_of(e: DeltaError) -> PackError {
    match e {
        DeltaError::Corrupt => PackError::Corrupt,
        DeltaError::OutOfBounds => PackError::DeltaOutOfBounds,
    }
}

/// A whole object's stream at `q`: it must inflate to exactly `size` bytes.
pub open spec fn whole_result(body: Seq<u8>, q: int, size: nat, k: ObjectKind) -> EntryOutcome {
    match inflate_of(body.subrange(q, body.len() as int)) {
        Some((d, used)) => if d.len() == size {
            Ok((k, d, q + used))
        } else {
            Err(PackError::Corrupt)
        },
        None => Err(PackError::Corrupt),
    }
}

/// A delta stream at `start`: it must inflate to exactly `size` bytes and
/// then rebuild an object from `base`.
pub open spec fn delta_result(body: Seq<u8>, start: int, size: nat, base: Seq<u8>) -> Result<
    (Seq<u8>, int),
    PackError,
> {
    match inflate_of(body.subrange(start, body.len() as int)) {
        Some((d, used)) => if d.len() == size {
            match resolve_spec(base, d) {
                Ok(p) => Ok((p, start + used)),
                Err(e) => Err(pack_error_of(e)),
            }
        } else {
            Err(PackError::Corrupt)
        },
        None => Err(PackError::Corrupt),
    }
}

/// A delta's outcome, carrying the kind of its base.
pub open spec fn with_kind(k: ObjectKind, r: Result<(Seq<u8>, int), PackError>) -> EntryOutcome {
    match r {
        Ok((p, n)) => Ok((k, p, n)),
        Err(e) => Err(e),
    }
}

/// The store position of the object named `h`.
pub open spec fn position_of(store: Seq<EntrySpec>, h: Seq<u8>) -> int {
    choose|i: int| 0 <= i < store.len() && store[i].0 == h
}

/// Whether an entry of the in-pack index starts at `off`.
pub open spec fn index_has(index: Seq<IndexEntry>, off: int) -> bool {
    exists|j: int| 0 <= j < index.len() && index[j].0 == off
}

/// The index entry for the entry that starts at `off`.
pub open spec fn index_at(index: Seq<IndexEntry>, off: int) -> int {
    choose|j: int| 0 <= j < index.len() && index[j].0 == off
}

/// Offsets in the index are distinct and its store positions are in range.
pub open spec fn index_wf(index: Seq<IndexEntry>, store_len: nat) -> bool {
    &&& forall|j: int| 0 <= j < index.len() ==> (#[trigger] index[j]).1 < store_len
    &&& forall|i: int, j: int|
        0 <= i < j < index.len() ==> (#[trigger] index[i]).0 != (#[trigger] index[j]).0
}

/// A ref-delta whose base hash stands at `q`.
pub open spec fn ref_result(body: Seq<u8>, q: int, size: nat, store: Seq<EntrySpec>) -> EntryOutcome {
    if q + 20 > body.len() {
        Err(PackError::ShortPack)
    } else if holds_hash(store, body.subrange(q, q + 20)) {
        let i = position_of(store, body.subrange(q, q + 20));
        with_kind(store[i].1, delta_result(body, q + 20, size, store[i].2))
    } else {
        Err(PackError::BaseNotFound)
    }
}

/// An offset-delta at `pos` whose distance stands at `q`.
pub open spec fn ofs_result(
    body: Seq<u8>,
    pos: int,
    q: int,
    size: nat,
    index: Seq<IndexEntry>,
    store: Seq<EntrySpec>,
) -> EntryOutcome {
    match ofs_spec(body, q) {
        None => Err(PackError::Corrupt),
        Some((o, q2)) => if o >= 0x100_0000_0000_0000 {
            Err(PackError::Corrupt)
        } else if o > pos || !index_has(index, pos - o) {
            Err(PackError::BaseNotFound)
        } else {
            let si = index[index_at(index, pos - o)].1 as int;
            if si < store.len() {
                with_kind(store[si].1, delta_result(body, q2, size, store[si].2))
            } else {
                Err(PackError::BaseNotFound)
            }
        },
    }
}

/// Decoding the entry at `pos` against the store and the in-pack index.
/// Past the end of the body: `ShortPack`. A header without its last byte
/// or with a size over 64 bits: `Corrupt`. Types 1 to 4 are whole objects.
/// Type 7 names its base by the 20 bytes after the header: `BaseNotFound`
/// when the store lacks it. Type 6 names the entry that starts that many
/// bytes earlier: `BaseNotFound` when no indexed entry starts there.
/// Anything else: `UnknownType`.
pub open spec fn entry_result(
    body: Seq<u8>,
    pos: int,
    index: Seq<IndexEntry>,
    store: Seq<EntrySpec>,
) -> EntryOutcome {
    if pos < 0 || pos >= body.len() {
        Err(PackError::ShortPack)
    } else {
        match entry_header_spec(body, pos) {
            None => Err(PackError::Corrupt),
            Some((code, size, q)) => if size > u64::MAX {
                Err(PackError::Corrupt)
            } else if kind_of_code(code) is Some {
                whole_result(body, q, size, kind_of_code(code).unwrap())
            } else if code == 7 {
                ref_result(body, q, size, store)
            } else if code == 6 {
                ofs_result(body, pos, q, size, index, store)
            } else {
                Err(PackError::UnknownType)
            },
        }
    }
}

fn delta_error(e: DeltaError) -> (r: PackError)
    ensures
        r == pack_error_of(e),
{
    match e {
        DeltaError::Corrupt => PackError::Corrupt,
        DeltaError::OutOfBounds => PackError::DeltaOutOfBounds,
    }
}

/// Inflates the delta stream at `start` and applies it to `base`.
fn resolve_at(body: &[u8], start: usize, size: u64, base: &[u8]) -> (r: Result<
    (Vec<u8>, usize),
    PackError,
>)
    requires
        start <= body@.len(),
    ensures
        r matches Ok((p, n)) ==> delta_result(body@, start as int, size as nat, base@) == Ok::<
            (Seq<u8>, int),
            PackError,
        >((p@, n as int)) && start <= n <= body@.len(),
        r matches Err(e) ==> delta_result(body@, start as int, size as nat, base@) == Err::<
            (Seq<u8>, int),
            PackError,
        >(e),
{
    let (d, used) = match inflate(&body[start..body.len()]) {
        Some(x) => x,
        None => {
            return Err(PackError::Corrupt);
        },
    };
    if d.len() as u64 != size {
        return Err(PackError::Corrupt);
    }
    let p = match resolve_delta(base, &d) {
        Ok(p) => p,
        Err(e) => {
            return Err(delta_error(e));
        },
    };
    Ok((p, start + used))
}

/// The position of the index entry for offset `offset`, if indexed.
fn index_lookup(index: &Vec<IndexEntry>, offset: usize) -> (r: Option<usize>)
    ensures
        r matches Some(j) ==> j < index@.len() && index@[j as int].0 == offset,
        r is None ==> !index_has(index@, offset as int),
{
    let mut j: usize = 0;
    while j < index.len()
        invariant
            j <= index@.len(),
            forall|i: int| 0 <= i < j ==> (#[trigger] index@[i]).0 != offset,
        decreases index@.len() - j,
    {
        if index[j].0 == offset {
            return Some(j);
        }
        j = j + 1;
    }
    None
}

proof fn lemma_position_unique(store: Seq<EntrySpec>, h: Seq<u8>, i: int)
    requires
        store_wf(store),
        0 <= i < store.len(),
        store[i].0 == h,
    ensures
        position_of(store, h) == i,
{
    let c = position_of(store, h);
    if c != i {
        if c < i {
            assert(store[c].0 != store[i].0);
        } else {
            assert(store[i].0 != store[c].0);
        }
    }
}

/// Decodes a whole object's stream at `q`.
fn decode_whole(body: &[u8], q: usize, size: u64, k: ObjectKind) -> (r: Result<
    (ObjectKind, Vec<u8>, usize),
    PackError,
>)
    requires
        q <= body@.len(),
    ensures
        r matches Ok((k2, p, n)) ==> whole_result(body@, q as int, size as nat, k) == Ok::<
            (ObjectKind, Seq<u8>, int),
            PackError,
        >((k2, p@, n as int)) && q <= n <= body@.len(),
        r matches Err(e) ==> whole_result(body@, q as int, size as nat, k) == Err::<
            (ObjectKind, Seq<u8>, int),
            PackError,
        >(e),
{
    let (p, used) = match inflate(&body[q..body.len()]) {
        Some(x) => x,
        None => {
            return Err(PackError::Corrupt);
        },
    };
    if p.len() as u64 != size {
        return Err(PackError::Corrupt);
    }
    Ok((k, p, q + used))
}

/// Decodes a ref-delta whose base hash stands at `q`.
fn decode_ref(body: &[u8], q: usize, size: u64, store: &ObjectStore) -> (r: Result<
    (ObjectKind, Vec<u8>, usize),
    PackError,
>)
    requires
        q <= body@.len(),
        store.wf(),
    ensures
        r matches Ok((k, p, n)) ==> ref_result(body@, q as int, size as nat, store@) == Ok::<
            (ObjectKind, Seq<u8>, int),
            PackError,
        >((k, p@, n as int)) && q <= n <= body@.len(),
        r matches Err(e) ==> ref_result(body@, q as int, size as nat, store@) == Err::<
            (ObjectKind, Seq<u8>, int),
            PackError,
        >(e),
{
    if body.len() - q < 20 {
        return Err(PackError::ShortPack);
    }
    let si = match store.find(&body[q..q + 20]) {
        Some(i) => i,
        None => {
            return Err(PackError::BaseNotFound);
        },
    };
    proof {
        lemma_position_unique(store@, body@.subrange(q as int, q + 20), si as int);
    }
    let base = store.get(si);
    let (p, n) = resolve_at(body, q + 20, size, base.payload.as_slice())?;
    Ok((base.kind, p, n))
}

/// Decodes an offset-delta at `pos` whose distance stands at `q`.
fn decode_ofs(
    body: &[u8],
    pos: usize,
    q: usize,
    size: u64,
    index: &Vec<IndexEntry>,
    store: &ObjectStore,
) -> (r: Result<(ObjectKind, Vec<u8>, usize), PackError>)
    requires
        q <= body@.len(),
        index_wf(index@, store@.len()),
    ensures
        r matches Ok((k, p, n)) ==> ofs_result(body@, pos as int, q as int, size as nat, index@, store@)
            == Ok::<(ObjectKind, Seq<u8>, int), PackError>((k, p@, n as int)) && q <= n
            <= body@.len(),
        r matches Err(e) ==> ofs_result(body@, pos as int, q as int, size as nat, index@, store@)
            == Err::<(ObjectKind, Seq<u8>, int), PackError>(e),
{
    let (o, q2) = match read_ofs(body, q) {
        Some(x) => x,
        None => {
            return Err(PackError::Corrupt);
        },
    };
    if o >= 0x100_0000_0000_0000 {
        return Err(PackError::Corrupt);
    }
    if o > pos as u64 {
        return Err(PackError::BaseNotFound);
    }
    let j = match index_lookup(index, pos - o as usize) {
        Some(j) => j,
        None => {
            return Err(PackError::BaseNotFound);
        },
    };
    proof {
        let off = pos - o;
        let jc = index_at(index@, off);
        if jc != j {
            if jc < j {
                assert(index@[jc].0 != index@[j as int].0);
            } else {
                assert(index@[j as int].0 != index@[jc].0);
            }
        }
    }
    let base = store.get(index[j].1);
    let (p, n) = resolve_at(body, q2, size, base.payload.as_slice())?;
    Ok((base.kind, p, n))
}

/// Decodes the entry at `pos` against the store and the in-pack index.
pub fn decode_entry(body: &[u8], pos: usize, index: &Vec<IndexEntry>, store: &ObjectStore) -> (r:
    Result<(ObjectKind, Vec<u8>, usize), PackError>)
    requires
        pos <= body@.len(),
        store.wf(),
        index_wf(index@, store@.len()),
    ensures
        r matches Ok((k, p, n)) ==> entry_result(body@, pos as int, index@, store@) == Ok::<
            (ObjectKind, Seq<u8>, int),
            PackError,
        >((k, p@, n as int)) && pos < n <= body@.len(),
        r matches Err(e) ==> entry_result(body@, pos as int, index@, store@) == Err::<
            (ObjectKind, Seq<u8>, int),
            PackError,
        >(e),
{
    if pos >= body.len() {
        return Err(PackError::ShortPack);
    }
    let (code, size, q) = match read_entry_header(body, pos) {
        Some(x) => x,
        None => {
            return Err(PackError::Corrupt);
        },
    };
    let kind = if code == 1 {
        Some(ObjectKind::Commit)
    } else if code == 2 {
        Some(ObjectKind::Tree)
    } else if code == 3 {
        Some(ObjectKind::Blob)
    } else if code == 4 {
        Some(ObjectKind::Tag)
    } else {
        None
    };
    assert(kind == kind_of_code(code));
    match kind {
        Some(k) => decode_whole(body, q, size, k),
        None => {
            if code == 7 {
                decode_ref(body, q, size, store)
            } else if code == 6 {
                decode_ofs(body, pos, q, size, index, store)
            } else {
                Err(PackError::UnknownType)
            }
        },
    }
}

/// What decoding a pack produced: its header, and the hash of each entry's
/// object in pack order.
#[derive(Clone, Debug)]
pub struct PackSummary {
    pub header: PackHeader,
    pub hashes: Vec<Vec<u8>>,
}

/// Decoding `remaining` entries from `pos`, writing each object into the
/// store and indexing its offset as it goes: the store afterwards, the
/// objects' hashes in order, and where the last entry ended.
pub open spec fn run_entries(
    body: Seq<u8>,
    pos: int,
    index: Seq<IndexEntry>,
    store: Seq<EntrySpec>,
    remaining: nat,
) -> Result<(Seq<EntrySpec>, Seq<Seq<u8>>, int), PackError>
    decreases remaining,
{
    if remaining == 0 {
        Ok((store, Seq::empty(), pos))
    } else {
        match entry_result(body, pos, index, store) {
            Err(e) => Err(e),
            Ok((k, p, n)) => {
                let h = object_hash(k, p);
                let s2 = store_write(store, (h, k, p));
                let entry = (pos as usize, position_of(s2, h) as usize);
                prepend_hashes(
                    seq![h],
                    run_entries(body, n, index.push(entry), s2, (remaining - 1) as nat),
                )
            },
        }
    }
}

/// Puts `hs` before the hashes of a decoding outcome.
pub open spec fn prepend_hashes(
    hs: Seq<Seq<u8>>,
    r: Result<(Seq<EntrySpec>, Seq<Seq<u8>>, int), PackError>,
) -> Result<(Seq<EntrySpec>, Seq<Seq<u8>>, int), PackError> {
    match r {
        Ok((s, rest, e)) => Ok((s, hs + rest, e)),
        Err(e) => Err(e),
    }
}

/// Decoding the `count` entries of a pack body into `initial`: the entries
/// must end exactly where the body ends, else `ExtraBytes`.
pub open spec fn pack_result(body: Seq<u8>, initial: Seq<EntrySpec>, count: nat) -> Result<
    (Seq<EntrySpec>, Seq<Seq<u8>>),
    PackError,
> {
    match run_entries(body, 12, Seq::empty(), initial, count) {
        Ok((s, hs, e)) => if e == body.len() {
            Ok((s, hs))
        } else {
            Err(PackError::ExtraBytes)
        },
        Err(e) => Err(e),
    }
}

/// Decodes a whole pack into the store. The trailer is checked before
/// anything else, so a pack whose checksum fails leaves the store as it was;
/// so does one whose header is wrong. After that the outcome is exactly
/// `pack_result`: objects are written in pack order, and the pack is
/// accepted exactly when the announced number of entries decode and fill the
/// body.
#[verifier::rlimit(60)]
pub fn decode_pack(data: &[u8], store: &mut ObjectStore) -> (r: Result<PackSummary, PackError>)
    requires
        old(store).wf(),
    ensures
        final(store).wf(),
        final(store)@.len() >= old(store)@.len(),
        final(store)@.subrange(0, old(store)@.len() as int) == old(store)@,
        !checksum_ok(data@) ==> r == Err::<PackSummary, PackError>(PackError::ChecksumMismatch)
            && final(store)@ == old(store)@,
        checksum_ok(data@) && pack_body(data@).len() < 12 ==> r == Err::<PackSummary, PackError>(
            PackError::ShortPack,
        ) && final(store)@ == old(store)@,
        checksum_ok(data@) && pack_body(data@).len() >= 12 && pack_body(data@).subrange(0, 4) != seq![
            80u8,
            65,
            67,
            75,
        ] ==> r == Err::<PackSummary, PackError>(PackError::BadSignature) && final(store)@ == old(
            store,
        )@,
        checksum_ok(data@) && pack_body(data@).len() >= 12 && pack_body(data@).subrange(0, 4) == seq![
            80u8,
            65,
            67,
            75,
        ] && be_u32(pack_body(data@), 4) != 2 ==> r == Err::<PackSummary, PackError>(
            PackError::BadVersion,
        ) && final(store)@ == old(store)@,
        checksum_ok(data@) && pack_body(data@).len() >= 12 && pack_body(data@).subrange(0, 4) == seq![
            80u8,
            65,
            67,
            75,
        ] && be_u32(pack_body(data@), 4) == 2 ==> match pack_result(
            pack_body(data@),
            old(store)@,
            be_u32(pack_body(data@), 8),
        ) {
            Ok((s, hs)) => r is Ok && final(store)@ == s && r->Ok_0.hashes@.map_values(
                |h: Vec<u8>| h@,
            ) == hs && r->Ok_0.header.objects as nat == be_u32(pack_body(data@), 8),
            Err(e) => r == Err::<PackSummary, PackError>(e),
        },
{
    if !verify_checksum(data) {
        assert(store@.subrange(0, store@.len() as int) =~= store@);
        return Err(PackError::ChecksumMismatch);
    }
    let end = data.len() - TRAILER_LEN;
    let body = &data[0..end];
    let header = match parse_header(body) {
        Ok(h) => h,
        Err(e) => {
            assert(store@.subrange(0, store@.len() as int) =~= store@);
            return Err(e);
        },
    };
    let ghost start = store@;
    let ghost total = run_entries(body@, 12, Seq::empty(), start, header.objects as nat);
    let mut index: Vec<IndexEntry> = Vec::new();
    let mut hashes: Vec<Vec<u8>> = Vec::new();
    let mut pos: usize = HEADER_LEN;
    let mut count: u32 = 0;
    assert(hashes@.map_values(|h: Vec<u8>| h@) =~= Seq::<Seq<u8>>::empty());
    proof {
        match total {
            Ok((s, hs, e)) => {
                assert(Seq::<Seq<u8>>::empty() + hs =~= hs);
            },
            Err(_) => {},
        }
    }
    while count < header.objects
        invariant
            store.wf(),
            checksum_ok(data@),
            body@ == pack_body(data@),
            body@.len() >= 12,
            body@.subrange(0, 4) == seq![80u8, 65, 67, 75],
            be_u32(body@, 4) == 2,
            header.objects as nat == be_u32(body@, 8),
            start == old(store)@,
            total == run_entries(body@, 12, Seq::empty(), start, header.objects as nat),
            store@.len() >= start.len(),
            store@.subrange(0, start.len() as int) == start,
            HEADER_LEN <= pos <= body@.len(),
            count <= header.objects,
            hashes@.len() == count,
            index@.len() == count,
            index_wf(index@, store@.len()),
            forall|j: int| 0 <= j < index@.len() ==> (#[trigger] index@[j]).0 < pos,
            total == prepend_hashes(
                hashes@.map_values(|h: Vec<u8>| h@),
                run_entries(body@, pos as int, index@, store@, (header.objects - count) as nat),
            ),
        decreases header.objects - count,
    {
        let ghost done = hashes@.map_values(|h: Vec<u8>| h@);
        let ghost rest = (header.objects - count) as nat;
        let (kind, payload, next) = match decode_entry(body, pos, &index, store) {
            Ok(x) => x,
            Err(e) => {
                return Err(e);
            },
        };
        let ghost before = store@;
        let ghost pv = payload@;
        let h = store.write(kind, payload);
        proof {
            assert(store@.subrange(0, start.len() as int) =~= before.subrange(0, start.len() as int));
            assert forall|p: int| 0 <= p < before.len() implies #[trigger] store@[p] == before[p] by {
                if !holds_hash(before, h@) {
                    assert(store@ == before.push((h@, kind, pv)));
                }
            }
        }
        let si = match store.find(&h) {
            Some(i) => i,
            None => {
                proof {
                    if !holds_hash(before, h@) {
                        assert(store@[before.len() as int].0 == h@);
                    }
                }
                return Err(PackError::Corrupt);
            },
        };
        proof {
            lemma_position_unique(store@, h@, si as int);
            let nxt = run_entries(
                body@,
                next as int,
                index@.push((pos, si)),
                store@,
                (rest - 1) as nat,
            );
            assert(run_entries(body@, pos as int, index@, before, rest) == prepend_hashes(
                seq![h@],
                nxt,
            ));
            match nxt {
                Ok((s, hs, e)) => {
                    assert(done + (seq![h@] + hs) =~= done.push(h@) + hs);
                },
                Err(_) => {},
            }
        }
        index.push((pos, si));
        hashes.push(h);
        proof {
            assert(hashes@.map_values(|h: Vec<u8>| h@) =~= done.push(hashes@[count as int]@));
        }
        pos = next;
        count = count + 1;
    }
    proof {
        assert(hashes@.map_values(|h: Vec<u8>| h@) + Seq::<Seq<u8>>::empty() =~= hashes@.map_values(
            |h: Vec<u8>| h@,
        ));
    }
    if pos != body.len() {
        return Err(PackError::ExtraBytes);
    }
    Ok(PackSummary { header, hashes })
}

} // verus!
