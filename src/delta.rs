//! Delta streams: two size varints, then copy and insert instructions that
//! rebuild an object from a base.

use vstd::prelude::*;

use crate::buf::{append_bytes, copy_range};

verus! {

/// One delta instruction.
#[derive(Clone, Debug, PartialEq, Eq)]
pub enum DeltaOp {
    /// Append these literal bytes.
    Insert(Vec<u8>),
    /// Append `base[offset .. offset + size]`.
    Copy { offset: u64, size: u64 },
}

/// A delta instruction as a mathematical value.
pub ghost enum DeltaOpSpec {
    Insert(Seq<u8>),
    Copy(nat, nat),
}

impl View for DeltaOp {
    type V = DeltaOpSpec;

    open spec fn view(&self) -> DeltaOpSpec {
        match self {
            DeltaOp::Insert(d) => DeltaOpSpec::Insert(d@),
            DeltaOp::Copy { offset, size } => DeltaOpSpec::Copy(*offset as nat, *size as nat),
        }
    }
}

/// A parsed delta stream.
#[derive(Clone, Debug)]
pub struct Delta {
    pub base_size: u64,
    pub result_size: u64,
    pub ops: Vec<DeltaOp>,
}

/// Why a delta could not be read or applied.
#[derive(Clone, Copy, Debug, PartialEq, Eq, Structural)]
pub enum DeltaError {
    /// Truncated stream, a reserved zero instruction, a size that does not
    /// fit, or a result whose length is not the advertised one.
    Corrupt,
    /// A copy names bytes outside the base.
    OutOfBounds,
}

/// Seven-bit groups, low group first; the high bit of each byte only marks
/// continuation.
pub open spec fn le_value(g: Seq<u8>) -> nat
    decreases g.len(),
{
    if g.len() == 0 {
        0
    } else {
        (g[0] % 128) as nat + 128 * le_value(g.drop_first())
    }
}

/// `k` is the first byte at or after `pos` whose high bit is clear.
pub open spec fn varint_end(s: Seq<u8>, pos: int, k: int) -> bool {
    &&& pos <= k < s.len()
    &&& s[k] < 128
    &&& forall|j: int| pos <= j < k ==> s[j] >= 128
}

/// The little-endian varint at `pos`: its value and the position after it.
pub open spec fn varint_spec(s: Seq<u8>, pos: int) -> Option<(nat, int)> {
    if exists|k: int| varint_end(s, pos, k) {
        let k = choose|k: int| varint_end(s, pos, k);
        Some((le_value(s.subrange(pos, k + 1)), k + 1))
    } else {
        None
    }
}

proof fn lemma_varint_end_unique(s: Seq<u8>, pos: int, k1: int, k2: int)
    requires
        varint_end(s, pos, k1),
        varint_end(s, pos, k2),
    ensures
        k1 == k2,
{
}

proof fn lemma_le_value_suffix(s: Seq<u8>, a: int, b: int, e: int)
    requires
        0 <= a <= b <= e <= s.len(),
    ensures
        le_value(s.subrange(a, e)) >= le_value(s.subrange(b, e)),
    decreases b - a,
{
    if a < b {
        lemma_le_value_suffix(s, a + 1, b, e);
        assert(s.subrange(a, e).drop_first() =~= s.subrange(a + 1, e));
    }
}

/// Reads the little-endian varint at `pos`. Fails where no byte ends it or
/// its value does not fit in 64 bits.
pub fn read_varint(s: &[u8], pos: usize) -> (r: Option<(u64, usize)>)
    requires
        pos <= s@.len(),
    ensures
        r matches Some((v, n)) ==> varint_spec(s@, pos as int) == Some((v as nat, n as int)) && pos
            < n <= s@.len(),
        r is None ==> match varint_spec(s@, pos as int) {
            Some((v, _)) => v > u64::MAX,
            None => true,
        },
{
    let mut k = pos;
    while k < s.len() && s[k] >= 128
        invariant
            pos <= k <= s@.len(),
            forall|j: int| pos <= j < k ==> s@[j] >= 128,
        decreases s@.len() - k,
    {
        k = k + 1;
    }
    if k == s.len() {
        assert forall|k2: int| !varint_end(s@, pos as int, k2) by {
            if varint_end(s@, pos as int, k2) {
                assert(s@[k2] >= 128);
            }
        }
        return None;
    }
    assert(varint_end(s@, pos as int, k as int));
    let ghost kc = choose|k2: int| varint_end(s@, pos as int, k2);
    proof {
        lemma_varint_end_unique(s@, pos as int, k as int, kc);
    }
    assert(varint_spec(s@, pos as int) == Some((le_value(s@.subrange(pos as int, k + 1)), k + 1)));
    let mut acc: u64 = 0;
    let mut i = k + 1;
    assert(s@.subrange(i as int, k + 1) =~= Seq::<u8>::empty());
    while i > pos
        invariant
            pos <= i <= k + 1,
            k < s@.len(),
            acc as nat == le_value(s@.subrange(i as int, k + 1)),
            varint_spec(s@, pos as int) == Some((le_value(s@.subrange(pos as int, k + 1)), k + 1)),
        decreases i,
    {
        let next: u128 = (s[i - 1] % 128) as u128 + 128 * (acc as u128);
        assert(s@.subrange(i - 1, k + 1).drop_first() =~= s@.subrange(i as int, k + 1));
        assert(s@.subrange(i - 1, k + 1)[0] == s@[i - 1]);
        assert(next as nat == le_value(s@.subrange(i - 1, k + 1)));
        if next > u64::MAX as u128 {
            proof {
                lemma_le_value_suffix(s@, pos as int, i - 1, k + 1);
                assert(le_value(s@.subrange(pos as int, k + 1)) > u64::MAX);
            }
            return None;
        }
        acc = next as u64;
        i = i - 1;
    }
    Some((acc, k + 1))
}

/// Bit `j` of a copy instruction's lead byte.
pub open spec fn mask(j: int) -> u8 {
    if j == 0 {
        1
    } else if j == 1 {
        2
    } else if j == 2 {
        4
    } else if j == 3 {
        8
    } else if j == 4 {
        16
    } else if j == 5 {
        32
    } else {
        64
    }
}

pub open spec fn flag(lead: u8, j: int) -> int {
    if lead & mask(j) != 0 {
        1
    } else {
        0
    }
}

/// How many argument bytes come before argument `j` of a copy instruction.
pub open spec fn args_before(lead: u8, j: int) -> int {
    (if j > 0 {
        flag(lead, 0)
    } else {
        0
    }) + (if j > 1 {
        flag(lead, 1)
    } else {
        0
    }) + (if j > 2 {
        flag(lead, 2)
    } else {
        0
    }) + (if j > 3 {
        flag(lead, 3)
    } else {
        0
    }) + (if j > 4 {
        flag(lead, 4)
    } else {
        0
    }) + (if j > 5 {
        flag(lead, 5)
    } else {
        0
    }) + (if j > 6 {
        flag(lead, 6)
    } else {
        0
    })
}

/// Argument byte `j` of the copy instruction whose arguments start at `p`:
/// present when bit `j` of the lead is set, else zero.
pub open spec fn arg(s: Seq<u8>, p: int, lead: u8, j: int) -> nat {
    if lead & mask(j) != 0 {
        s[p + args_before(lead, j)] as nat
    } else {
        0
    }
}

/// The copy instruction whose lead byte is at `pos`: four offset bytes and
/// three size bytes, little-endian, each present only when its bit is set; a
/// size of zero means 0x10000.
pub open spec fn copy_spec(s: Seq<u8>, pos: int) -> Option<(DeltaOpSpec, int)> {
    let lead = s[pos];
    let p = pos + 1;
    if p + args_before(lead, 7) > s.len() {
        None
    } else {
        let offset = arg(s, p, lead, 0) + arg(s, p, lead, 1) * 256 + arg(s, p, lead, 2) * 65536
            + arg(s, p, lead, 3) * 16777216;
        let size0 = arg(s, p, lead, 4) + arg(s, p, lead, 5) * 256 + arg(s, p, lead, 6) * 65536;
        let size = if size0 == 0 {
            65536
        } else {
            size0
        };
        Some((DeltaOpSpec::Copy(offset, size), p + args_before(lead, 7)))
    }
}

/// The instruction at `pos` and the position after it.
pub open spec fn op_spec(s: Seq<u8>, pos: int) -> Option<(DeltaOpSpec, int)> {
    if !(0 <= pos < s.len()) {
        None
    } else if s[pos] == 0 {
        None
    } else if s[pos] < 128 {
        let n = s[pos] as int;
        if pos + 1 + n <= s.len() {
            Some((DeltaOpSpec::Insert(s.subrange(pos + 1, pos + 1 + n)), pos + 1 + n))
        } else {
            None
        }
    } else {
        copy_spec(s, pos)
    }
}

/// All instructions from `pos` to the end of the stream.
pub open spec fn ops_spec(s: Seq<u8>, pos: int) -> Option<Seq<DeltaOpSpec>>
    decreases s.len() - pos,
{
    if pos < 0 || pos >= s.len() {
        Some(Seq::empty())
    } else {
        match op_spec(s, pos) {
            Some((op, next)) => if pos < next <= s.len() {
                match ops_spec(s, next) {
                    Some(rest) => Some(seq![op] + rest),
                    None => None,
                }
            } else {
                None
            },
            None => None,
        }
    }
}

/// A whole delta stream: base size, result size, instructions.
pub open spec fn delta_spec(s: Seq<u8>) -> Option<(nat, nat, Seq<DeltaOpSpec>)> {
    match varint_spec(s, 0) {
        Some((base, p)) => match varint_spec(s, p) {
            Some((result, q)) => match ops_spec(s, q) {
                Some(ops) => Some((base, result, ops)),
                None => None,
            },
            None => None,
        },
        None => None,
    }
}

/// Rebuilding from `base`: each insert appends its bytes, each copy a range
/// of the base, which must lie inside it.
pub open spec fn apply_spec(base: Seq<u8>, ops: Seq<DeltaOpSpec>) -> Option<Seq<u8>>
    decreases ops.len(),
{
    if ops.len() == 0 {
        Some(Seq::empty())
    } else {
        match apply_spec(base, ops.drop_last()) {
            Some(r) => match ops.last() {
                DeltaOpSpec::Insert(d) => Some(r + d),
                DeltaOpSpec::Copy(o, n) => if o + n <= base.len() {
                    Some(r + base.subrange(o as int, (o + n) as int))
                } else {
                    None
                },
            },
            None => None,
        }
    }
}

/// Rebuilding an object from a base and a delta stream; sizes that do not
/// fit in 64 bits are refused.
pub open spec fn resolve_spec(base: Seq<u8>, delta: Seq<u8>) -> Result<Seq<u8>, DeltaError> {
    match delta_spec(delta) {
        Some((b, size, ops)) => if b > u64::MAX || size > u64::MAX {
            Err(DeltaError::Corrupt)
        } else {
            match apply_spec(base, ops) {
                Some(r) => if r.len() == size {
                    Ok(r)
                } else {
                    Err(DeltaError::Corrupt)
                },
                None => Err(DeltaError::OutOfBounds),
            }
        },
        None => Err(DeltaError::Corrupt),
    }
}

/// Reads argument byte `j` of a copy instruction at `q`, if its bit is set.
fn take_arg(s: &[u8], lead: u8, j: Ghost<int>, m: u8, q: usize) -> (r: Option<(u64, usize)>)
    requires
        m == mask(j@),
        0 <= j@ < 7,
        q <= s@.len(),
    ensures
        r matches Some((b, q2)) ==> if flag(lead, j@) == 1 {
            q < s@.len() && b == s@[q as int] && q2 == q + 1
        } else {
            b == 0 && q2 == q
        },
        r is None ==> flag(lead, j@) == 1 && q == s@.len(),
{
    if lead & m != 0 {
        if q >= s.len() {
            None
        } else {
            Some((s[q] as u64, q + 1))
        }
    } else {
        Some((0, q))
    }
}

proof fn lemma_args_before(lead: u8, j: int)
    requires
        0 <= j < 7,
    ensures
        args_before(lead, j + 1) == args_before(lead, j) + flag(lead, j),
        args_before(lead, 7) >= args_before(lead, j + 1),
        args_before(lead, 0) == 0,
{
}

/// Reads the copy instruction whose lead byte is at `pos`.
#[verifier::rlimit(40)]
fn read_copy(s: &[u8], pos: usize) -> (r: Option<(DeltaOp, usize)>)
    requires
        pos < s@.len(),
        s@[pos as int] >= 128,
    ensures
        r matches Some((op, n)) ==> copy_spec(s@, pos as int) == Some((op@, n as int)),
        r is None ==> copy_spec(s@, pos as int) is None,
{
    let lead = s[pos];
    let ghost p = pos + 1;
    let q0 = pos + 1;
    proof {
        lemma_args_before(lead, 0);
    }
    let (b0, q1) = match take_arg(s, lead, Ghost(0), 1, q0) {
        Some(x) => x,
        None => return None,
    };
    proof {
        lemma_args_before(lead, 1);
    }
    let (b1, q2) = match take_arg(s, lead, Ghost(1), 2, q1) {
        Some(x) => x,
        None => return None,
    };
    proof {
        lemma_args_before(lead, 2);
    }
    let (b2, q3) = match take_arg(s, lead, Ghost(2), 4, q2) {
        Some(x) => x,
        None => return None,
    };
    proof {
        lemma_args_before(lead, 3);
    }
    let (b3, q4) = match take_arg(s, lead, Ghost(3), 8, q3) {
        Some(x) => x,
        None => return None,
    };
    proof {
        lemma_args_before(lead, 4);
    }
    let (b4, q5) = match take_arg(s, lead, Ghost(4), 16, q4) {
        Some(x) => x,
        None => return None,
    };
    proof {
        lemma_args_before(lead, 5);
    }
    let (b5, q6) = match take_arg(s, lead, Ghost(5), 32, q5) {
        Some(x) => x,
        None => return None,
    };
    proof {
        lemma_args_before(lead, 6);
    }
    let (b6, q7) = match take_arg(s, lead, Ghost(6), 64, q6) {
        Some(x) => x,
        None => return None,
    };
    assert(q7 == p + args_before(lead, 7));
    assert(b0 == arg(s@, p, lead, 0));
    assert(b1 == arg(s@, p, lead, 1));
    assert(b2 == arg(s@, p, lead, 2));
    assert(b3 == arg(s@, p, lead, 3));
    assert(b4 == arg(s@, p, lead, 4));
    assert(b5 == arg(s@, p, lead, 5));
    assert(b6 == arg(s@, p, lead, 6));
    let offset = b0 + b1 * 256 + b2 * 65536 + b3 * 16777216;
    let size0 = b4 + b5 * 256 + b6 * 65536;
    let size = if size0 == 0 {
        65536
    } else {
        size0
    };
    Some((DeltaOp::Copy { offset, size }, q7))
}

/// Reads the instruction at `pos`.
fn read_op(s: &[u8], pos: usize) -> (r: Option<(DeltaOp, usize)>)
    requires
        pos < s@.len(),
    ensures
        r matches Some((op, n)) ==> op_spec(s@, pos as int) == Some((op@, n as int)),
        r is None ==> op_spec(s@, pos as int) is None,
{
    let lead = s[pos];
    if lead == 0 {
        None
    } else if lead < 128 {
        let n = lead as usize;
        if n <= s.len() - pos - 1 {
            let data = copy_range(s, pos + 1, pos + 1 + n);
            Some((DeltaOp::Insert(data), pos + 1 + n))
        } else {
            None
        }
    } else {
        read_copy(s, pos)
    }
}

proof fn lemma_op_advances(s: Seq<u8>, pos: int)
    requires
        op_spec(s, pos) is Some,
    ensures
        op_spec(s, pos) matches Some((_, next)) && pos < next <= s.len(),
{
}

/// Reads every instruction from `pos` to the end of the stream.
pub fn read_ops(s: &[u8], pos: usize) -> (r: Result<Vec<DeltaOp>, DeltaError>)
    requires
        pos <= s@.len(),
    ensures
        r matches Ok(v) ==> ops_spec(s@, pos as int) == Some(v@.map_values(|o: DeltaOp| o@)),
        r is Err ==> ops_spec(s@, pos as int) is None && r == Err::<Vec<DeltaOp>, DeltaError>(
            DeltaError::Corrupt,
        ),
{
    let mut ops: Vec<DeltaOp> = Vec::new();
    let mut i = pos;
    while i < s.len()
        invariant
            pos <= i <= s@.len(),
            ops_spec(s@, pos as int) == match ops_spec(s@, i as int) {
                Some(rest) => Some(ops@.map_values(|o: DeltaOp| o@) + rest),
                None => None::<Seq<DeltaOpSpec>>,
            },
        decreases s@.len() - i,
    {
        match read_op(s, i) {
            Some((op, next)) => {
                proof {
                    lemma_op_advances(s@, i as int);
                    let old_ops = ops@.map_values(|o: DeltaOp| o@);
                    match ops_spec(s@, next as int) {
                        Some(rest) => {
                            assert(ops_spec(s@, i as int) == Some(seq![op@] + rest));
                            assert(old_ops + (seq![op@] + rest) =~= old_ops.push(op@) + rest);
                        },
                        None => {},
                    }
                }
                ops.push(op);
                proof {
                    let old_len = ops@.len() - 1;
                    assert(ops@.map_values(|o: DeltaOp| o@) =~= ops@.subrange(0, old_len).map_values(
                        |o: DeltaOp| o@,
                    ).push(op@));
                }
                i = next;
            },
            None => {
                return Err(DeltaError::Corrupt);
            },
        }
    }
    assert(ops@.map_values(|o: DeltaOp| o@) + Seq::<DeltaOpSpec>::empty() =~= ops@.map_values(
        |o: DeltaOp| o@,
    ));
    Ok(ops)
}

/// Reads a whole delta stream.
pub fn parse_delta(s: &[u8]) -> (r: Result<Delta, DeltaError>)
    ensures
        r matches Ok(d) ==> delta_spec(s@) == Some(
            (d.base_size as nat, d.result_size as nat, d.ops@.map_values(|o: DeltaOp| o@)),
        ),
        r is Err ==> r == Err::<Delta, DeltaError>(DeltaError::Corrupt) && match delta_spec(s@) {
            Some((b, n, _)) => b > u64::MAX || n > u64::MAX,
            None => true,
        },
{
    let (base_size, p) = match read_varint(s, 0) {
        Some(x) => x,
        None => {
            return Err(DeltaError::Corrupt);
        },
    };
    let (result_size, q) = match read_varint(s, p) {
        Some(x) => x,
        None => {
            return Err(DeltaError::Corrupt);
        },
    };
    let ops = read_ops(s, q)?;
    Ok(Delta { base_size, result_size, ops })
}

proof fn lemma_apply_prefix_fails(base: Seq<u8>, ops: Seq<DeltaOpSpec>, j: int)
    requires
        0 <= j <= ops.len(),
        apply_spec(base, ops.subrange(0, j)) is None,
    ensures
        apply_spec(base, ops) is None,
    decreases ops.len() - j,
{
    if j < ops.len() {
        assert(ops.subrange(0, j + 1).drop_last() =~= ops.subrange(0, j));
        lemma_apply_prefix_fails(base, ops, j + 1);
    } else {
        assert(ops.subrange(0, j) =~= ops);
    }
}

/// Applies instructions to a base.
pub fn apply_ops(base: &[u8], ops: &Vec<DeltaOp>) -> (r: Result<Vec<u8>, DeltaError>)
    ensures
        r matches Ok(v) ==> apply_spec(base@, ops@.map_values(|o: DeltaOp| o@)) == Some(v@),
        r is Err ==> apply_spec(base@, ops@.map_values(|o: DeltaOp| o@)) is None && r == Err::<
            Vec<u8>,
            DeltaError,
        >(DeltaError::OutOfBounds),
{
    let ghost all = ops@.map_values(|o: DeltaOp| o@);
    let mut out: Vec<u8> = Vec::new();
    let mut i: usize = 0;
    while i < ops.len()
        invariant
            i <= ops@.len(),
            all == ops@.map_values(|o: DeltaOp| o@),
            apply_spec(base@, all.subrange(0, i as int)) == Some(out@),
        decreases ops@.len() - i,
    {
        let ghost prefix = all.subrange(0, i + 1);
        assert(prefix.drop_last() =~= all.subrange(0, i as int));
        assert(prefix.last() == ops@[i as int]@);
        match &ops[i] {
            DeltaOp::Insert(d) => {
                append_bytes(&mut out, d.as_slice());
            },
            DeltaOp::Copy { offset, size } => {
                let o = *offset;
                let n = *size;
                if o > base.len() as u64 || n > base.len() as u64 - o {
                    proof {
                        lemma_apply_prefix_fails(base@, all, i + 1);
                    }
                    return Err(DeltaError::OutOfBounds);
                }
                let piece = &base[o as usize..(o + n) as usize];
                append_bytes(&mut out, piece);
            },
        }
        i = i + 1;
    }
    assert(all.subrange(0, ops@.len() as int) =~= all);
    Ok(out)
}

/// Rebuilds an object from its base and a delta stream: the result's length
/// must be the one the stream advertises.
pub fn resolve_delta(base: &[u8], delta: &[u8]) -> (r: Result<Vec<u8>, DeltaError>)
    ensures
        r matches Ok(v) ==> resolve_spec(base@, delta@) == Ok::<Seq<u8>, DeltaError>(v@),
        r matches Err(e) ==> resolve_spec(base@, delta@) == Err::<Seq<u8>, DeltaError>(e),
{
    let d = parse_delta(delta)?;
    let out = apply_ops(base, &d.ops)?;
    if out.len() as u64 != d.result_size {
        return Err(DeltaError::Corrupt);
    }
    Ok(out)
}

/// All copies lie inside the base.
pub open spec fn copies_in_bounds(base: Seq<u8>, ops: Seq<DeltaOpSpec>) -> bool {
    forall|i: int|
        0 <= i < ops.len() ==> (#[trigger] ops[i] matches DeltaOpSpec::Copy(o, n) ==> o + n
            <= base.len())
}

/// The number of bytes an instruction contributes.
pub open spec fn op_size(op: DeltaOpSpec) -> nat {
    match op {
        DeltaOpSpec::Insert(d) => d.len(),
        DeltaOpSpec::Copy(_, n) => n,
    }
}

/// The sum of the instructions' sizes.
pub open spec fn ops_size(ops: Seq<DeltaOpSpec>) -> nat
    decreases ops.len(),
{
    if ops.len() == 0 {
        0
    } else {
        ops_size(ops.drop_last()) + op_size(ops.last())
    }
}

/// `ops` describes `target` against `base`: cut into consecutive pieces,
/// one per instruction, an insert holds its piece and a copy names an
/// in-bounds range of the base equal to its piece.
pub open spec fn describes(base: Seq<u8>, ops: Seq<DeltaOpSpec>, target: Seq<u8>) -> bool
    decreases ops.len(),
{
    if ops.len() == 0 {
        target.len() == 0
    } else {
        let n = op_size(ops.last()) as int;
        &&& n <= target.len()
        &&& match ops.last() {
            DeltaOpSpec::Insert(d) => target.subrange(target.len() - n, target.len() as int)
                == d,
            DeltaOpSpec::Copy(o, m) => o + m <= base.len() && target.subrange(
                target.len() - n,
                target.len() as int,
            ) == base.subrange(o as int, (o + m) as int),
        }
        &&& describes(base, ops.drop_last(), target.subrange(0, target.len() - n))
    }
}

/// With every copy inside the base, applying a delta succeeds and the result
/// is as long as the instructions' sizes added up.
pub proof fn lemma_apply_length(base: Seq<u8>, ops: Seq<DeltaOpSpec>)
    requires
        copies_in_bounds(base, ops),
    ensures
        apply_spec(base, ops) matches Some(r) && r.len() == ops_size(ops),
    decreases ops.len(),
{
    if ops.len() > 0 {
        let front = ops.drop_last();
        assert forall|i: int| 0 <= i < front.len() implies (#[trigger] front[i] matches DeltaOpSpec::Copy(o, n)
            ==> o + n <= base.len()) by {
            assert(front[i] == ops[i]);
        }
        lemma_apply_length(base, front);
        assert(ops.last() == ops[ops.len() - 1]);
    }
}

/// Instructions cut from a target against a base rebuild exactly that target.
pub proof fn lemma_apply_describes(base: Seq<u8>, ops: Seq<DeltaOpSpec>, target: Seq<u8>)
    requires
        describes(base, ops, target),
    ensures
        apply_spec(base, ops) == Some(target),
    decreases ops.len(),
{
    if ops.len() == 0 {
        assert(target =~= Seq::<u8>::empty());
    } else {
        let n = op_size(ops.last()) as int;
        let front = target.subrange(0, target.len() - n);
        lemma_apply_describes(base, ops.drop_last(), front);
        assert(front + target.subrange(target.len() - n, target.len() as int) =~= target);
    }
}

} // verus!
