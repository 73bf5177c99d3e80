//! Pkt-line framing and the smart-HTTP exchange around a clone: the ref
//! advertisement, the upload-pack request, and the reply's preamble.

use vstd::prelude::*;

use crate::buf::{append_bytes, copy_range};
use crate::digest::{hex_decode, hex_digit, hex_encode, hex_of, hex_value, is_hex_text, unhex};

verus! {

/// Why the exchange with the server failed.
#[derive(Clone, Copy, Debug, PartialEq, Eq, Structural)]
pub enum FetchError {
    /// A pkt-line length that is not four hex digits, is 1 to 3, or runs
    /// past the end.
    BadPktLine,
    /// The server answered with a status other than 200 or 304.
    UnexpectedStatus,
    /// The reply does not open with the upload-pack service line.
    MissingService,
    /// The ref advertisement is not service line, flush, ref lines, flush.
    MalformedAdvertisement,
    /// The upload-pack reply does not open with `0008NAK\n`.
    MissingNak,
    /// The validation pattern could not be compiled.
    BadPattern,
}

/// One pkt-line.
#[derive(Clone, Debug, PartialEq, Eq)]
pub enum PktLine {
    Flush,
    Data(Vec<u8>),
}

/// A pkt-line as a mathematical value.
pub ghost enum PktSpec {
    Flush,
    Data(Seq<u8>),
}

impl View for PktLine {
    type V = PktSpec;

    open spec fn view(&self) -> PktSpec {
        match self {
            PktLine::Flush => PktSpec::Flush,
            PktLine::Data(d) => PktSpec::Data(d@),
        }
    }
}

/// Four lowercase hex digits of `n`.
pub open spec fn length_prefix(n: nat) -> Seq<u8> {
    hex_of(seq![(n / 256) as u8, (n % 256) as u8])
}

/// A pkt-line carrying `p`: its length including the four prefix bytes,
/// then `p`.
pub open spec fn pkt_spec(p: Seq<u8>) -> Seq<u8> {
    length_prefix(p.len() + 4) + p
}

/// The flush packet `0000`.
pub open spec fn flush_spec() -> Seq<u8> {
    seq![48u8, 48, 48, 48]
}

/// A lowercase hex digit.
pub open spec fn is_lower_hex(c: u8) -> bool {
    (48 <= c <= 57) || (97 <= c <= 102)
}

/// Four lowercase hex digits.
pub open spec fn lower_hex4(s: Seq<u8>) -> bool {
    s.len() == 4 && forall|i: int| 0 <= i < 4 ==> is_lower_hex(#[trigger] s[i])
}

/// The pkt-line at the start of `s` and how many bytes it takes: four
/// lowercase hex digits give the length, prefix included; `0000` is a flush.
#[verifier::opaque]
pub open spec fn pkt_at(s: Seq<u8>) -> Option<(PktSpec, int)> {
    if s.len() < 4 || !lower_hex4(s.subrange(0, 4)) {
        None
    } else {
        let b = unhex(s.subrange(0, 4));
        let n = b[0] as int * 256 + b[1] as int;
        if n == 0 {
            Some((PktSpec::Flush, 4))
        } else if n < 4 || n > s.len() {
            None
        } else {
            Some((PktSpec::Data(s.subrange(4, n)), n))
        }
    }
}

/// All pkt-lines that make up `s`.
pub open spec fn pkts_spec(s: Seq<u8>) -> Option<Seq<PktSpec>>
    decreases s.len(),
{
    if s.len() == 0 {
        Some(Seq::empty())
    } else {
        match pkt_at(s) {
            Some((l, n)) => if 0 < n <= s.len() {
                match pkts_spec(s.subrange(n, s.len() as int)) {
                    Some(rest) => Some(seq![l] + rest),
                    None => None,
                }
            } else {
                None
            },
            None => None,
        }
    }
}

/// The pkt-lines that carry `ps`, one after another.
pub open spec fn written(ps: Seq<Seq<u8>>) -> Seq<u8>
    decreases ps.len(),
{
    if ps.len() == 0 {
        Seq::empty()
    } else {
        pkt_spec(ps[0]) + written(ps.drop_first())
    }
}

/// Payloads that fit in a pkt-line.
pub open spec fn fits_pkt(p: Seq<u8>) -> bool {
    p.len() + 4 <= 65535
}

proof fn lemma_hex_digit_value(n: u8)
    requires
        n < 16,
    ensures
        hex_value(hex_digit(n)) == Some(n),
{
}

proof fn lemma_unhex_hex(b: Seq<u8>)
    ensures
        is_hex_text(hex_of(b)),
        unhex(hex_of(b)) == b,
{
    let h = hex_of(b);
    assert forall|i: int| 0 <= i < h.len() implies (#[trigger] hex_value(h[i])).is_some() by {
        lemma_hex_digit_value(b[i / 2] / 16);
        lemma_hex_digit_value(b[i / 2] % 16);
    }
    assert forall|i: int| 0 <= i < b.len() implies #[trigger] unhex(h)[i] == b[i] by {
        assert((2 * i) / 2 == i);
        assert((2 * i + 1) / 2 == i);
        assert((2 * i) % 2 == 0);
        assert((2 * i + 1) % 2 == 1);
        lemma_hex_digit_value(b[i] / 16);
        lemma_hex_digit_value(b[i] % 16);
    }
    assert(unhex(h) =~= b);
}

proof fn lemma_prefix_value(n: nat)
    requires
        n <= 65535,
    ensures
        length_prefix(n).len() == 4,
        is_hex_text(length_prefix(n)),
        lower_hex4(length_prefix(n)),
        unhex(length_prefix(n))[0] as int * 256 + unhex(length_prefix(n))[1] as int == n,
{
    let b = seq![(n / 256) as u8, (n % 256) as u8];
    lemma_unhex_hex(b);
    let h = length_prefix(n);
    assert forall|i: int| 0 <= i < 4 implies is_lower_hex(#[trigger] h[i]) by {
        assert(b[i / 2] / 16 < 16 && b[i / 2] % 16 < 16);
    }
}

/// The reader gives back the payload of a line the writer made, and takes
/// exactly that line.
pub proof fn lemma_pkt_round_trip(p: Seq<u8>, rest: Seq<u8>)
    requires
        fits_pkt(p),
    ensures
        pkt_at(pkt_spec(p) + rest) == Some((PktSpec::Data(p), (p.len() + 4) as int)),
{
    reveal(pkt_at);
    let s = pkt_spec(p) + rest;
    lemma_prefix_value(p.len() + 4);
    assert(s.subrange(0, 4) =~= length_prefix(p.len() + 4));
    assert(s.subrange(4, (p.len() + 4) as int) =~= p);
}

/// `0000` reads as a flush packet.
pub proof fn lemma_flush_read(rest: Seq<u8>)
    ensures
        pkt_at(flush_spec() + rest) == Some((PktSpec::Flush, 4int)),
{
    reveal(pkt_at);
    let s = flush_spec() + rest;
    assert(s.subrange(0, 4) =~= flush_spec());
    lemma_hex_digit_value(0);
    assert(unhex(flush_spec()) =~= seq![0u8, 0u8]);
}

/// Reading a run of written lines gives back their payloads, in order.
pub proof fn lemma_pkts_round_trip(ps: Seq<Seq<u8>>)
    requires
        forall|i: int| 0 <= i < ps.len() ==> fits_pkt(#[trigger] ps[i]),
    ensures
        pkts_spec(written(ps)) == Some(ps.map_values(|p: Seq<u8>| PktSpec::Data(p))),
    decreases ps.len(),
{
    let out = ps.map_values(|p: Seq<u8>| PktSpec::Data(p));
    if ps.len() == 0 {
        assert(out =~= Seq::<PktSpec>::empty());
    } else {
        let tail = ps.drop_first();
        let s = written(ps);
        let rest = written(tail);
        assert(s == pkt_spec(ps[0]) + rest);
        assert(fits_pkt(ps[0]));
        lemma_pkt_round_trip(ps[0], rest);
        let n = (ps[0].len() + 4) as int;
        assert(pkt_at(s) == Some((PktSpec::Data(ps[0]), n)));
        assert(s.subrange(n, s.len() as int) =~= rest);
        assert forall|i: int| 0 <= i < tail.len() implies fits_pkt(#[trigger] tail[i]) by {
            assert(fits_pkt(ps[i + 1]));
        }
        lemma_pkts_round_trip(tail);
        let tail_out = tail.map_values(|p: Seq<u8>| PktSpec::Data(p));
        assert(pkts_spec(rest) == Some(tail_out));
        assert(seq![PktSpec::Data(ps[0])] + tail_out =~= out);
    }
}

/// The pkt-line that carries `payload`.
pub fn pkt_line(payload: &[u8]) -> (r: Vec<u8>)
    requires
        fits_pkt(payload@),
    ensures
        r@ == pkt_spec(payload@),
{
    let n = payload.len() + 4;
    let len_bytes = vec![(n / 256) as u8, (n % 256) as u8];
    let mut r = hex_encode(len_bytes.as_slice());
    assert(len_bytes@ =~= seq![(n / 256) as u8, (n % 256) as u8]);
    append_bytes(&mut r, payload);
    r
}

/// The flush packet `0000`.
pub fn flush_pkt() -> (r: Vec<u8>)
    ensures
        r@ == flush_spec(),
{
    let r = vec![48u8, 48, 48, 48];
    assert(r@ =~= flush_spec());
    r
}

/// Reads the pkt-line at the start of `s`.
pub fn read_pkt(s: &[u8]) -> (r: Result<(PktLine, usize), FetchError>)
    ensures
        r matches Ok((l, n)) ==> pkt_at(s@) == Some((l@, n as int)) && 0 < n <= s@.len(),
        r is Err ==> pkt_at(s@) is None && r == Err::<(PktLine, usize), FetchError>(
            FetchError::BadPktLine,
        ),
{
    reveal(pkt_at);
    if s.len() < 4 {
        return Err(FetchError::BadPktLine);
    }
    let mut i: usize = 0;
    while i < 4
        invariant
            i <= 4,
            s@.len() >= 4,
            forall|j: int| 0 <= j < i ==> is_lower_hex(#[trigger] s@[j]),
        decreases 4 - i,
    {
        let c = s[i];
        if !((48 <= c && c <= 57) || (97 <= c && c <= 102)) {
            assert(s@.subrange(0, 4)[i as int] == c);
            assert(!is_lower_hex(s@.subrange(0, 4)[i as int]));
            assert(!lower_hex4(s@.subrange(0, 4)));
            reveal(pkt_at);
            return Err(FetchError::BadPktLine);
        }
        i = i + 1;
    }
    assert(lower_hex4(s@.subrange(0, 4)));
    let b = match hex_decode(&s[0..4]) {
        Some(b) => b,
        None => {
            return Err(FetchError::BadPktLine);
        },
    };
    let n = b[0] as usize * 256 + b[1] as usize;
    if n == 0 {
        return Ok((PktLine::Flush, 4));
    }
    if n < 4 || n > s.len() {
        return Err(FetchError::BadPktLine);
    }
    Ok((PktLine::Data(copy_range(s, 4, n)), n))
}

/// Splits `s` into pkt-lines.
pub fn read_pkts(s: &[u8]) -> (r: Result<Vec<PktLine>, FetchError>)
    ensures
        r matches Ok(v) ==> pkts_spec(s@) == Some(v@.map_values(|l: PktLine| l@)),
        r is Err ==> pkts_spec(s@) is None && r == Err::<Vec<PktLine>, FetchError>(
            FetchError::BadPktLine,
        ),
{
    let mut lines: Vec<PktLine> = Vec::new();
    let mut pos: usize = 0;
    assert(s@.subrange(0, s@.len() as int) =~= s@);
    proof {
        match pkts_spec(s@) {
            Some(rest) => {
                assert(lines@.map_values(|l: PktLine| l@) + rest =~= rest);
            },
            None => {},
        }
    }
    while pos < s.len()
        invariant
            pos <= s@.len(),
            pkts_spec(s@) == match pkts_spec(s@.subrange(pos as int, s@.len() as int)) {
                Some(rest) => Some(lines@.map_values(|l: PktLine| l@) + rest),
                None => None::<Seq<PktSpec>>,
            },
        decreases s@.len() - pos,
    {
        let ghost tail = s@.subrange(pos as int, s@.len() as int);
        let (line, n) = read_pkt(&s[pos..s.len()])?;
        proof {
            assert(tail.subrange(n as int, tail.len() as int) =~= s@.subrange(
                pos + n,
                s@.len() as int,
            ));
            let old_lines = lines@.map_values(|l: PktLine| l@);
            match pkts_spec(tail.subrange(n as int, tail.len() as int)) {
                Some(rest) => {
                    assert(old_lines + (seq![line@] + rest) =~= old_lines.push(line@) + rest);
                },
                None => {},
            }
        }
        lines.push(line);
        proof {
            let k = lines@.len() - 1;
            assert(lines@.map_values(|l: PktLine| l@) =~= lines@.subrange(0, k).map_values(
                |l: PktLine| l@,
            ).push(lines@[k]@));
        }
        pos = pos + n;
    }
    assert(lines@.map_values(|l: PktLine| l@) + Seq::<PktSpec>::empty() =~= lines@.map_values(
        |l: PktLine| l@,
    ));
    Ok(lines)
}

} // verus!
