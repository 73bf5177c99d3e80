//! The clone exchange over smart HTTP: validating and reading the ref
//! advertisement, building the upload-pack request, and taking the pack out
//! of the reply.

use vstd::prelude::*;

use crate::buf::{append_bytes, bytes_equal, copy_range, find_byte};
use crate::digest::is_hex_text;
use crate::pkt::{
    flush_pkt, flush_spec, is_lower_hex, pkt_line, pkt_spec, pkts_spec, read_pkts, FetchError, PktLine, PktSpec,
};

verus! {

/// The service line that opens a ref advertisement, prefix included.
pub const SERVICE_PATTERN: &'static str = "^[0-9a-f]{4}# service=git-upload-pack";

/// Whether the regular expression `pattern` matches somewhere in `text`,
/// or `None` where the pattern does not compile.
pub uninterp spec fn regex_match_of(pattern: Seq<char>, text: Seq<u8>) -> Option<bool>;

/// `# service=git-upload-pack` as bytes.
pub open spec fn service_text() -> Seq<u8> {
    seq![35, 32, 115, 101, 114, 118, 105, 99, 101, 61, 103, 105, 116, 45, 117, 112, 108, 111, 97, 100, 45, 112, 97, 99, 107]
}

/// Text that opens with four lowercase hex digits and then
/// `# service=git-upload-pack`.
pub open spec fn service_line(t: Seq<u8>) -> bool {
    &&& t.len() >= 29
    &&& forall|i: int| 0 <= i < 4 ==> is_lower_hex(#[trigger] t[i])
    &&& t.subrange(4, 29) == service_text()
}

/// Relies on `regex::bytes::Regex::new` and `Regex::is_match`. The service
/// pattern compiles; anchored by `^`, it matches exactly the texts that open
/// with four digits of `[0-9a-f]` and the literal service text.
#[verifier::external_body]
fn regex_is_match(pattern: &str, text: &[u8]) -> (r: Option<bool>)
    ensures
        r == regex_match_of(pattern@, text@),
        pattern@ == SERVICE_PATTERN@ ==> r == Some(service_line(text@)),
{
    match regex::bytes::Regex::new(pattern) {
        Ok(re) => Some(re.is_match(text)),
        Err(_) => None,
    }
}

/// One advertised ref: its name and its hash as hex text.
#[derive(Clone, Debug)]
pub struct RefEntry {
    pub name: Vec<u8>,
    pub hash: Vec<u8>,
}

/// A ref advertisement: the hash that `HEAD` names, and every advertised
/// ref in order, `HEAD` first.
#[derive(Clone, Debug)]
pub struct Advertisement {
    pub head: Vec<u8>,
    pub refs: Vec<RefEntry>,
}

/// The first line of a reply, without its newline.
pub open spec fn first_line(body: Seq<u8>, e: int) -> bool {
    &&& 0 <= e <= body.len()
    &&& forall|j: int| 0 <= j < e ==> body[j] != 10
    &&& (e == body.len() || body[e] == 10)
}

/// The verdict on a discovery reply, given whether its first line matched
/// the service pattern: the status must be 200 or 304, then the line must
/// have matched.
pub open spec fn header_verdict(status: u16, matched: Option<bool>) -> Result<(), FetchError> {
    if status != 200 && status != 304 {
        Err(FetchError::UnexpectedStatus)
    } else {
        match matched {
            Some(true) => Ok(()),
            Some(false) => Err(FetchError::MissingService),
            None => Err(FetchError::BadPattern),
        }
    }
}

/// The verdict on a discovery reply whose first line is `line`.
pub open spec fn ref_header_ok(status: u16, line: Seq<u8>) -> Result<(), FetchError> {
    header_verdict(status, regex_match_of(SERVICE_PATTERN@, line))
}

/// Decides a discovery reply from its status and whether its first line
/// matched the service pattern (`None`: the pattern did not compile).
pub fn ref_header_verdict(status: u16, matched: Option<bool>) -> (r: Result<(), FetchError>)
    ensures
        r == header_verdict(status, matched),
{
    if status != 200 && status != 304 {
        return Err(FetchError::UnexpectedStatus);
    }
    match matched {
        Some(true) => Ok(()),
        Some(false) => Err(FetchError::MissingService),
        None => Err(FetchError::BadPattern),
    }
}

/// Checks the status and the first line of a ref discovery reply.
pub fn validate_ref_header(status: u16, body: &[u8]) -> (r: Result<(), FetchError>)
    ensures
        exists|e: int|
            first_line(body@, e) && r == ref_header_ok(status, body@.subrange(0, e)) && r
                == header_verdict(status, Some(service_line(body@.subrange(0, e)))),
{
    let e = find_byte(body, 10, 0, body.len());
    assert(first_line(body@, e as int));
    let matched = regex_is_match(SERVICE_PATTERN, &body[0..e]);
    assert(matched == Some(service_line(body@.subrange(0, e as int))));
    ref_header_verdict(status, matched)
}

/// `e` ends a ref name that starts at 41: the first NUL or newline, or the
/// end of the line.
pub open spec fn name_end(p: Seq<u8>, e: int) -> bool {
    &&& 41 <= e <= p.len()
    &&& forall|j: int| 41 <= j < e ==> p[j] != 0 && p[j] != 10
    &&& (e == p.len() || p[e] == 0 || p[e] == 10)
}

/// A ref line: forty hex digits, a space, the name, then optionally a NUL
/// and capabilities, and a newline.
pub open spec fn ref_line_spec(p: Seq<u8>) -> Option<(Seq<u8>, Seq<u8>)> {
    if p.len() >= 41 && p[40] == 32 && is_hex_text(p.subrange(0, 40)) {
        let e = choose|e: int| name_end(p, e);
        Some((p.subrange(41, e), p.subrange(0, 40)))
    } else {
        None
    }
}

/// The refs from line `i` up to the next flush packet.
pub open spec fn refs_from(lines: Seq<PktSpec>, i: int) -> Option<Seq<(Seq<u8>, Seq<u8>)>>
    decreases lines.len() - i,
{
    if i < 0 || i >= lines.len() {
        None
    } else {
        match lines[i] {
            PktSpec::Flush => Some(Seq::empty()),
            PktSpec::Data(p) => match ref_line_spec(p) {
                Some(r) => match refs_from(lines, i + 1) {
                    Some(rest) => Some(seq![r] + rest),
                    None => None,
                },
                None => None,
            },
        }
    }
}

/// `HEAD` as bytes.
pub open spec fn head_name() -> Seq<u8> {
    seq![72u8, 69, 65, 68]
}

/// A ref advertisement: a service line, a flush, ref lines, a flush; the
/// first ref is `HEAD`.
pub open spec fn advert_spec(lines: Seq<PktSpec>) -> Option<Seq<(Seq<u8>, Seq<u8>)>> {
    if lines.len() >= 2 && lines[0] is Data && lines[1] is Flush {
        match refs_from(lines, 2) {
            Some(refs) => if refs.len() > 0 && refs[0].0 == head_name() {
                Some(refs)
            } else {
                None
            },
            None => None,
        }
    } else {
        None
    }
}

pub open spec fn ref_view(r: RefEntry) -> (Seq<u8>, Seq<u8>) {
    (r.name@, r.hash@)
}

/// Reads one ref line.
pub fn parse_ref_line(p: &[u8]) -> (r: Option<RefEntry>)
    ensures
        r matches Some(e) ==> ref_line_spec(p@) == Some(ref_view(e)),
        r is None ==> ref_line_spec(p@) is None,
{
    if p.len() < 41 || p[40] != 32 {
        return None;
    }
    let mut i: usize = 0;
    while i < 40
        invariant
            i <= 40,
            p@.len() >= 41,
            forall|j: int| 0 <= j < i ==> crate::digest::hex_value(#[trigger] p@[j]).is_some(),
        decreases 40 - i,
    {
        let c = p[i];
        if !((48 <= c && c <= 57) || (97 <= c && c <= 102) || (65 <= c && c <= 70)) {
            assert(crate::digest::hex_value(p@.subrange(0, 40)[i as int]) is None);
            return None;
        }
        i = i + 1;
    }
    assert(is_hex_text(p@.subrange(0, 40)));
    let mut e: usize = 41;
    while e < p.len() && p[e] != 0 && p[e] != 10
        invariant
            41 <= e <= p@.len(),
            forall|j: int| 41 <= j < e ==> p@[j] != 0 && p@[j] != 10,
        decreases p@.len() - e,
    {
        e = e + 1;
    }
    assert(name_end(p@, e as int));
    proof {
        let ec = choose|e: int| name_end(p@, e);
        assert(ec == e) by {
            if ec < e {
                assert(p@[ec] != 0 && p@[ec] != 10);
            }
            if ec > e {
                assert(p@[e as int] != 0 && p@[e as int] != 10);
            }
        }
    }
    Some(RefEntry { name: copy_range(p, 41, e), hash: copy_range(p, 0, 40) })
}

/// Reads the refs from line `start` up to the next flush packet.
fn parse_refs(lines: &Vec<PktLine>, start: usize) -> (r: Option<Vec<RefEntry>>)
    requires
        start <= lines@.len(),
    ensures
        r matches Some(v) ==> refs_from(lines@.map_values(|l: PktLine| l@), start as int) == Some(
            v@.map_values(|e: RefEntry| ref_view(e)),
        ),
        r is None ==> refs_from(lines@.map_values(|l: PktLine| l@), start as int) is None,
{
    let ghost ls = lines@.map_values(|l: PktLine| l@);
    let mut out: Vec<RefEntry> = Vec::new();
    let mut i = start;
    assert(out@.map_values(|e: RefEntry| ref_view(e)) =~= Seq::<(Seq<u8>, Seq<u8>)>::empty());
    while i < lines.len()
        invariant
            start <= i <= lines@.len(),
            ls == lines@.map_values(|l: PktLine| l@),
            refs_from(ls, start as int) == match refs_from(ls, i as int) {
                Some(rest) => Some(out@.map_values(|e: RefEntry| ref_view(e)) + rest),
                None => None::<Seq<(Seq<u8>, Seq<u8>)>>,
            },
        decreases lines@.len() - i,
    {
        assert(ls[i as int] == lines@[i as int]@);
        match &lines[i] {
            PktLine::Flush => {
                assert(out@.map_values(|e: RefEntry| ref_view(e)) + Seq::<(Seq<u8>, Seq<u8>)>::empty()
                    =~= out@.map_values(|e: RefEntry| ref_view(e)));
                return Some(out);
            },
            PktLine::Data(p) => {
                match parse_ref_line(p.as_slice()) {
                    Some(e) => {
                        proof {
                            let old_out = out@.map_values(|e: RefEntry| ref_view(e));
                            match refs_from(ls, i + 1) {
                                Some(rest) => {
                                    assert(old_out + (seq![ref_view(e)] + rest) =~= old_out.push(
                                        ref_view(e),
                                    ) + rest);
                                },
                                None => {},
                            }
                        }
                        out.push(e);
                        proof {
                            let k = out@.len() - 1;
                            assert(out@.map_values(|e: RefEntry| ref_view(e)) =~= out@.subrange(
                                0,
                                k,
                            ).map_values(|e: RefEntry| ref_view(e)).push(ref_view(out@[k])));
                        }
                    },
                    None => {
                        return None;
                    },
                }
            },
        }
        i = i + 1;
    }
    None
}

/// Reads a ref advertisement body: service line, flush, ref lines, flush.
pub fn parse_advertisement(body: &[u8]) -> (r: Result<Advertisement, FetchError>)
    ensures
        r matches Ok(a) ==> exists|lines: Seq<PktSpec>|
            pkts_spec(body@) == Some(lines) && advert_spec(lines) == Some(
                a.refs@.map_values(|e: RefEntry| ref_view(e)),
            ) && a.head@ == a.refs@[0].hash@,
        r matches Err(e) ==> {
            ||| pkts_spec(body@) is None && e == FetchError::BadPktLine
            ||| pkts_spec(body@) matches Some(lines) && advert_spec(lines) is None && e
                == FetchError::MalformedAdvertisement
        },
{
    let lines = read_pkts(body)?;
    let ghost ls = lines@.map_values(|l: PktLine| l@);
    if lines.len() < 2 {
        return Err(FetchError::MalformedAdvertisement);
    }
    assert(ls[0] == lines@[0]@ && ls[1] == lines@[1]@);
    let service_ok = match &lines[0] {
        PktLine::Data(_) => true,
        PktLine::Flush => false,
    };
    let flush_ok = match &lines[1] {
        PktLine::Data(_) => false,
        PktLine::Flush => true,
    };
    if !service_ok || !flush_ok {
        return Err(FetchError::MalformedAdvertisement);
    }
    let refs = match parse_refs(&lines, 2) {
        Some(v) => v,
        None => {
            return Err(FetchError::MalformedAdvertisement);
        },
    };
    if refs.len() == 0 {
        return Err(FetchError::MalformedAdvertisement);
    }
    let head_text = vec![72u8, 69, 65, 68];
    assert(head_text@ =~= head_name());
    let ghost rv = refs@.map_values(|e: RefEntry| ref_view(e));
    assert(rv[0] == ref_view(refs@[0]));
    if !bytes_equal(refs[0].name.as_slice(), head_text.as_slice()) {
        return Err(FetchError::MalformedAdvertisement);
    }
    let head = refs[0].hash.clone();
    Ok(Advertisement { head, refs })
}

/// `want <hash>\n`.
pub open spec fn want_text(h: Seq<u8>) -> Seq<u8> {
    seq![119u8, 97, 110, 116, 32] + h + seq![10u8]
}

/// The want lines for `ws`, each distinct hash once, in first-seen order.
pub open spec fn wants_spec(ws: Seq<Seq<u8>>) -> Seq<u8>
    decreases ws.len(),
{
    if ws.len() == 0 {
        Seq::empty()
    } else if ws.drop_last().contains(ws.last()) {
        wants_spec(ws.drop_last())
    } else {
        wants_spec(ws.drop_last()) + pkt_spec(want_text(ws.last()))
    }
}

/// `0009done\n`.
pub open spec fn done_spec() -> Seq<u8> {
    pkt_spec(seq![100u8, 111, 110, 101, 10])
}

/// The body of an upload-pack request for a fresh clone: the wants, a flush,
/// then `done`.
pub open spec fn request_spec(ws: Seq<Seq<u8>>) -> Seq<u8> {
    wants_spec(ws) + flush_spec() + done_spec()
}

/// Whether `ws[0..i]` holds `w`.
fn seen_before(ws: &Vec<Vec<u8>>, i: usize) -> (r: bool)
    requires
        i < ws@.len(),
    ensures
        r == ws@.map_values(|w: Vec<u8>| w@).subrange(0, i as int).contains(ws@[i as int]@),
{
    let ghost vs = ws@.map_values(|w: Vec<u8>| w@);
    let mut j: usize = 0;
    while j < i
        invariant
            j <= i < ws@.len(),
            vs == ws@.map_values(|w: Vec<u8>| w@),
            forall|k: int| 0 <= k < j ==> vs[k] != vs[i as int],
        decreases i - j,
    {
        if bytes_equal(ws[j].as_slice(), ws[i].as_slice()) {
            assert(vs.subrange(0, i as int)[j as int] == vs[i as int]);
            return true;
        }
        j = j + 1;
    }
    assert forall|k: int| 0 <= k < i implies vs.subrange(0, i as int)[k] != vs[i as int] by {
        assert(vs.subrange(0, i as int)[k] == vs[k]);
    }
    false
}

/// The upload-pack request body for a fresh clone of the wanted hashes.
pub fn upload_request(wants: &Vec<Vec<u8>>) -> (r: Vec<u8>)
    requires
        forall|i: int| 0 <= i < wants@.len() ==> (#[trigger] wants@[i])@.len() + 10 <= 65535,
    ensures
        r@ == request_spec(wants@.map_values(|w: Vec<u8>| w@)),
{
    let ghost vs = wants@.map_values(|w: Vec<u8>| w@);
    let mut out: Vec<u8> = Vec::new();
    let mut i: usize = 0;
    assert(vs.subrange(0, 0) =~= Seq::<Seq<u8>>::empty());
    while i < wants.len()
        invariant
            i <= wants@.len(),
            vs == wants@.map_values(|w: Vec<u8>| w@),
            forall|k: int| 0 <= k < wants@.len() ==> (#[trigger] wants@[k])@.len() + 10 <= 65535,
            out@ == wants_spec(vs.subrange(0, i as int)),
        decreases wants@.len() - i,
    {
        let ghost pre = vs.subrange(0, i + 1);
        assert(pre.drop_last() =~= vs.subrange(0, i as int));
        assert(pre.last() == wants@[i as int]@);
        if !seen_before(wants, i) {
            let mut line = vec![119u8, 97, 110, 116, 32];
            append_bytes(&mut line, wants[i].as_slice());
            line.push(10u8);
            assert(line@ =~= want_text(wants@[i as int]@));
            let pkt = pkt_line(line.as_slice());
            append_bytes(&mut out, pkt.as_slice());
        }
        i = i + 1;
    }
    assert(vs.subrange(0, wants@.len() as int) =~= vs);
    let flush = flush_pkt();
    append_bytes(&mut out, flush.as_slice());
    let done = vec![100u8, 111, 110, 101, 10];
    let done_pkt = pkt_line(done.as_slice());
    assert(done@ =~= seq![100u8, 111, 110, 101, 10]);
    append_bytes(&mut out, done_pkt.as_slice());
    out
}

/// `0008NAK\n`.
pub open spec fn nak_spec() -> Seq<u8> {
    seq![48u8, 48, 48, 56, 78, 65, 75, 10]
}

/// The pack inside an upload-pack reply: everything after `0008NAK\n`.
pub fn strip_nak(reply: &[u8]) -> (r: Result<Vec<u8>, FetchError>)
    ensures
        reply@.len() >= 8 && reply@.subrange(0, 8) == nak_spec() ==> r == Ok::<Vec<u8>, FetchError>(
            r->Ok_0,
        ) && r->Ok_0@ == reply@.subrange(8, reply@.len() as int),
        !(reply@.len() >= 8 && reply@.subrange(0, 8) == nak_spec()) ==> r == Err::<
            Vec<u8>,
            FetchError,
        >(FetchError::MissingNak),
{
    let nak = vec![48u8, 48, 48, 56, 78, 65, 75, 10];
    assert(nak@ =~= nak_spec());
    if reply.len() < 8 || !bytes_equal(&reply[0..8], nak.as_slice()) {
        return Err(FetchError::MissingNak);
    }
    Ok(copy_range(reply, 8, reply.len()))
}

} // verus!
