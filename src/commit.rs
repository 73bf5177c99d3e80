//! Commit payloads: `tree`, `parent` lines, `author`, `committer`, a blank
//! line, then the message and a newline.

use vstd::prelude::*;

use crate::buf::{append_bytes, copy_range};
use crate::digest::is_hex_text;
use crate::object::{decimal, decimal_bytes};

verus! {

/// Who made a commit and when: `Name <email>`, seconds since the epoch, and
/// the zone as `+HHMM` or `-HHMM`.
#[derive(Clone, Debug)]
pub struct Signature {
    pub ident: Vec<u8>,
    pub seconds: u64,
    pub tz: Vec<u8>,
}

/// `<label> <ident> <seconds> <tz>\n`.
pub open spec fn signature_line(label: Seq<u8>, s: Signature) -> Seq<u8> {
    label + seq![32u8] + s.ident@ + seq![32u8] + decimal(s.seconds as nat) + seq![32u8] + s.tz@
        + seq![10u8]
}

/// `tree ` as bytes.
pub open spec fn tree_label() -> Seq<u8> {
    seq![116u8, 114, 101, 101]
}

/// `parent` as bytes.
pub open spec fn parent_label() -> Seq<u8> {
    seq![112u8, 97, 114, 101, 110, 116]
}

/// `author` as bytes.
pub open spec fn author_label() -> Seq<u8> {
    seq![97u8, 117, 116, 104, 111, 114]
}

/// `committer` as bytes.
pub open spec fn committer_label() -> Seq<u8> {
    seq![99u8, 111, 109, 109, 105, 116, 116, 101, 114]
}

/// `<label> <value>\n`.
pub open spec fn header_line(label: Seq<u8>, value: Seq<u8>) -> Seq<u8> {
    label + seq![32u8] + value + seq![10u8]
}

/// One `parent` line per parent, in order.
pub open spec fn parent_lines(ps: Seq<Seq<u8>>) -> Seq<u8>
    decreases ps.len(),
{
    if ps.len() == 0 {
        Seq::empty()
    } else {
        parent_lines(ps.drop_last()) + header_line(parent_label(), ps.last())
    }
}

/// The payload of a commit.
pub open spec fn commit_spec(
    tree: Seq<u8>,
    parents: Seq<Seq<u8>>,
    author: Signature,
    committer: Signature,
    message: Seq<u8>,
) -> Seq<u8> {
    header_line(tree_label(), tree) + parent_lines(parents) + signature_line(author_label(), author)
        + signature_line(committer_label(), committer) + seq![10u8] + message + seq![10u8]
}

fn push_signature(out: &mut Vec<u8>, label: &[u8], s: &Signature)
    ensures
        final(out)@ == old(out)@ + signature_line(label@, *s),
{
    append_bytes(out, label);
    out.push(32u8);
    append_bytes(out, s.ident.as_slice());
    out.push(32u8);
    let secs = decimal_bytes(s.seconds);
    append_bytes(out, secs.as_slice());
    out.push(32u8);
    append_bytes(out, s.tz.as_slice());
    out.push(10u8);
    assert(final(out)@ =~= old(out)@ + signature_line(label@, *s));
}

/// The payload of a commit of `tree` (hex) with the given parents (hex),
/// signatures and message.
pub fn commit_payload(
    tree: &[u8],
    parents: &Vec<Vec<u8>>,
    author: &Signature,
    committer: &Signature,
    message: &[u8],
) -> (r: Vec<u8>)
    ensures
        r@ == commit_spec(
            tree@,
            parents@.map_values(|p: Vec<u8>| p@),
            *author,
            *committer,
            message@,
        ),
{
    let ghost ps = parents@.map_values(|p: Vec<u8>| p@);
    let mut out = vec![116u8, 114, 101, 101, 32];
    append_bytes(&mut out, tree);
    out.push(10u8);
    assert(out@ =~= header_line(tree_label(), tree@));
    let ghost start = out@;
    let mut i: usize = 0;
    assert(ps.subrange(0, 0) =~= Seq::<Seq<u8>>::empty());
    assert(out@ =~= start + parent_lines(ps.subrange(0, 0)));
    while i < parents.len()
        invariant
            i <= parents@.len(),
            ps == parents@.map_values(|p: Vec<u8>| p@),
            out@ == start + parent_lines(ps.subrange(0, i as int)),
        decreases parents@.len() - i,
    {
        let ghost pre = ps.subrange(0, i + 1);
        assert(pre.drop_last() =~= ps.subrange(0, i as int));
        assert(pre.last() == parents@[i as int]@);
        let ghost before = out@;
        let label = vec![112u8, 97, 114, 101, 110, 116, 32];
        append_bytes(&mut out, label.as_slice());
        append_bytes(&mut out, parents[i].as_slice());
        out.push(10u8);
        assert(out@ =~= before + header_line(parent_label(), parents@[i as int]@));
        i = i + 1;
    }
    assert(ps.subrange(0, parents@.len() as int) =~= ps);
    let author_text = vec![97u8, 117, 116, 104, 111, 114];
    assert(author_text@ =~= author_label());
    push_signature(&mut out, author_text.as_slice(), author);
    let committer_text = vec![99u8, 111, 109, 109, 105, 116, 116, 101, 114];
    assert(committer_text@ =~= committer_label());
    push_signature(&mut out, committer_text.as_slice(), committer);
    out.push(10u8);
    append_bytes(&mut out, message);
    out.push(10u8);
    assert(out@ =~= commit_spec(tree@, ps, *author, *committer, message@));
    out
}

/// The tree named on a commit's first line, `tree <40 hex digits>\n`.
pub open spec fn commit_tree_spec(p: Seq<u8>) -> Option<Seq<u8>> {
    if p.len() >= 46 && p.subrange(0, 5) == tree_label().push(32) && is_hex_text(p.subrange(5, 45))
        && p[45] == 10 {
        Some(p.subrange(5, 45))
    } else {
        None
    }
}

/// The tree a commit is built on is the one read back off its first line.
pub proof fn lemma_commit_tree_round_trip(
    tree: Seq<u8>,
    parents: Seq<Seq<u8>>,
    author: Signature,
    committer: Signature,
    message: Seq<u8>,
)
    requires
        tree.len() == 40,
        is_hex_text(tree),
    ensures
        commit_tree_spec(commit_spec(tree, parents, author, committer, message)) == Some(tree),
{
    let p = commit_spec(tree, parents, author, committer, message);
    let first = header_line(tree_label(), tree);
    assert(p =~= first + (parent_lines(parents) + signature_line(author_label(), author)
        + signature_line(committer_label(), committer) + seq![10u8] + message + seq![10u8]));
    assert(p.subrange(0, 5) =~= tree_label().push(32));
    assert(p.subrange(5, 45) =~= tree);
    assert(p[45] == 10);
}

/// Reads the tree hash (hex) off a commit payload's first line.
pub fn commit_tree(p: &[u8]) -> (r: Option<Vec<u8>>)
    ensures
        r matches Some(h) ==> commit_tree_spec(p@) == Some(h@),
        r is None ==> commit_tree_spec(p@) is None,
{
    if p.len() < 46 || p[45] != 10 {
        return None;
    }
    let label = vec![116u8, 114, 101, 101, 32];
    assert(label@ =~= tree_label().push(32));
    if !crate::buf::bytes_equal(&p[0..5], label.as_slice()) {
        return None;
    }
    let mut i: usize = 5;
    while i < 45
        invariant
            5 <= i <= 45,
            p@.len() >= 46,
            forall|j: int| 5 <= j < i ==> crate::digest::hex_value(#[trigger] p@[j]).is_some(),
        decreases 45 - i,
    {
        let c = p[i];
        if !((48 <= c && c <= 57) || (97 <= c && c <= 102) || (65 <= c && c <= 70)) {
            assert(crate::digest::hex_value(p@.subrange(5, 45)[i - 5]) is None);
            return None;
        }
        i = i + 1;
    }
    assert(is_hex_text(p@.subrange(5, 45)));
    Some(copy_range(p, 5, 45))
}

} // verus!
