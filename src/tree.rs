//! Tree payloads: entries `<octal-mode> <name>\0<20-byte hash>` in the
//! canonical order, where a directory sorts as if its name ended in `/`.

use vstd::prelude::*;

use crate::buf::{append_bytes, bytes_equal, copy_range, find_byte};
use crate::object::{first_index_of, lemma_first_index_unique, object_hash, ObjectError, ObjectKind};
use crate::store::{store_write, ObjectStore};

verus! {

/// What a tree entry names.
#[derive(Clone, Copy, Debug, PartialEq, Eq, Structural)]
pub enum EntryKind {
    /// A regular file, mode `100644`.
    File,
    /// An executable file, mode `100755`.
    Executable,
    /// A subdirectory, mode `40000`.
    Directory,
}

/// One entry of a tree being built: name, kind and the raw hash of the
/// object it names.
#[derive(Clone, Debug)]
pub struct DirEntry {
    pub name: Vec<u8>,
    pub kind: EntryKind,
    pub hash: Vec<u8>,
}

/// A tree entry as a mathematical value.
pub type DirEntrySpec = (Seq<u8>, EntryKind, Seq<u8>);

impl View for DirEntry {
    type V = DirEntrySpec;

    open spec fn view(&self) -> DirEntrySpec {
        (self.name@, self.kind, self.hash@)
    }
}

/// The mode text of an entry kind, octal without leading zeros.
pub open spec fn mode_text(k: EntryKind) -> Seq<u8> {
    match k {
        EntryKind::File => seq![49u8, 48, 48, 54, 52, 52],
        EntryKind::Executable => seq![49u8, 48, 48, 55, 53, 53],
        EntryKind::Directory => seq![52u8, 48, 48, 48, 48],
    }
}

/// The kind that a mode text names, if it is one of the three.
pub open spec fn kind_of_mode(m: Seq<u8>) -> Option<EntryKind> {
    if m == mode_text(EntryKind::File) {
        Some(EntryKind::File)
    } else if m == mode_text(EntryKind::Executable) {
        Some(EntryKind::Executable)
    } else if m == mode_text(EntryKind::Directory) {
        Some(EntryKind::Directory)
    } else {
        None
    }
}

/// One entry's text.
pub open spec fn entry_text(e: DirEntrySpec) -> Seq<u8> {
    mode_text(e.1) + seq![32u8] + e.0 + seq![0u8] + e.2
}

/// A tree payload: the entries' texts one after another.
pub open spec fn tree_payload(es: Seq<DirEntrySpec>) -> Seq<u8>
    decreases es.len(),
{
    if es.len() == 0 {
        Seq::empty()
    } else {
        tree_payload(es.drop_last()) + entry_text(es.last())
    }
}

/// The sort key of an entry: its name's bytes, then `/` (47) for a
/// directory or -1, below every byte, for anything else. For names without
/// `/`, comparing keys is the canonical comparison: bytes up to the shorter
/// name, then the next byte, where an exhausted file name has none and an
/// exhausted directory name has `/`.
pub open spec fn tree_key(e: DirEntrySpec) -> Seq<int> {
    e.0.map_values(|b: u8| b as int).push(
        if e.1 == EntryKind::Directory {
            47
        } else {
            -1
        },
    )
}

/// Strict lexicographic order, a proper prefix first.
pub open spec fn lex_lt(x: Seq<int>, y: Seq<int>) -> bool
    decreases x.len(),
{
    if y.len() == 0 {
        false
    } else if x.len() == 0 {
        true
    } else if x[0] < y[0] {
        true
    } else if x[0] > y[0] {
        false
    } else {
        lex_lt(x.drop_first(), y.drop_first())
    }
}

/// `a` comes before `b` in a tree.
pub open spec fn tree_lt(a: DirEntrySpec, b: DirEntrySpec) -> bool {
    lex_lt(tree_key(a), tree_key(b))
}

/// Entries in canonical order.
pub open spec fn tree_sorted(es: Seq<DirEntrySpec>) -> bool {
    forall|i: int, j: int| 0 <= i < j < es.len() ==> !tree_lt(#[trigger] es[j], #[trigger] es[i])
}

proof fn lemma_lex_trans(x: Seq<int>, y: Seq<int>, z: Seq<int>)
    requires
        lex_lt(x, y),
        lex_lt(y, z),
    ensures
        lex_lt(x, z),
    decreases x.len(),
{
    if x.len() > 0 && y.len() > 0 && z.len() > 0 && x[0] == y[0] && y[0] == z[0] {
        lemma_lex_trans(x.drop_first(), y.drop_first(), z.drop_first());
    }
}

proof fn lemma_lex_asym(x: Seq<int>, y: Seq<int>)
    requires
        lex_lt(x, y),
    ensures
        !lex_lt(y, x),
    decreases x.len(),
{
    if x.len() > 0 && y.len() > 0 && x[0] == y[0] {
        lemma_lex_asym(x.drop_first(), y.drop_first());
    }
}

proof fn lemma_lex_connected(x: Seq<int>, y: Seq<int>)
    requires
        x != y,
    ensures
        lex_lt(x, y) || lex_lt(y, x),
    decreases x.len(),
{
    if x.len() > 0 && y.len() > 0 && x[0] == y[0] {
        if x.drop_first() == y.drop_first() {
            assert(x =~= seq![x[0]] + x.drop_first());
            assert(y =~= seq![y[0]] + y.drop_first());
        }
        lemma_lex_connected(x.drop_first(), y.drop_first());
    } else if x.len() == 0 && y.len() == 0 {
        assert(x =~= y);
    }
}

proof fn lemma_key_names(e: DirEntrySpec, f: DirEntrySpec)
    requires
        tree_key(e) == tree_key(f),
    ensures
        e.0 == f.0,
{
    assert(tree_key(e).len() == e.0.len() + 1);
    assert(tree_key(f).len() == f.0.len() + 1);
    assert forall|i: int| 0 <= i < e.0.len() implies e.0[i] == f.0[i] by {
        assert(tree_key(e)[i] == e.0[i] as int);
        assert(tree_key(f)[i] == f.0[i] as int);
    }
    assert(e.0 =~= f.0);
}

/// No two entries share a name, as in a directory listing.
pub open spec fn names_distinct(s: Seq<DirEntrySpec>) -> bool {
    forall|i: int, j: int| 0 <= i < j < s.len() ==> (#[trigger] s[i]).0 != (#[trigger] s[j]).0
}

proof fn lemma_sorted_unique(x: Seq<DirEntrySpec>, y: Seq<DirEntrySpec>)
    requires
        tree_sorted(x),
        tree_sorted(y),
        names_distinct(x),
        x.to_multiset() == y.to_multiset(),
    ensures
        x == y,
    decreases x.len(),
{
    broadcast use vstd::seq_lib::group_to_multiset_ensures;

    if x.len() == 0 {
        assert(y.to_multiset().len() == 0);
        assert(x =~= y);
    } else {
        assert(x.to_multiset().len() == x.len());
        assert(y.to_multiset().len() == y.len());
        assert(x.to_multiset().count(x[0]) > 0);
        assert(y.contains(x[0]));
        assert(y.to_multiset().count(y[0]) > 0);
        assert(x.contains(y[0]));
        if x[0] != y[0] {
            let i = choose|i: int| 0 <= i < x.len() && x[i] == y[0];
            let k = choose|k: int| 0 <= k < y.len() && y[k] == x[0];
            assert(i != 0 && k != 0);
            assert(!tree_lt(x[i], x[0]));
            assert(!tree_lt(y[k], y[0]));
            assert(x[0].0 != x[i].0);
            if tree_key(x[0]) == tree_key(y[0]) {
                lemma_key_names(x[0], y[0]);
            }
            lemma_lex_connected(tree_key(x[0]), tree_key(y[0]));
        }
        let xt = x.drop_first();
        let yt = y.drop_first();
        assert(x =~= seq![x[0]] + xt);
        assert(y =~= seq![y[0]] + yt);
        vstd::seq_lib::to_multiset_remove(x, 0);
        vstd::seq_lib::to_multiset_remove(y, 0);
        assert(x.remove(0) =~= xt);
        assert(y.remove(0) =~= yt);
        assert forall|p: int, q: int| 0 <= p < q < xt.len() implies !tree_lt(
            #[trigger] xt[q],
            #[trigger] xt[p],
        ) by {
            assert(xt[q] == x[q + 1] && xt[p] == x[p + 1]);
        }
        assert forall|p: int, q: int| 0 <= p < q < yt.len() implies !tree_lt(
            #[trigger] yt[q],
            #[trigger] yt[p],
        ) by {
            assert(yt[q] == y[q + 1] && yt[p] == y[p + 1]);
        }
        assert forall|p: int, q: int| 0 <= p < q < xt.len() implies (#[trigger] xt[p]).0 != (
        #[trigger] xt[q]).0 by {
            assert(xt[q] == x[q + 1] && xt[p] == x[p + 1]);
        }
        lemma_sorted_unique(xt, yt);
    }
}

proof fn lemma_filter_count(a: Seq<DirEntrySpec>, x: DirEntrySpec)
    ensures
        a.filter(|e: DirEntrySpec| kept(e)).to_multiset().count(x) == if kept(x) {
            a.to_multiset().count(x)
        } else {
            0
        },
    decreases a.len(),
{
    broadcast use vstd::seq_lib::group_to_multiset_ensures;

    reveal(Seq::filter);
    if a.len() == 0 {
        assert(a.filter(|e: DirEntrySpec| kept(e)) =~= Seq::<DirEntrySpec>::empty());
    } else {
        let front = a.drop_last();
        lemma_filter_count(front, x);
        assert(a =~= front.push(a.last()));
    }
}

proof fn lemma_sorted_names_distinct(a: Seq<DirEntrySpec>, s: Seq<DirEntrySpec>)
    requires
        names_distinct(a),
        s.to_multiset() == a.filter(|e: DirEntrySpec| kept(e)).to_multiset(),
    ensures
        names_distinct(s),
{
    broadcast use vstd::seq_lib::group_to_multiset_ensures;

    assert(a.no_duplicates()) by {
        assert forall|i: int, j: int| 0 <= i < a.len() && 0 <= j < a.len() && i != j implies a[i]
            != a[j] by {
            if i < j {
                assert(a[i].0 != a[j].0);
            } else {
                assert(a[j].0 != a[i].0);
            }
        }
    }
    a.lemma_multiset_has_no_duplicates();
    assert forall|i: int, j: int| 0 <= i < j < s.len() implies (#[trigger] s[i]).0 != (
    #[trigger] s[j]).0 by {
        if s[i].0 == s[j].0 {
            lemma_filter_count(a, s[i]);
            lemma_filter_count(a, s[j]);
            assert(s.to_multiset().count(s[i]) > 0);
            assert(s.to_multiset().count(s[j]) > 0);
            if s[i] == s[j] {
                assert(s.to_multiset().count(s[i]) >= 2) by {
                    broadcast use vstd::multiset::group_multiset_axioms;

                    let t = s.remove(i);
                    vstd::seq_lib::to_multiset_remove(s, i);
                    assert(t[j - 1] == s[j]);
                    assert(t.contains(s[j]));
                    assert(t.to_multiset().count(s[j]) > 0);
                }
                assert(a.to_multiset().count(s[i]) <= 1);
            } else {
                assert(a.contains(s[i]));
                assert(a.contains(s[j]));
                let p = choose|p: int| 0 <= p < a.len() && a[p] == s[i];
                let q = choose|q: int| 0 <= q < a.len() && a[q] == s[j];
                if p < q {
                    assert(a[p].0 != a[q].0);
                } else {
                    assert(a[q].0 != a[p].0);
                }
            }
        }
    }
}

/// Building a tree twice from the same directory, its entries listed in
/// any order, gives the same payload and so the same hash: `sa` and `sb`
/// are what `build_tree` describes for the two listings.
pub proof fn lemma_tree_deterministic(
    a: Seq<DirEntrySpec>,
    b: Seq<DirEntrySpec>,
    sa: Seq<DirEntrySpec>,
    sb: Seq<DirEntrySpec>,
)
    requires
        names_distinct(a),
        a.to_multiset() == b.to_multiset(),
        tree_sorted(sa),
        sa.to_multiset() == a.filter(|e: DirEntrySpec| kept(e)).to_multiset(),
        tree_sorted(sb),
        sb.to_multiset() == b.filter(|e: DirEntrySpec| kept(e)).to_multiset(),
    ensures
        tree_payload(sa) == tree_payload(sb),
        object_hash(ObjectKind::Tree, tree_payload(sa)) == object_hash(
            ObjectKind::Tree,
            tree_payload(sb),
        ),
{
    let fa = a.filter(|e: DirEntrySpec| kept(e)).to_multiset();
    let fb = b.filter(|e: DirEntrySpec| kept(e)).to_multiset();
    assert(fa =~= fb) by {
        assert forall|x: DirEntrySpec| #[trigger] fa.count(x) == fb.count(x) by {
            lemma_filter_count(a, x);
            lemma_filter_count(b, x);
        }
    }
    lemma_sorted_names_distinct(a, sa);
    lemma_sorted_unique(sa, sb);
}

/// Whether `a` comes before `b` in a tree.
pub fn tree_entry_lt(a_name: &[u8], a_kind: EntryKind, b_name: &[u8], b_kind: EntryKind) -> (r:
    bool)
    ensures
        r == tree_lt((a_name@, a_kind, Seq::empty()), (b_name@, b_kind, Seq::empty())),
{
    let ghost ka = tree_key((a_name@, a_kind, Seq::empty()));
    let ghost kb = tree_key((b_name@, b_kind, Seq::empty()));
    let la = a_name.len();
    let lb = b_name.len();
    let sa: i16 = if a_kind == EntryKind::Directory { 47 } else { -1 };
    let sb: i16 = if b_kind == EntryKind::Directory { 47 } else { -1 };
    let mut i: usize = 0;
    assert(ka.subrange(0, ka.len() as int) =~= ka);
    assert(kb.subrange(0, kb.len() as int) =~= kb);
    while i < la && i < lb
        invariant
            ka.len() == la + 1,
            kb.len() == lb + 1,
            ka == tree_key((a_name@, a_kind, Seq::empty())),
            kb == tree_key((b_name@, b_kind, Seq::empty())),
            la == a_name@.len(),
            lb == b_name@.len(),
            forall|j: int| 0 <= j < la ==> ka[j] == a_name@[j] as int,
            forall|j: int| 0 <= j < lb ==> kb[j] == b_name@[j] as int,
            i <= la,
            i <= lb,
            lex_lt(ka, kb) == lex_lt(
                ka.subrange(i as int, ka.len() as int),
                kb.subrange(i as int, kb.len() as int),
            ),
        decreases la - i,
    {
        let ca = a_name[i];
        let cb = b_name[i];
        let ghost xa = ka.subrange(i as int, ka.len() as int);
        let ghost xb = kb.subrange(i as int, kb.len() as int);
        assert(xa[0] == ca && xb[0] == cb);
        if ca < cb {
            return true;
        }
        if ca > cb {
            return false;
        }
        assert(xa.drop_first() =~= ka.subrange(i + 1, ka.len() as int));
        assert(xb.drop_first() =~= kb.subrange(i + 1, kb.len() as int));
        i = i + 1;
    }
    assert(ka[la as int] == sa);
    assert(kb[lb as int] == sb);
    let ca: i16 = if i < la { a_name[i] as i16 } else { sa };
    let cb: i16 = if i < lb { b_name[i] as i16 } else { sb };
    let ghost xa = ka.subrange(i as int, ka.len() as int);
    let ghost xb = kb.subrange(i as int, kb.len() as int);
    assert(xa[0] == ca && xb[0] == cb);
    if ca < cb {
        return true;
    }
    if ca > cb {
        return false;
    }
    assert(xa.drop_first() =~= ka.subrange(i + 1, ka.len() as int));
    assert(xb.drop_first() =~= kb.subrange(i + 1, kb.len() as int));
    assert(lex_lt(ka, kb) == lex_lt(xa.drop_first(), xb.drop_first()));
    if i == la {
        assert(xa.drop_first().len() == 0);
    } else {
        assert(xb.drop_first().len() == 0);
    }
    i == la && i < lb
}

/// Puts entries in canonical order.
pub fn sort_entries(entries: Vec<DirEntry>) -> (r: Vec<DirEntry>)
    ensures
        tree_sorted(r@.map_values(|e: DirEntry| e@)),
        r@.map_values(|e: DirEntry| e@).to_multiset() == entries@.map_values(
            |e: DirEntry| e@,
        ).to_multiset(),
{
    broadcast use vstd::seq_lib::group_to_multiset_ensures;

    let ghost src = entries@.map_values(|e: DirEntry| e@);
    let mut rest = entries;
    let mut out: Vec<DirEntry> = Vec::new();
    assert(out@.map_values(|e: DirEntry| e@) =~= Seq::<DirEntrySpec>::empty());
    while rest.len() > 0
        invariant
            tree_sorted(out@.map_values(|e: DirEntry| e@)),
            out@.map_values(|e: DirEntry| e@).to_multiset().add(
                rest@.map_values(|e: DirEntry| e@).to_multiset(),
            ) == src.to_multiset(),
        decreases rest@.len(),
    {
        let ghost cur = out@.map_values(|e: DirEntry| e@);
        let ghost before = rest@.map_values(|e: DirEntry| e@);
        let x = rest.pop().unwrap();
        proof {
            assert(before =~= rest@.map_values(|e: DirEntry| e@).push(x@));
        }
        let mut j: usize = 0;
        while j < out.len() && !tree_entry_lt(
            x.name.as_slice(),
            x.kind,
            out[j].name.as_slice(),
            out[j].kind,
        )
            invariant
                j <= out@.len(),
                cur == out@.map_values(|e: DirEntry| e@),
                forall|k: int| 0 <= k < j ==> !tree_lt(x@, #[trigger] cur[k]),
            decreases out@.len() - j,
        {
            assert(cur[j as int] == out@[j as int]@);
            j = j + 1;
        }
        proof {
            if j < out@.len() {
                assert(cur[j as int] == out@[j as int]@);
                assert(tree_lt(x@, cur[j as int]));
            }
        }
        let ghost xv = x@;
        out.insert(j, x);
        proof {
            let n = out@.map_values(|e: DirEntry| e@);
            assert(n =~= cur.insert(j as int, xv));
            assert forall|p: int, q: int| 0 <= p < q < n.len() implies !tree_lt(
                #[trigger] n[q],
                #[trigger] n[p],
            ) by {
                if p == j {
                    let c = cur[q - 1];
                    if tree_lt(c, xv) {
                        lemma_lex_trans(tree_key(c), tree_key(xv), tree_key(cur[j as int]));
                        if q - 1 == j {
                            lemma_lex_asym(tree_key(c), tree_key(c));
                        }
                    }
                } else if q == j {
                } else if p < j && q < j {
                    assert(n[p] == cur[p] && n[q] == cur[q]);
                } else if p < j {
                    assert(n[p] == cur[p] && n[q] == cur[q - 1]);
                } else {
                    assert(n[p] == cur[p - 1] && n[q] == cur[q - 1]);
                }
            }
            vstd::seq_lib::to_multiset_insert(cur, j as int, xv);
            let rv = rest@.map_values(|e: DirEntry| e@);
            assert(before == rv.push(xv));
            vstd::seq_lib::to_multiset_build(rv, xv);
            assert(n.to_multiset().add(rv.to_multiset()) =~= cur.to_multiset().add(
                before.to_multiset(),
            ));
        }
    }
    proof {
        assert(rest@.map_values(|e: DirEntry| e@) =~= Seq::<DirEntrySpec>::empty());
    }
    out
}

/// `.git`, the entry a tree leaves out.
pub open spec fn dot_git() -> Seq<u8> {
    seq![46u8, 103, 105, 116]
}

/// Whether an entry belongs in a tree.
pub open spec fn kept(e: DirEntrySpec) -> bool {
    e.0 != dot_git()
}

/// The mode text of an entry kind.
pub fn mode_bytes(k: EntryKind) -> (r: Vec<u8>)
    ensures
        r@ == mode_text(k),
{
    let r = match k {
        EntryKind::File => vec![49u8, 48, 48, 54, 52, 52],
        EntryKind::Executable => vec![49u8, 48, 48, 55, 53, 53],
        EntryKind::Directory => vec![52u8, 48, 48, 48, 48],
    };
    assert(r@ =~= mode_text(k));
    r
}

/// The entry kind that a mode text names; `None` for symlinks, submodules
/// and anything else.
pub fn mode_kind(m: &[u8]) -> (r: Option<EntryKind>)
    ensures
        r == kind_of_mode(m@),
{
    if bytes_equal(m, mode_bytes(EntryKind::File).as_slice()) {
        Some(EntryKind::File)
    } else if bytes_equal(m, mode_bytes(EntryKind::Executable).as_slice()) {
        Some(EntryKind::Executable)
    } else if bytes_equal(m, mode_bytes(EntryKind::Directory).as_slice()) {
        Some(EntryKind::Directory)
    } else {
        None
    }
}

/// The payload of a tree whose entries are `entries`, in the order given.
pub fn tree_payload_bytes(entries: &Vec<DirEntry>) -> (r: Vec<u8>)
    ensures
        r@ == tree_payload(entries@.map_values(|e: DirEntry| e@)),
{
    let ghost es = entries@.map_values(|e: DirEntry| e@);
    let mut out: Vec<u8> = Vec::new();
    let mut i: usize = 0;
    assert(es.subrange(0, 0) =~= Seq::<DirEntrySpec>::empty());
    while i < entries.len()
        invariant
            i <= entries@.len(),
            es == entries@.map_values(|e: DirEntry| e@),
            out@ == tree_payload(es.subrange(0, i as int)),
        decreases entries@.len() - i,
    {
        let e = &entries[i];
        let ghost pre = es.subrange(0, i + 1);
        assert(pre.drop_last() =~= es.subrange(0, i as int));
        assert(pre.last() == e@);
        let ghost before = out@;
        let m = mode_bytes(e.kind);
        append_bytes(&mut out, m.as_slice());
        out.push(32u8);
        append_bytes(&mut out, e.name.as_slice());
        out.push(0u8);
        append_bytes(&mut out, e.hash.as_slice());
        assert(out@ =~= before + entry_text(e@));
        i = i + 1;
    }
    assert(es.subrange(0, entries@.len() as int) =~= es);
    out
}

/// A copy of an entry.
pub fn copy_entry(e: &DirEntry) -> (r: DirEntry)
    ensures
        r@ == e@,
{
    DirEntry { name: e.name.clone(), kind: e.kind, hash: e.hash.clone() }
}

/// The entries that belong in a tree: all but `.git`.
pub fn keep_entries(entries: &Vec<DirEntry>) -> (r: Vec<DirEntry>)
    ensures
        r@.map_values(|e: DirEntry| e@) == entries@.map_values(|e: DirEntry| e@).filter(
            |e: DirEntrySpec| kept(e),
        ),
{
    let ghost es = entries@.map_values(|e: DirEntry| e@);
    let dot = vec![46u8, 103, 105, 116];
    assert(dot@ =~= dot_git());
    let mut out: Vec<DirEntry> = Vec::new();
    let mut i: usize = 0;
    proof {
        reveal(Seq::filter);
        assert(es.subrange(0, 0) =~= Seq::<DirEntrySpec>::empty());
        assert(out@.map_values(|e: DirEntry| e@) =~= es.subrange(0, 0).filter(
            |e: DirEntrySpec| kept(e),
        ));
    }
    while i < entries.len()
        invariant
            i <= entries@.len(),
            es == entries@.map_values(|e: DirEntry| e@),
            dot@ == dot_git(),
            out@.map_values(|e: DirEntry| e@) == es.subrange(0, i as int).filter(
                |e: DirEntrySpec| kept(e),
            ),
        decreases entries@.len() - i,
    {
        let ghost pre = es.subrange(0, i + 1);
        proof {
            reveal(Seq::filter);
            assert(pre.drop_last() =~= es.subrange(0, i as int));
            assert(pre.last() == entries@[i as int]@);
        }
        if !bytes_equal(entries[i].name.as_slice(), dot.as_slice()) {
            let ghost before = out@.map_values(|e: DirEntry| e@);
            out.push(copy_entry(&entries[i]));
            assert(out@.map_values(|e: DirEntry| e@) =~= before.push(entries@[i as int]@));
        }
        i = i + 1;
    }
    assert(es.subrange(0, entries@.len() as int) =~= es);
    out
}

/// A tree's payload built from a directory's entries: `.git` is left out and
/// the rest is put in canonical order.
pub fn build_tree(entries: &Vec<DirEntry>) -> (r: Vec<u8>)
    ensures
        exists|s: Seq<DirEntrySpec>|
            #![trigger tree_payload(s)]
            tree_sorted(s) && s.to_multiset() == entries@.map_values(|e: DirEntry| e@).filter(
                |e: DirEntrySpec| kept(e),
            ).to_multiset() && r@ == tree_payload(s),
{
    let kept_entries = keep_entries(entries);
    let sorted = sort_entries(kept_entries);
    tree_payload_bytes(&sorted)
}

/// One entry read back from a tree payload: mode text, name, raw hash.
#[derive(Clone, Debug)]
pub struct TreeLine {
    pub mode: Vec<u8>,
    pub name: Vec<u8>,
    pub hash: Vec<u8>,
}

impl View for TreeLine {
    type V = (Seq<u8>, Seq<u8>, Seq<u8>);

    open spec fn view(&self) -> (Seq<u8>, Seq<u8>, Seq<u8>) {
        (self.mode@, self.name@, self.hash@)
    }
}

/// The entry at the start of a tree payload: up to the first NUL, split at
/// the first space into mode and name; then exactly 20 bytes of hash.
pub open spec fn tree_line_at(s: Seq<u8>) -> Option<((Seq<u8>, Seq<u8>, Seq<u8>), int)> {
    if exists|z: int| first_index_of(s, 0, z) {
        let z = choose|z: int| first_index_of(s, 0, z);
        let head = s.subrange(0, z);
        if exists|p: int| first_index_of(head, 32, p) {
            let p = choose|p: int| first_index_of(head, 32, p);
            if z + 21 <= s.len() {
                Some(
                    (
                        (head.subrange(0, p), head.subrange(p + 1, z), s.subrange(z + 1, z + 21)),
                        z + 21,
                    ),
                )
            } else {
                None
            }
        } else {
            None
        }
    } else {
        None
    }
}

/// All entries of a tree payload.
pub open spec fn tree_lines_spec(s: Seq<u8>) -> Option<Seq<(Seq<u8>, Seq<u8>, Seq<u8>)>>
    decreases s.len(),
{
    if s.len() == 0 {
        Some(Seq::empty())
    } else {
        match tree_line_at(s) {
            Some((e, n)) => if 0 < n <= s.len() {
                match tree_lines_spec(s.subrange(n, s.len() as int)) {
                    Some(rest) => Some(seq![e] + rest),
                    None => None,
                }
            } else {
                None
            },
            None => None,
        }
    }
}

/// An entry that a tree payload can carry: no NUL in its name and a
/// 20-byte hash.
pub open spec fn storable(e: DirEntrySpec) -> bool {
    &&& forall|i: int| 0 <= i < e.0.len() ==> e.0[i] != 0
    &&& e.2.len() == 20
}

/// What reading an entry's text gives back.
pub open spec fn line_of(e: DirEntrySpec) -> (Seq<u8>, Seq<u8>, Seq<u8>) {
    (mode_text(e.1), e.0, e.2)
}

proof fn lemma_entry_text_reads(e: DirEntrySpec, rest: Seq<u8>)
    requires
        storable(e),
    ensures
        tree_line_at(entry_text(e) + rest) == Some((line_of(e), entry_text(e).len() as int)),
{
    let m = mode_text(e.1);
    let s = entry_text(e) + rest;
    let p = m.len() as int;
    let z = p + 1 + e.0.len();
    assert(forall|i: int| 0 <= i < m.len() ==> 48 <= #[trigger] m[i] <= 57);
    assert(first_index_of(s, 0, z)) by {
        assert forall|j: int| 0 <= j < z implies s[j] != 0 by {
            if j > p {
                assert(s[j] == e.0[j - p - 1]);
            }
        }
    }
    let zc = choose|z: int| first_index_of(s, 0, z);
    lemma_first_index_unique(s, 0, z, zc);
    let head = s.subrange(0, z);
    assert(first_index_of(head, 32, p));
    let pc = choose|p: int| first_index_of(head, 32, p);
    lemma_first_index_unique(head, 32, p, pc);
    assert(head.subrange(0, p) =~= m);
    assert(head.subrange(p + 1, z) =~= e.0);
    assert(s.subrange(z + 1, z + 21) =~= e.2);
}

proof fn lemma_payload_front(es: Seq<DirEntrySpec>)
    requires
        es.len() > 0,
    ensures
        tree_payload(es) == entry_text(es[0]) + tree_payload(es.drop_first()),
    decreases es.len(),
{
    if es.len() == 1 {
        assert(es.drop_last() =~= Seq::<DirEntrySpec>::empty());
        assert(es.drop_first() =~= Seq::<DirEntrySpec>::empty());
        assert(tree_payload(es.drop_last()) =~= Seq::<u8>::empty());
        assert(tree_payload(es.drop_first()) =~= Seq::<u8>::empty());
        assert(es.last() == es[0]);
        assert(tree_payload(es) =~= entry_text(es[0]) + tree_payload(es.drop_first()));
    } else {
        lemma_payload_front(es.drop_last());
        assert(es.drop_last().drop_first() =~= es.drop_first().drop_last());
        assert(es.drop_first().last() == es.last());
        assert(es.drop_last()[0] == es[0]);
        assert(tree_payload(es) =~= entry_text(es[0]) + tree_payload(es.drop_first()));
    }
}

/// Reading a tree payload gives back the entries it was made from, in
/// order: mode text, name and hash of each.
pub proof fn lemma_tree_round_trip(es: Seq<DirEntrySpec>)
    requires
        forall|i: int| 0 <= i < es.len() ==> storable(#[trigger] es[i]),
    ensures
        tree_lines_spec(tree_payload(es)) == Some(es.map_values(|e: DirEntrySpec| line_of(e))),
    decreases es.len(),
{
    if es.len() == 0 {
        assert(es.map_values(|e: DirEntrySpec| line_of(e)) =~= Seq::<
            (Seq<u8>, Seq<u8>, Seq<u8>),
        >::empty());
    } else {
        let tail = es.drop_first();
        lemma_payload_front(es);
        let s = tree_payload(es);
        let rest = tree_payload(tail);
        assert(storable(es[0]));
        lemma_entry_text_reads(es[0], rest);
        let n = entry_text(es[0]).len() as int;
        assert(s.subrange(n, s.len() as int) =~= rest);
        assert forall|i: int| 0 <= i < tail.len() implies storable(#[trigger] tail[i]) by {
            assert(storable(es[i + 1]));
        }
        lemma_tree_round_trip(tail);
        assert(seq![line_of(es[0])] + tail.map_values(|e: DirEntrySpec| line_of(e)) =~= es.map_values(
            |e: DirEntrySpec| line_of(e),
        ));
    }
}

/// Reads the entry at the start of `s`.
pub fn read_tree_line(s: &[u8]) -> (r: Option<(TreeLine, usize)>)
    ensures
        r matches Some((e, n)) ==> tree_line_at(s@) == Some((e@, n as int)) && 0 < n <= s@.len(),
        r is None ==> tree_line_at(s@) is None,
{
    let z = find_byte(s, 0, 0, s.len());
    if z == s.len() {
        return None;
    }
    assert(first_index_of(s@, 0, z as int));
    proof {
        let zc = choose|z: int| first_index_of(s@, 0, z);
        lemma_first_index_unique(s@, 0, z as int, zc);
    }
    let ghost head = s@.subrange(0, z as int);
    let p = find_byte(s, 32, 0, z);
    if p == z {
        assert forall|q: int| !first_index_of(head, 32, q) by {
            if first_index_of(head, 32, q) {
                assert(head[q] == s@[q]);
            }
        }
        return None;
    }
    assert(first_index_of(head, 32, p as int));
    proof {
        let pc = choose|p: int| first_index_of(head, 32, p);
        lemma_first_index_unique(head, 32, p as int, pc);
    }
    assert(head.subrange(0, p as int) =~= s@.subrange(0, p as int));
    assert(head.subrange(p + 1, z as int) =~= s@.subrange(p + 1, z as int));
    if s.len() - z < 21 {
        return None;
    }
    let line = TreeLine {
        mode: copy_range(s, 0, p),
        name: copy_range(s, p + 1, z),
        hash: copy_range(s, z + 1, z + 21),
    };
    Some((line, z + 21))
}

/// Reads every entry of a tree payload.
pub fn parse_tree(s: &[u8]) -> (r: Result<Vec<TreeLine>, ObjectError>)
    ensures
        r matches Ok(v) ==> tree_lines_spec(s@) == Some(v@.map_values(|e: TreeLine| e@)),
        r is Err ==> tree_lines_spec(s@) is None && r == Err::<Vec<TreeLine>, ObjectError>(
            ObjectError::Corrupt,
        ),
{
    let mut lines: Vec<TreeLine> = Vec::new();
    let mut pos: usize = 0;
    assert(s@.subrange(0, s@.len() as int) =~= s@);
    proof {
        match tree_lines_spec(s@) {
            Some(rest) => {
                assert(lines@.map_values(|e: TreeLine| e@) + rest =~= rest);
            },
            None => {},
        }
    }
    while pos < s.len()
        invariant
            pos <= s@.len(),
            tree_lines_spec(s@) == match tree_lines_spec(s@.subrange(pos as int, s@.len() as int)) {
                Some(rest) => Some(lines@.map_values(|e: TreeLine| e@) + rest),
                None => None::<Seq<(Seq<u8>, Seq<u8>, Seq<u8>)>>,
            },
        decreases s@.len() - pos,
    {
        let ghost tail = s@.subrange(pos as int, s@.len() as int);
        let (line, n) = match read_tree_line(&s[pos..s.len()]) {
            Some(x) => x,
            None => {
                return Err(ObjectError::Corrupt);
            },
        };
        proof {
            assert(tail.subrange(n as int, tail.len() as int) =~= s@.subrange(
                pos + n,
                s@.len() as int,
            ));
            let old_lines = lines@.map_values(|e: TreeLine| e@);
            match tree_lines_spec(tail.subrange(n as int, tail.len() as int)) {
                Some(rest) => {
                    assert(old_lines + (seq![line@] + rest) =~= old_lines.push(line@) + rest);
                },
                None => {},
            }
        }
        lines.push(line);
        proof {
            let k = lines@.len() - 1;
            assert(lines@.map_values(|e: TreeLine| e@) =~= lines@.subrange(0, k).map_values(
                |e: TreeLine| e@,
            ).push(lines@[k]@));
        }
        pos = pos + n;
    }
    assert(lines@.map_values(|e: TreeLine| e@) + Seq::<(Seq<u8>, Seq<u8>, Seq<u8>)>::empty()
        =~= lines@.map_values(|e: TreeLine| e@));
    Ok(lines)
}

/// Builds the tree of a directory's entries and writes it into the store;
/// returns its hash.
pub fn write_tree(store: &mut ObjectStore, entries: &Vec<DirEntry>) -> (r: Vec<u8>)
    requires
        old(store).wf(),
    ensures
        final(store).wf(),
        exists|s: Seq<DirEntrySpec>|
            #![trigger tree_payload(s)]
            tree_sorted(s) && s.to_multiset() == entries@.map_values(|e: DirEntry| e@).filter(
                |e: DirEntrySpec| kept(e),
            ).to_multiset() && r@ == object_hash(ObjectKind::Tree, tree_payload(s))
                && final(store)@ == store_write(
                old(store)@,
                (r@, ObjectKind::Tree, tree_payload(s)),
            ),
{
    let payload = build_tree(entries);
    store.write(ObjectKind::Tree, payload)
}

} // verus!
