//! Tree objects: folding the sorted index into nested tree payloads, and the
//! inverse walk that materializes a tree graph back into a flat file list.
//!
//! A tree payload is the concatenation of `"<mode> <name>\0"` followed by the
//! child's 20-byte digest, one run per child, in ascending name order: the
//! runs are gathered group by group from the sorted index and then ordered
//! by name, so a directory comes before a file whose name extends it.
//! A staged path that is both a file and a directory under one parent is
//! rejected with a name-conflict error rather than silently resolved.
use vstd::prelude::*;

use crate::byteops::{bytes_eq, find_byte, find_byte_exec, lex_lt, lemma_find_byte_concat,
    lemma_find_byte_props, lemma_lex_lt_skip_common};
use crate::hashing::{hex_val_of, is_hex_char, sha1_of};
use crate::index::{entries_sorted, entries_wf, entry_wf, IndexEntry, path_wf};
use crate::objects::{frame_of, payload_after_nul, ObjType};
use crate::store::ObjectStore;
use crate::ItError;
use vstd::slice::{slice_subrange, slice_to_vec};
use vstd::multiset::Multiset;

verus! {

/// Mode run for a file entry: the bytes of `100644`.
pub open spec fn mode_file() -> Seq<u8> {
    seq![49u8, 48u8, 48u8, 54u8, 52u8, 52u8]
}

/// Mode run for a directory entry: the bytes of `040000`.
pub open spec fn mode_dir() -> Seq<u8> {
    seq![48u8, 52u8, 48u8, 48u8, 48u8, 48u8]
}

pub open spec fn mode_of(is_dir: bool) -> Seq<u8> {
    if is_dir {
        mode_dir()
    } else {
        mode_file()
    }
}

/// One run of a tree payload.
pub open spec fn te_bytes(is_dir: bool, name: Seq<u8>, h: Seq<u8>) -> Seq<u8> {
    mode_of(is_dir) + seq![32u8] + name + seq![0u8] + h
}

/// A whole tree payload: the runs, concatenated with no separator.
pub open spec fn tree_payload(l: Seq<(bool, Seq<u8>, Seq<u8>)>) -> Seq<u8>
    decreases l.len(),
{
    if l.len() == 0 {
        Seq::empty()
    } else {
        te_bytes(l.first().0, l.first().1, l.first().2) + tree_payload(l.drop_first())
    }
}

pub proof fn lemma_tree_payload_snoc(l: Seq<(bool, Seq<u8>, Seq<u8>)>)
    requires
        l.len() > 0,
    ensures
        tree_payload(l) == tree_payload(l.drop_last()) + te_bytes(
            l.last().0,
            l.last().1,
            l.last().2,
        ),
    decreases l.len(),
{
    let last = te_bytes(l.last().0, l.last().1, l.last().2);
    if l.len() == 1 {
        assert(tree_payload(l.drop_last()) + last =~= last);
        assert(tree_payload(l.drop_first()) =~= Seq::<u8>::empty());
        assert(te_bytes(l.first().0, l.first().1, l.first().2) + Seq::<u8>::empty() =~= last);
    } else {
        lemma_tree_payload_snoc(l.drop_first());
        let head = te_bytes(l.first().0, l.first().1, l.first().2);
        assert(l.drop_first().drop_last() =~= l.drop_last().drop_first());
        assert(l.drop_first().last() == l.last());
        assert(l.drop_last().first() == l.first());
        assert(head + (tree_payload(l.drop_last().drop_first()) + last) =~= (head + tree_payload(
            l.drop_last().drop_first(),
        )) + last);
    }
}

/// The parse of a tree payload: mode up to the space, name up to the NUL,
/// then exactly 20 digest bytes, until the payload is exhausted. Any mode
/// other than the directory mode marks a file, as the restorer treats it.
pub open spec fn parse_tree(b: Seq<u8>) -> Option<Seq<(bool, Seq<u8>, Seq<u8>)>>
    decreases b.len(),
    via parse_tree_decreases
{
    if b.len() == 0 {
        Some(Seq::empty())
    } else {
        match find_byte(b, 32) {
            None => None,
            Some(sp) => {
                let mode = b.take(sp);
                let rest1 = b.skip(sp + 1);
                match find_byte(rest1, 0) {
                    None => None,
                    Some(nl) => {
                        let name = rest1.take(nl);
                        let rest2 = rest1.skip(nl + 1);
                        if rest2.len() < 20 {
                            None
                        } else {
                            let h = rest2.take(20);
                            let rest3 = rest2.skip(20);
                            match parse_tree(rest3) {
                                None => None,
                                Some(tail) => Some(seq![(mode == mode_dir(), name, h)] + tail),
                            }
                        }
                    },
                }
            },
        }
    }
}

#[via_fn]
proof fn parse_tree_decreases(b: Seq<u8>) {
    if b.len() > 0 {
        lemma_find_byte_props(b, 32);
        match find_byte(b, 32) {
            None => {},
            Some(sp) => {
                let rest1 = b.skip(sp + 1);
                lemma_find_byte_props(rest1, 0);
            },
        }
    }
}

/// A run list the builder emits: digests of length 20 and names free of NUL.
pub open spec fn tes_wf(l: Seq<(bool, Seq<u8>, Seq<u8>)>) -> bool {
    forall|i: int|
        0 <= i < l.len() ==> (#[trigger] l[i]).2.len() == 20 && (forall|k: int|
            0 <= k < l[i].1.len() ==> l[i].1[k] != 0)
}

/// Parsing inverts serialization, run by run.
pub proof fn lemma_parse_tree_roundtrip(l: Seq<(bool, Seq<u8>, Seq<u8>)>)
    requires
        tes_wf(l),
    ensures
        parse_tree(tree_payload(l)) == Some(l),
    decreases l.len(),
{
    if l.len() == 0 {
        assert(parse_tree(tree_payload(l)) == Some(l));
    } else {
        let is_dir = l.first().0;
        let name = l.first().1;
        let h = l.first().2;
        let tail = l.drop_first();
        let b = tree_payload(l);
        let mode = mode_of(is_dir);
        assert(b == te_bytes(is_dir, name, h) + tree_payload(tail));
        assert(b =~= mode + (seq![32u8] + (name + (seq![0u8] + (h + tree_payload(tail))))));
        // the first space closes the mode
        assert(forall|k: int| 0 <= k < mode.len() ==> mode[k] != 32);
        lemma_find_byte_concat(mode, seq![32u8] + (name + (seq![0u8] + (h + tree_payload(tail)))), 32);
        assert(find_byte(seq![32u8] + (name + (seq![0u8] + (h + tree_payload(tail)))), 32)
            == Some(0int));
        assert(find_byte(b, 32) == Some(mode.len() as int));
        assert(b.take(mode.len() as int) =~= mode);
        let rest1 = b.skip(mode.len() as int + 1);
        assert(rest1 =~= name + (seq![0u8] + (h + tree_payload(tail))));
        // the first NUL closes the name
        assert(forall|k: int| 0 <= k < name.len() ==> name[k] != 0);
        lemma_find_byte_concat(name, seq![0u8] + (h + tree_payload(tail)), 0);
        assert(find_byte(seq![0u8] + (h + tree_payload(tail)), 0) == Some(0int));
        assert(find_byte(rest1, 0) == Some(name.len() as int));
        assert(rest1.take(name.len() as int) =~= name);
        let rest2 = rest1.skip(name.len() as int + 1);
        assert(rest2 =~= h + tree_payload(tail));
        assert(rest2.len() >= 20);
        assert(rest2.take(20) =~= h);
        let rest3 = rest2.skip(20);
        assert(rest3 =~= tree_payload(tail));
        assert(forall|i: int| 0 <= i < tail.len() ==> tail[i] == l[i + 1]);
        assert(tes_wf(tail));
        lemma_parse_tree_roundtrip(tail);
        assert(mode == mode_dir() <==> is_dir) by {
            if is_dir {
            } else {
                assert(mode_file()[1] != mode_dir()[1]);
            }
        }
        assert(seq![(is_dir, name, h)] + tail =~= l);
    }
}


/// One leading file entry peels off the front of the run list.
proof fn lemma_tree_runs_file_step(mse: Seq<(Seq<u8>, Seq<u8>, u16)>, start: int, i: int, n: int)
    requires
        0 <= start,
        0 <= i < n,
        n == mse.len(),
        rems_wf_m(mse, start),
        seg_end(mse[i].0, start) == mse[i].0.len(),
    ensures
        scan_runs(mse.subrange(i, n), start) == seq![(false, mse[i].0.skip(start), mse[i].1)]
            + scan_runs(mse.subrange(i + 1, n), start),
{
    let msuf = mse.subrange(i, n);
    assert forall|t: int| 0 <= t < msuf.len() implies (start as int) < (
    #[trigger] msuf[t]).0.len() && path_wf(msuf[t].0.skip(start)) by {
        assert(msuf[t] == mse[i + t]);
    }
    assert(rems_wf_m(msuf, start));
    assert(msuf[0] == mse[i]);
    assert(msuf.subrange(1, msuf.len() as int) =~= mse.subrange(i + 1, n));
}

/// One leading directory run peels off the front of the run list.
proof fn lemma_tree_runs_dir_step(
    mse: Seq<(Seq<u8>, Seq<u8>, u16)>,
    start: int,
    i: int,
    j: int,
    n: int,
    segs: Seq<u8>,
)
    requires
        0 <= start,
        0 <= i < j <= n,
        n == mse.len(),
        rems_wf_m(mse, start),
        seg_end(mse[i].0, start) < mse[i].0.len(),
        segs == mse[i].0.skip(start).take(seg_end(mse[i].0, start) - start),
        forall|k: int| i <= k < j ==> run_member(#[trigger] mse[k], start, segs),
        j < n ==> !run_member(mse[j], start, segs),
    ensures
        scan_runs(mse.subrange(i, n), start) == seq![
            (
                true,
                segs,
                sha1_of(frame_of(
                    ObjType::Tree,
                    tree_payload(tree_runs(mse.subrange(i, j), start + segs.len() + 1)),
                )),
            ),
        ] + scan_runs(mse.subrange(j, n), start),
{
    let msuf = mse.subrange(i, n);
    assert forall|t: int| 0 <= t < msuf.len() implies (start as int) < (
    #[trigger] msuf[t]).0.len() && path_wf(msuf[t].0.skip(start)) by {
        assert(msuf[t] == mse[i + t]);
    }
    assert(rems_wf_m(msuf, start));
    assert(msuf[0] == mse[i]);
    let p0 = msuf[0].0;
    let e2 = seg_end(p0, start);
    let seg_spec = p0.skip(start).take(e2 - start);
    assert(seg_spec == segs);
    assert forall|t: int| 0 <= t < j - i implies run_member(#[trigger] msuf[t], start, segs) by {
        assert(msuf[t] == mse[i + t]);
    }
    if j < n {
        assert(msuf[(j - i) as int] == mse[j]);
    }
    lemma_run_extent_det(msuf, start, segs, 0, j - i);
    let cs = start + segs.len() as int + 1;
    assert(rems_wf_m(msuf.subrange(0, j - i), cs)) by {
        lemma_members_wf(msuf, start, segs, j - i);
    }
    assert(rems_wf_m(msuf.subrange(j - i, msuf.len() as int), start)) by {
        assert forall|t: int|
            0 <= t < msuf.subrange(j - i, msuf.len() as int).len() implies (start as int) < (
        #[trigger] msuf.subrange(j - i, msuf.len() as int)[t]).0.len() && path_wf(
            msuf.subrange(j - i, msuf.len() as int)[t].0.skip(start),
        ) by {
            assert(msuf.subrange(j - i, msuf.len() as int)[t] == msuf[j - i + t]);
        }
    }
    assert(msuf.subrange(0, j - i) =~= mse.subrange(i, j));
    assert(msuf.subrange(j - i, msuf.len() as int) =~= mse.subrange(j, n));
    assert(scan_runs(msuf, start) == seq![
        (
            true,
            segs,
            sha1_of(frame_of(
                ObjType::Tree,
                tree_payload(tree_runs(msuf.subrange(0, j - i), cs)),
            )),
        ),
    ] + scan_runs(msuf.subrange(j - i, msuf.len() as int), start));
}

/// The files a tree graph stands for: walking a digest under a directory
/// prefix yields the flat `(path, bytes)` list, depth first, or nothing if
/// the graph is missing pieces, framed wrongly, or deeper than the fuel.
pub open spec fn walk(
    m: Map<Seq<u8>, Seq<u8>>,
    h: Seq<u8>,
    dir: Seq<u8>,
    fuel: nat,
) -> Option<Seq<(Seq<u8>, Seq<u8>)>>
    decreases fuel, 0nat, 0nat,
{
    if fuel == 0 {
        None
    } else if !m.contains_key(h) {
        None
    } else {
        match payload_after_nul(m[h]) {
            None => None,
            Some(pl) => match parse_tree(pl) {
                None => None,
                Some(tes) => walk_entries(m, tes, dir, (fuel - 1) as nat),
            },
        }
    }
}

pub open spec fn walk_entries(
    m: Map<Seq<u8>, Seq<u8>>,
    tes: Seq<(bool, Seq<u8>, Seq<u8>)>,
    dir: Seq<u8>,
    fuel: nat,
) -> Option<Seq<(Seq<u8>, Seq<u8>)>>
    decreases fuel, tes.len(), 1nat,
{
    if tes.len() == 0 {
        Some(Seq::empty())
    } else {
        let te = tes.first();
        let first_files: Option<Seq<(Seq<u8>, Seq<u8>)>> = if te.0 {
            walk(m, te.2, dir + te.1 + seq![47u8], fuel)
        } else {
            if !m.contains_key(te.2) {
                None
            } else {
                match payload_after_nul(m[te.2]) {
                    None => None,
                    Some(content) => Some(seq![(dir + te.1, content)]),
                }
            }
        };
        match first_files {
            None => None,
            Some(fs) => match walk_entries(m, tes.drop_first(), dir, fuel) {
                None => None,
                Some(rest) => Some(fs + rest),
            },
        }
    }
}

/// A successful walk survives any extension of the store.
pub proof fn lemma_walk_monotone(
    m1: Map<Seq<u8>, Seq<u8>>,
    m2: Map<Seq<u8>, Seq<u8>>,
    h: Seq<u8>,
    dir: Seq<u8>,
    fuel: nat,
)
    requires
        m1.submap_of(m2),
        walk(m1, h, dir, fuel) is Some,
    ensures
        walk(m2, h, dir, fuel) == walk(m1, h, dir, fuel),
    decreases fuel, 0nat, 0nat,
{
    assert(m1.contains_key(h) && m2.contains_key(h) && m2[h] == m1[h]);
    match payload_after_nul(m1[h]) {
        None => {},
        Some(pl) => match parse_tree(pl) {
            None => {},
            Some(tes) => {
                lemma_walk_entries_monotone(m1, m2, tes, dir, (fuel - 1) as nat);
            },
        },
    }
}

pub proof fn lemma_walk_entries_monotone(
    m1: Map<Seq<u8>, Seq<u8>>,
    m2: Map<Seq<u8>, Seq<u8>>,
    tes: Seq<(bool, Seq<u8>, Seq<u8>)>,
    dir: Seq<u8>,
    fuel: nat,
)
    requires
        m1.submap_of(m2),
        walk_entries(m1, tes, dir, fuel) is Some,
    ensures
        walk_entries(m2, tes, dir, fuel) == walk_entries(m1, tes, dir, fuel),
    decreases fuel, tes.len(), 1nat,
{
    if tes.len() > 0 {
        let te = tes.first();
        if te.0 {
            lemma_walk_monotone(m1, m2, te.2, dir + te.1 + seq![47u8], fuel);
        } else {
            assert(m1.contains_key(te.2) && m2.contains_key(te.2) && m2[te.2] == m1[te.2]);
        }
        lemma_walk_entries_monotone(m1, m2, tes.drop_first(), dir, fuel);
    }
}

/// Walking a concatenation of runs concatenates the walks.
pub proof fn lemma_walk_entries_concat(
    m: Map<Seq<u8>, Seq<u8>>,
    l1: Seq<(bool, Seq<u8>, Seq<u8>)>,
    l2: Seq<(bool, Seq<u8>, Seq<u8>)>,
    dir: Seq<u8>,
    fuel: nat,
)
    ensures
        walk_entries(m, l1 + l2, dir, fuel) == match (walk_entries(m, l1, dir, fuel), walk_entries(
            m,
            l2,
            dir,
            fuel,
        )) {
            (Some(a), Some(b)) => Some(a + b),
            _ => None::<Seq<(Seq<u8>, Seq<u8>)>>,
        },
    decreases l1.len(),
{
    if l1.len() == 0 {
        assert(l1 + l2 =~= l2);
        match walk_entries(m, l2, dir, fuel) {
            Some(b) => {
                assert(Seq::<(Seq<u8>, Seq<u8>)>::empty() + b =~= b);
            },
            None => {},
        }
    } else {
        assert((l1 + l2).first() == l1.first());
        assert((l1 + l2).drop_first() =~= l1.drop_first() + l2);
        assert((l1 + l2).len() > 0);
        lemma_walk_entries_concat(m, l1.drop_first(), l2, dir, fuel);
        match (walk_entries(m, l1, dir, fuel), walk_entries(m, l2, dir, fuel)) {
            (Some(a), Some(b)) => {
                let te = l1.first();
                let ff = if te.0 {
                    walk(m, te.2, dir + te.1 + seq![47u8], fuel)
                } else {
                    if !m.contains_key(te.2) {
                        None
                    } else {
                        match payload_after_nul(m[te.2]) {
                            None => None,
                            Some(content) => Some(seq![(dir + te.1, content)]),
                        }
                    }
                };
                let fs = ff->0;
                assert(fs + (walk_entries(m, l1.drop_first(), dir, fuel)->0 + b) =~= (fs
                    + walk_entries(m, l1.drop_first(), dir, fuel)->0) + b);
            },
            _ => {},
        }
    }
}

/// A submap keeps its keys and values under extension.
pub proof fn lemma_submap_val(m1: Map<Seq<u8>, Seq<u8>>, m2: Map<Seq<u8>, Seq<u8>>, k: Seq<u8>)
    requires
        m1.submap_of(m2),
        m1.contains_key(k),
    ensures
        m2.contains_key(k),
        m1[k] == m2[k],
{
    assert(m1.dom().contains(k));
    assert(m1.dom().contains(k) && (m2.dom().contains(k) || !m2.dom().contains(k)));
}

/// The remainder of an entry's path past the byte offset `start`.
pub open spec fn rem_of(e: IndexEntry, start: int) -> Seq<u8> {
    e.path@.skip(start)
}

/// Every remainder is a well-formed relative path, and digests are 20 bytes.
pub open spec fn rems_wf(s: Seq<IndexEntry>, start: int) -> bool {
    forall|i: int|
        0 <= i < s.len() ==> start < (#[trigger] s[i]).path@.len() && path_wf(
            s[i].path@.skip(start),
        ) && s[i].sha@.len() == 20
}

/// Remainders strictly ascending: sorted, with no duplicate path.
pub open spec fn rems_sorted(s: Seq<IndexEntry>, start: int) -> bool {
    forall|i: int, j: int|
        0 <= i < j < s.len() ==> lex_lt(s[i].path@.skip(start), s[j].path@.skip(start))
}

/// `a` closed with a separator opens `b`: the file/directory name clash.
pub open spec fn dir_prefix_of(a: Seq<u8>, b: Seq<u8>) -> bool {
    a.len() + 1 <= b.len() && b.take(a.len() as int + 1) == a + seq![47u8]
}

/// No remainder is both a whole path and a directory of another.
pub open spec fn no_clash(s: Seq<IndexEntry>, start: int) -> bool {
    forall|i: int, j: int|
        0 <= i < s.len() && 0 <= j < s.len() ==> !dir_prefix_of(
            #[trigger] s[i].path@.skip(start),
            #[trigger] s[j].path@.skip(start),
        )
}

/// The longest remainder length: bounds both recursion depth and fuel.
pub open spec fn max_rem_len(s: Seq<IndexEntry>, start: int) -> nat
    decreases s.len(),
{
    if s.len() == 0 {
        0
    } else {
        let m0 = max_rem_len(s.drop_last(), start);
        let l: nat = if s.last().path@.len() >= start {
            (s.last().path@.len() - start) as nat
        } else {
            0
        };
        if l > m0 {
            l
        } else {
            m0
        }
    }
}

pub proof fn lemma_max_rem_len_ge(s: Seq<IndexEntry>, start: int, i: int)
    requires
        0 <= i < s.len(),
        start <= s[i].path@.len(),
    ensures
        s[i].path@.len() - start <= max_rem_len(s, start),
    decreases s.len(),
{
    if i < s.len() - 1 {
        assert(s.drop_last()[i] == s[i]);
        lemma_max_rem_len_ge(s.drop_last(), start, i);
    }
}

pub proof fn lemma_max_rem_len_le(s: Seq<IndexEntry>, start: int, bound: nat)
    requires
        forall|i: int|
            0 <= i < s.len() ==> (#[trigger] s[i]).path@.len() - start <= bound,
    ensures
        max_rem_len(s, start) <= bound,
    decreases s.len(),
{
    if s.len() > 0 {
        assert(forall|i: int|
            0 <= i < s.len() - 1 ==> (#[trigger] s.drop_last()[i]).path@.len() - start <= bound);
        lemma_max_rem_len_le(s.drop_last(), start, bound);
    }
}

/// Every staged digest is in the store, under a well-framed object.
pub open spec fn blobs_present(s: Seq<IndexEntry>, m: Map<Seq<u8>, Seq<u8>>) -> bool {
    forall|i: int|
        0 <= i < s.len() ==> m.contains_key((#[trigger] s[i]).sha@) && payload_after_nul(
            m[s[i].sha@],
        ) is Some
}

/// What restoring the tree of `s` under `dir` must hand back: one file per
/// entry, in entry order, holding the staged blob's payload.
pub open spec fn expected_files(
    s: Seq<IndexEntry>,
    start: int,
    dir: Seq<u8>,
    m: Map<Seq<u8>, Seq<u8>>,
) -> Seq<(Seq<u8>, Seq<u8>)> {
    Seq::new(s.len(), |i: int| (dir + s[i].path@.skip(start), payload_after_nul(m[s[i].sha@])->0))
}

pub proof fn lemma_blobs_present_mono(
    s: Seq<IndexEntry>,
    m1: Map<Seq<u8>, Seq<u8>>,
    m2: Map<Seq<u8>, Seq<u8>>,
)
    requires
        blobs_present(s, m1),
        m1.submap_of(m2),
    ensures
        blobs_present(s, m2),
        forall|start: int, dir: Seq<u8>|
            expected_files(s, start, dir, m1) =~= expected_files(s, start, dir, m2),
{
    assert forall|i: int| 0 <= i < s.len() implies m2.contains_key((#[trigger] s[i]).sha@)
        && payload_after_nul(m2[s[i].sha@]) is Some by {
        lemma_submap_val(m1, m2, s[i].sha@);
    }
    assert forall|start: int, dir: Seq<u8>|
        expected_files(s, start, dir, m1) =~= expected_files(s, start, dir, m2) by {
        assert forall|i: int| 0 <= i < s.len() implies expected_files(s, start, dir, m1)[i]
            == expected_files(s, start, dir, m2)[i] by {
            assert(m1.contains_key(s[i].sha@));
            lemma_submap_val(m1, m2, s[i].sha@);
        }
    }
}

/// The model of the run list the builder accumulates.
pub open spec fn te_models(s: Seq<(bool, Vec<u8>, Vec<u8>)>) -> Seq<(bool, Seq<u8>, Seq<u8>)> {
    s.map_values(|t: (bool, Vec<u8>, Vec<u8>)| (t.0, t.1@, t.2@))
}

/// End of the first path segment at or past `start`: the next separator, or
/// the end of the path.
pub open spec fn seg_end(p: Seq<u8>, start: int) -> int {
    match find_byte(p.skip(start), 47) {
        Some(k) => start + k,
        None => p.len() as int,
    }
}

fn seg_end_exec(p: &[u8], start: usize) -> (r: usize)
    requires
        start <= p@.len(),
    ensures
        r == seg_end(p@, start as int),
        start <= r <= p@.len(),
        r < p@.len() ==> p@[r as int] == 47,
        forall|k: int| start <= k < r ==> p@[k] != 47,
{
    let sl = slice_subrange(p, start, p.len());
    proof {
        lemma_find_byte_props(sl@, 47);
    }
    match find_byte_exec(sl, 47) {
        Some(k) => {
            proof {
                assert(forall|t: int| 0 <= t < sl@.len() ==> sl@[t] == p@[start + t]);
                assert forall|q: int| start <= q < start + k implies p@[q] != 47 by {
                    assert(p@[q] == sl@[q - start]);
                }
            }
            start + k
        },
        None => {
            proof {
                assert(forall|t: int| 0 <= t < sl@.len() ==> sl@[t] == p@[start + t]);
                assert forall|q: int| start <= q < p@.len() implies p@[q] != 47 by {
                    assert(p@[q] == sl@[q - start]);
                }
            }
            p.len()
        },
    }
}

/// Serializes the accumulated runs into one tree payload.
fn serialize_tes(tes: &Vec<(bool, Vec<u8>, Vec<u8>)>) -> (r: Vec<u8>)
    ensures
        r@ == tree_payload(te_models(tes@)),
{
    let mut out: Vec<u8> = Vec::new();
    let n = tes.len();
    let mut i: usize = 0;
    while i < n
        invariant
            n == tes@.len(),
            0 <= i <= n,
            out@ == tree_payload(te_models(tes@.take(i as int))),
        decreases n - i,
    {
        let te = &tes[i];
        if te.0 {
            out.push(48);
            out.push(52);
            out.push(48);
            out.push(48);
            out.push(48);
            out.push(48);
        } else {
            out.push(49);
            out.push(48);
            out.push(48);
            out.push(54);
            out.push(52);
            out.push(52);
        }
        out.push(32);
        out.extend_from_slice(te.1.as_slice());
        out.push(0);
        out.extend_from_slice(te.2.as_slice());
        proof {
            let l = te_models(tes@.take(i + 1));
            assert(l.len() > 0);
            lemma_tree_payload_snoc(l);
            assert(l.drop_last() =~= te_models(tes@.take(i as int)));
            assert(l.last() == (tes@[i as int].0, tes@[i as int].1@, tes@[i as int].2@));
            assert(out@ =~= tree_payload(te_models(tes@.take(i as int))) + te_bytes(
                l.last().0,
                l.last().1,
                l.last().2,
            ));
        }
        i += 1;
    }
    proof {
        assert(tes@.take(n as int) =~= tes@);
    }
    out
}



/// A reordered run list walks to the same files, as a set with counts.
proof fn lemma_walk_insert_run(
    m: Map<Seq<u8>, Seq<u8>>,
    l: Seq<(bool, Seq<u8>, Seq<u8>)>,
    r: (bool, Seq<u8>, Seq<u8>),
    dir: Seq<u8>,
    fuel: nat,
)
    requires
        walk_entries(m, l, dir, fuel) is Some,
        walk_entries(m, seq![r], dir, fuel) is Some,
    ensures
        walk_entries(m, insert_run(l, r), dir, fuel) matches Some(g) && g.to_multiset()
            == (walk_entries(m, l, dir, fuel)->0).to_multiset().add(
            (walk_entries(m, seq![r], dir, fuel)->0).to_multiset(),
        ),
    decreases l.len(),
{
    broadcast use vstd::multiset::group_multiset_axioms;

    let fl = walk_entries(m, l, dir, fuel)->0;
    let fr = walk_entries(m, seq![r], dir, fuel)->0;
    if l.len() == 0 {
        assert(insert_run(l, r) =~= seq![r]);
        assert(fl =~= Seq::<(Seq<u8>, Seq<u8>)>::empty());
        vstd::seq_lib::lemma_multiset_commutative(fl, fr);
        assert(fr.to_multiset() =~= fl.to_multiset().add(fr.to_multiset()));
    } else if lex_lt(l[0].1, r.1) {
        // peel the head run off both sides
        assert(l =~= seq![l[0]] + l.drop_first());
        lemma_walk_entries_concat(m, seq![l[0]], l.drop_first(), dir, fuel);
        let f0 = walk_entries(m, seq![l[0]], dir, fuel)->0;
        let frest = walk_entries(m, l.drop_first(), dir, fuel)->0;
        assert(fl == f0 + frest);
        lemma_walk_insert_run(m, l.drop_first(), r, dir, fuel);
        let g1 = walk_entries(m, insert_run(l.drop_first(), r), dir, fuel)->0;
        assert(insert_run(l, r) =~= seq![l[0]] + insert_run(l.drop_first(), r));
        lemma_walk_entries_concat(m, seq![l[0]], insert_run(l.drop_first(), r), dir, fuel);
        let g = walk_entries(m, insert_run(l, r), dir, fuel)->0;
        assert(g == f0 + g1);
        vstd::seq_lib::lemma_multiset_commutative(f0, g1);
        vstd::seq_lib::lemma_multiset_commutative(f0, frest);
        assert(g.to_multiset() =~= fl.to_multiset().add(fr.to_multiset()));
    } else {
        assert(insert_run(l, r) =~= seq![r] + l);
        lemma_walk_entries_concat(m, seq![r], l, dir, fuel);
        let g = walk_entries(m, insert_run(l, r), dir, fuel)->0;
        assert(g == fr + fl);
        vstd::seq_lib::lemma_multiset_commutative(fr, fl);
        assert(g.to_multiset() =~= fl.to_multiset().add(fr.to_multiset()));
    }
}

/// Sorting the runs of a tree leaves its walked file set unchanged.
proof fn lemma_walk_sort_runs(
    m: Map<Seq<u8>, Seq<u8>>,
    l: Seq<(bool, Seq<u8>, Seq<u8>)>,
    dir: Seq<u8>,
    fuel: nat,
)
    requires
        walk_entries(m, l, dir, fuel) is Some,
    ensures
        walk_entries(m, sort_runs(l), dir, fuel) matches Some(g) && g.to_multiset() == (
        walk_entries(m, l, dir, fuel)->0).to_multiset(),
    decreases l.len(),
{
    broadcast use vstd::multiset::group_multiset_axioms;

    let fl = walk_entries(m, l, dir, fuel)->0;
    if l.len() == 0 {
        assert(sort_runs(l) =~= l);
    } else {
        assert(l =~= seq![l.first()] + l.drop_first());
        lemma_walk_entries_concat(m, seq![l.first()], l.drop_first(), dir, fuel);
        let f0 = walk_entries(m, seq![l.first()], dir, fuel)->0;
        let frest = walk_entries(m, l.drop_first(), dir, fuel)->0;
        assert(fl == f0 + frest);
        lemma_walk_sort_runs(m, l.drop_first(), dir, fuel);
        lemma_walk_insert_run(m, sort_runs(l.drop_first()), l.first(), dir, fuel);
        let g = walk_entries(m, sort_runs(l), dir, fuel)->0;
        vstd::seq_lib::lemma_multiset_commutative(f0, frest);
        assert(g.to_multiset() =~= fl.to_multiset());
    }
}

/// The longest remainder length over models.
pub open spec fn max_rem_len_m(ms: Seq<(Seq<u8>, Seq<u8>, u16)>, start: int) -> nat
    decreases ms.len(),
{
    if ms.len() == 0 {
        0
    } else {
        let m0 = max_rem_len_m(ms.drop_last(), start);
        let l: nat = if ms.last().0.len() >= start {
            (ms.last().0.len() - start) as nat
        } else {
            0
        };
        if l > m0 {
            l
        } else {
            m0
        }
    }
}

pub proof fn lemma_max_rem_len_m_ge(ms: Seq<(Seq<u8>, Seq<u8>, u16)>, start: int, i: int)
    requires
        0 <= i < ms.len(),
        start <= ms[i].0.len(),
    ensures
        ms[i].0.len() - start <= max_rem_len_m(ms, start),
    decreases ms.len(),
{
    if i < ms.len() - 1 {
        assert(ms.drop_last()[i] == ms[i]);
        lemma_max_rem_len_m_ge(ms.drop_last(), start, i);
    }
}

pub proof fn lemma_max_rem_len_m_le(ms: Seq<(Seq<u8>, Seq<u8>, u16)>, start: int, bound: nat)
    requires
        forall|i: int| 0 <= i < ms.len() ==> (#[trigger] ms[i]).0.len() - start <= bound,
    ensures
        max_rem_len_m(ms, start) <= bound,
    decreases ms.len(),
{
    if ms.len() > 0 {
        assert(forall|i: int|
            0 <= i < ms.len() - 1 ==> (#[trigger] ms.drop_last()[i]).0.len() - start <= bound);
        lemma_max_rem_len_m_le(ms.drop_last(), start, bound);
    }
}

/// Every model remainder is a well-formed relative path.
pub open spec fn rems_wf_m(ms: Seq<(Seq<u8>, Seq<u8>, u16)>, start: int) -> bool {
    forall|i: int|
        0 <= i < ms.len() ==> start < (#[trigger] ms[i]).0.len() && path_wf(ms[i].0.skip(start))
}

/// An entry belongs to the run under `seg` when its remainder continues past
/// the segment with a separator.
pub open spec fn run_member(m: (Seq<u8>, Seq<u8>, u16), start: int, seg: Seq<u8>) -> bool {
    let r = m.0.skip(start);
    r.len() > seg.len() && r.take(seg.len() as int) == seg && r[seg.len() as int] == 47
}

/// How far the leading run under `seg` reaches, scanning from `from`.
pub open spec fn run_extent(
    ms: Seq<(Seq<u8>, Seq<u8>, u16)>,
    start: int,
    seg: Seq<u8>,
    from: int,
) -> int
    decreases ms.len() - from,
    when 0 <= from <= ms.len()
{
    if from >= ms.len() {
        ms.len() as int
    } else if run_member(ms[from], start, seg) {
        run_extent(ms, start, seg, from + 1)
    } else {
        from
    }
}

proof fn lemma_run_extent_det(
    ms: Seq<(Seq<u8>, Seq<u8>, u16)>,
    start: int,
    seg: Seq<u8>,
    from: int,
    j: int,
)
    requires
        0 <= from <= j <= ms.len(),
        forall|k: int| from <= k < j ==> run_member(#[trigger] ms[k], start, seg),
        j < ms.len() ==> !run_member(ms[j], start, seg),
    ensures
        run_extent(ms, start, seg, from) == j,
    decreases j - from,
{
    if from < j {
        assert(run_member(ms[from], start, seg));
        lemma_run_extent_det(ms, start, seg, from + 1, j);
    }
}

/// Places one run into a name-sorted run list, before the first run whose
/// name is not smaller.
pub open spec fn insert_run(
    l: Seq<(bool, Seq<u8>, Seq<u8>)>,
    r: (bool, Seq<u8>, Seq<u8>),
) -> Seq<(bool, Seq<u8>, Seq<u8>)>
    decreases l.len(),
{
    if l.len() == 0 {
        seq![r]
    } else if lex_lt(l[0].1, r.1) {
        seq![l[0]] + insert_run(l.drop_first(), r)
    } else {
        seq![r] + l
    }
}

/// Orders a run list by ascending name.
pub open spec fn sort_runs(l: Seq<(bool, Seq<u8>, Seq<u8>)>) -> Seq<(bool, Seq<u8>, Seq<u8>)>
    decreases l.len(),
{
    if l.len() == 0 {
        Seq::empty()
    } else {
        insert_run(sort_runs(l.drop_first()), l.first())
    }
}

/// The grouped runs of a sorted index's models, read from byte offset
/// `start`, in the order their groups occur in the index: one run per
/// leading path segment; a run is a directory exactly when some member's
/// remainder continues past the segment, and a directory run's digest is
/// the digest of the subtree built from its members one level down - with
/// that subtree's runs ordered by name, as every stored tree's are.
pub open spec fn scan_runs(ms: Seq<(Seq<u8>, Seq<u8>, u16)>, start: int) -> Seq<(
    bool,
    Seq<u8>,
    Seq<u8>,
)>
    decreases max_rem_len_m(ms, start), ms.len(),
    when 0 <= start && rems_wf_m(ms, start)
    via scan_runs_decreases
{
    if ms.len() == 0 {
        Seq::empty()
    } else {
        let p0 = ms[0].0;
        let e = seg_end(p0, start);
        if e == p0.len() {
            seq![(false, p0.skip(start), ms[0].1)] + scan_runs(
                ms.subrange(1, ms.len() as int),
                start,
            )
        } else {
            let seg = p0.skip(start).take(e - start);
            let j = run_extent(ms, start, seg, 0);
            let child = sort_runs(scan_runs(ms.subrange(0, j), start + seg.len() + 1));
            seq![
                (true, seg, sha1_of(frame_of(ObjType::Tree, tree_payload(child)))),
            ] + scan_runs(ms.subrange(j, ms.len() as int), start)
        }
    }
}

/// The runs a stored tree holds, in ascending name order: the payload the
/// tree builder stores, run for run.
pub open spec fn tree_runs(ms: Seq<(Seq<u8>, Seq<u8>, u16)>, start: int) -> Seq<(
    bool,
    Seq<u8>,
    Seq<u8>,
)> {
    sort_runs(scan_runs(ms, start))
}

/// The sorted run list keeps exactly the scanned runs.
pub proof fn lemma_sort_runs_multiset(l: Seq<(bool, Seq<u8>, Seq<u8>)>)
    ensures
        sort_runs(l).to_multiset() == l.to_multiset(),
    decreases l.len(),
{
    broadcast use vstd::seq_lib::group_to_multiset_ensures;
    broadcast use vstd::multiset::group_multiset_axioms;

    if l.len() > 0 {
        lemma_sort_runs_multiset(l.drop_first());
        lemma_insert_run_multiset(sort_runs(l.drop_first()), l.first());
        assert(l =~= seq![l.first()] + l.drop_first());
        vstd::seq_lib::lemma_multiset_commutative(seq![l.first()], l.drop_first());
        assert(seq![l.first()].to_multiset() =~= Multiset::empty().insert(l.first()));
        assert forall|x: (bool, Seq<u8>, Seq<u8>)|
            sort_runs(l).to_multiset().count(x) == l.to_multiset().count(x) by {
        }
        assert(sort_runs(l).to_multiset() =~= l.to_multiset());
    }
}

proof fn lemma_insert_run_multiset(l: Seq<(bool, Seq<u8>, Seq<u8>)>, r: (bool, Seq<u8>, Seq<u8>))
    ensures
        insert_run(l, r).to_multiset() == l.to_multiset().insert(r),
    decreases l.len(),
{
    broadcast use vstd::seq_lib::group_to_multiset_ensures;
    broadcast use vstd::multiset::group_multiset_axioms;

    if l.len() == 0 {
        assert(insert_run(l, r) =~= Seq::<(bool, Seq<u8>, Seq<u8>)>::empty().push(r));
        assert(insert_run(l, r).to_multiset() =~= l.to_multiset().insert(r));
    } else if lex_lt(l[0].1, r.1) {
        lemma_insert_run_multiset(l.drop_first(), r);
        vstd::seq_lib::lemma_multiset_commutative(seq![l[0]], insert_run(l.drop_first(), r));
        vstd::seq_lib::lemma_multiset_commutative(seq![l[0]], l.drop_first());
        assert(l =~= seq![l[0]] + l.drop_first());
        assert(seq![l[0]].to_multiset() =~= Multiset::empty().insert(l[0]));
        assert(insert_run(l, r).to_multiset() =~= l.to_multiset().insert(r));
    } else {
        vstd::seq_lib::lemma_multiset_commutative(seq![r], l);
        assert(seq![r].to_multiset() =~= Multiset::empty().insert(r));
        assert(insert_run(l, r).to_multiset() =~= l.to_multiset().insert(r));
    }
}

/// What sorting promises: the runs of every stored tree come out in
/// ascending name order.
pub proof fn lemma_sort_runs_sorted(l: Seq<(bool, Seq<u8>, Seq<u8>)>)
    ensures
        forall|i: int, j: int|
            0 <= i < j < sort_runs(l).len() ==> crate::byteops::lex_le(
                (#[trigger] sort_runs(l)[i]).1,
                (#[trigger] sort_runs(l)[j]).1,
            ),
    decreases l.len(),
{
    if l.len() > 0 {
        lemma_sort_runs_sorted(l.drop_first());
        lemma_insert_run_sorted(sort_runs(l.drop_first()), l.first());
    }
}

proof fn lemma_insert_run_sorted(l: Seq<(bool, Seq<u8>, Seq<u8>)>, r: (bool, Seq<u8>, Seq<u8>))
    requires
        forall|i: int, j: int|
            0 <= i < j < l.len() ==> crate::byteops::lex_le((#[trigger] l[i]).1, (#[trigger] l[j]).1),
    ensures
        forall|i: int, j: int|
            0 <= i < j < insert_run(l, r).len() ==> crate::byteops::lex_le(
                (#[trigger] insert_run(l, r)[i]).1,
                (#[trigger] insert_run(l, r)[j]).1,
            ),
    decreases l.len(),
{
    if l.len() == 0 {
    } else if lex_lt(l[0].1, r.1) {
        assert(forall|i: int, j: int|
            0 <= i < j < l.drop_first().len() ==> crate::byteops::lex_le(
                (#[trigger] l.drop_first()[i]).1,
                (#[trigger] l.drop_first()[j]).1,
            ));
        lemma_insert_run_sorted(l.drop_first(), r);
        let out = insert_run(l, r);
        let tail = insert_run(l.drop_first(), r);
        assert forall|i: int, j: int| 0 <= i < j < out.len() implies crate::byteops::lex_le(
            (#[trigger] out[i]).1,
            (#[trigger] out[j]).1,
        ) by {
            if i == 0 {
                // the head is below everything inserted behind it
                assert(out[j] == tail[j - 1]);
                lemma_insert_run_elems(l.drop_first(), r, j - 1);
                if tail[j - 1] == r {
                    assert(crate::byteops::lex_le(l[0].1, r.1));
                } else {
                    let k = choose|k: int|
                        0 <= k < l.drop_first().len() && l.drop_first()[k] == tail[j - 1];
                    assert(crate::byteops::lex_le(l[0].1, l[k + 1].1));
                }
            } else {
                assert(out[i] == tail[i - 1] && out[j] == tail[j - 1]);
            }
        }
    } else {
        let out = insert_run(l, r);
        crate::byteops::lemma_lex_lt_connected(l[0].1, r.1);
        assert forall|i: int, j: int| 0 <= i < j < out.len() implies crate::byteops::lex_le(
            (#[trigger] out[i]).1,
            (#[trigger] out[j]).1,
        ) by {
            if i == 0 {
                assert(out[0] == r && out[j] == l[j - 1]);
                if j >= 2 {
                    assert(crate::byteops::lex_le(l[0].1, l[j - 1].1));
                    if lex_lt(l[0].1, l[j - 1].1) {
                        if lex_lt(r.1, l[0].1) {
                            crate::byteops::lemma_lex_lt_transitive(r.1, l[0].1, l[j - 1].1);
                        }
                    }
                }
            } else {
                assert(out[i] == l[i - 1] && out[j] == l[j - 1]);
            }
        }
    }
}

/// Every run an insertion produces is the inserted run or one of the old.
proof fn lemma_insert_run_elems(l: Seq<(bool, Seq<u8>, Seq<u8>)>, r: (bool, Seq<u8>, Seq<u8>), t: int)
    requires
        0 <= t < insert_run(l, r).len(),
    ensures
        insert_run(l, r)[t] == r || exists|k: int| 0 <= k < l.len() && l[k] == insert_run(l, r)[t],
    decreases l.len(),
{
    if l.len() == 0 {
    } else if lex_lt(l[0].1, r.1) {
        if t == 0 {
            assert(insert_run(l, r)[0] == l[0]);
        } else {
            lemma_insert_run_elems(l.drop_first(), r, t - 1);
            assert(insert_run(l, r)[t] == insert_run(l.drop_first(), r)[t - 1]);
            if insert_run(l.drop_first(), r)[t - 1] != r {
                let k = choose|k: int|
                    0 <= k < l.drop_first().len() && l.drop_first()[k] == insert_run(
                        l.drop_first(),
                        r,
                    )[t - 1];
                assert(l[k + 1] == insert_run(l, r)[t]);
            }
        }
    } else {
        if t > 0 {
            assert(insert_run(l, r)[t] == l[t - 1]);
        }
    }
}

/// The facts the run scan guarantees about its extent.
proof fn lemma_run_extent_props(ms: Seq<(Seq<u8>, Seq<u8>, u16)>, start: int, seg: Seq<u8>, from: int)
    requires
        0 <= from <= ms.len(),
    ensures
        from <= run_extent(ms, start, seg, from) <= ms.len(),
        forall|k: int|
            from <= k < run_extent(ms, start, seg, from) ==> run_member(
                #[trigger] ms[k],
                start,
                seg,
            ),
    decreases ms.len() - from,
{
    if from < ms.len() && run_member(ms[from], start, seg) {
        lemma_run_extent_props(ms, start, seg, from + 1);
    }
}

/// A well-formed remainder run stays well-formed one level down.
proof fn lemma_members_wf(ms: Seq<(Seq<u8>, Seq<u8>, u16)>, start: int, seg: Seq<u8>, j: int)
    requires
        0 <= start,
        rems_wf_m(ms, start),
        seg.len() >= 1,
        0 <= j <= ms.len(),
        forall|k: int| 0 <= k < j ==> run_member(#[trigger] ms[k], start, seg),
    ensures
        rems_wf_m(ms.subrange(0, j), start + seg.len() + 1),
        forall|k: int|
            0 <= k < j ==> (#[trigger] ms[k]).0.len() - (start + seg.len() + 1) >= 1,
{
    let cs = start + seg.len() as int + 1;
    assert forall|t: int| 0 <= t < j implies cs < (#[trigger] ms.subrange(0, j)[t]).0.len()
        && path_wf(ms.subrange(0, j)[t].0.skip(cs)) by {
        let slen = seg.len() as int;
        let rk = ms[t].0.skip(start);
        assert(path_wf(rk));
        assert(rk.len() == ms[t].0.len() - start);
        assert(rk[slen] == 47);
        assert(rk.len() > slen);
        if rk.len() == slen + 1 {
            assert(rk[rk.len() - 1] == 47);
            assert(false);
        }
        lemma_path_suffix_wf(rk, slen);
        assert(ms[t].0.skip(cs) =~= rk.skip(slen + 1));
    }
    assert forall|k: int| 0 <= k < j implies (#[trigger] ms[k]).0.len() - (start + seg.len() + 1)
        >= 1 by {
        assert(cs < ms.subrange(0, j)[k].0.len());
    }
}

#[via_fn]
proof fn scan_runs_decreases(ms: Seq<(Seq<u8>, Seq<u8>, u16)>, start: int) {
    if ms.len() > 0 {
        let p0 = ms[0].0;
        let r0 = p0.skip(start);
        assert(path_wf(r0));
        lemma_find_byte_props(r0, 47);
        let e = seg_end(p0, start);
        assert(start <= e <= p0.len());
        assert(e > start) by {
            assert(r0[0] != 47);
        }
        if e == p0.len() {
            let sub = ms.subrange(1, ms.len() as int);
            assert forall|t: int| 0 <= t < sub.len() implies (#[trigger] sub[t]).0.len() - start
                <= max_rem_len_m(ms, start) by {
                assert(sub[t] == ms[t + 1]);
                lemma_max_rem_len_m_ge(ms, start, t + 1);
            }
            lemma_max_rem_len_m_le(sub, start, max_rem_len_m(ms, start));
        } else {
            let seg = r0.take(e - start);
            assert(seg.len() >= 1);
            let j = run_extent(ms, start, seg, 0);
            lemma_run_extent_props(ms, start, seg, 0);
            assert(run_member(ms[0], start, seg)) by {
                assert(r0[e - start] == p0[e]);
                assert(r0.take(seg.len() as int) =~= seg);
            }
            assert(run_extent(ms, start, seg, 0) == run_extent(ms, start, seg, 1));
            lemma_run_extent_props(ms, start, seg, 1);
            assert(j >= 1);
            lemma_members_wf(ms, start, seg, j);
            // the members, one level down, are strictly shorter
            let sub = ms.subrange(0, j);
            let cs = start + seg.len() as int + 1;
            assert forall|t: int| 0 <= t < sub.len() implies (#[trigger] sub[t]).0.len() - cs
                <= max_rem_len_m(ms, start) - seg.len() - 1 by {
                assert(sub[t] == ms[t]);
                lemma_max_rem_len_m_ge(ms, start, t);
            }
            lemma_max_rem_len_m_le(sub, cs, (max_rem_len_m(ms, start) - seg.len() - 1) as nat);
            assert(max_rem_len_m(ms, start) >= seg.len() + 2) by {
                assert(run_member(ms[0], start, seg));
                assert(r0.len() > seg.len());
                if r0.len() == seg.len() + 1 {
                    assert(r0[r0.len() - 1] == 47);
                    assert(false);
                }
                lemma_max_rem_len_m_ge(ms, start, 0);
            }
            // the rest of the list keeps the bound and shrinks
            let rest = ms.subrange(j, ms.len() as int);
            assert forall|t: int| 0 <= t < rest.len() implies (#[trigger] rest[t]).0.len() - start
                <= max_rem_len_m(ms, start) by {
                assert(rest[t] == ms[t + j]);
                lemma_max_rem_len_m_ge(ms, start, t + j);
            }
            lemma_max_rem_len_m_le(rest, start, max_rem_len_m(ms, start));
            assert(rems_wf_m(sub, cs));
            assert forall|t: int| 0 <= t < rest.len() implies start < (
            #[trigger] rest[t]).0.len() && path_wf(rest[t].0.skip(start)) by {
                assert(rest[t] == ms[t + j]);
            }
            assert forall|t: int| 0 <= t < ms.subrange(1, ms.len() as int).len() implies start < (
            #[trigger] ms.subrange(1, ms.len() as int)[t]).0.len() && path_wf(
                ms.subrange(1, ms.len() as int)[t].0.skip(start),
            ) by {
                assert(ms.subrange(1, ms.len() as int)[t] == ms[t + 1]);
            }
        }
    }
}

/// Walking one digest with enough fuel hands back exactly these files: the
/// same set, each path once with its staged bytes, in the tree's own
/// name-ordered traversal.
pub open spec fn walk_gives(
    m: Map<Seq<u8>, Seq<u8>>,
    h: Seq<u8>,
    maxrem: nat,
    start: int,
    entries: Seq<IndexEntry>,
    m0: Map<Seq<u8>, Seq<u8>>,
) -> bool {
    forall|fuel: nat, dir: Seq<u8>|
        fuel > maxrem ==> (#[trigger] walk(m, h, dir, fuel) matches Some(f) && f.to_multiset()
            == expected_files(entries, start, dir, m0).to_multiset())
}

/// Folds sorted, clash-free index entries (their paths read from byte offset
/// `start` on) into one stored tree object, depth first, and hands back the
/// tree's digest. The stored graph walks back to exactly the staged files:
/// the round trip of building and restoring is the identity on the file
/// list, whenever the staged blobs are in the store.
#[verifier::rlimit(100)]
pub fn build_tree_at(store: &mut ObjectStore, entries: &[IndexEntry], start: usize) -> (r: Result<
    Vec<u8>,
    ItError,
>)
    requires
        old(store).wf(),
        entries@.len() >= 1,
        rems_wf(entries@, start as int),
        rems_sorted(entries@, start as int),
        no_clash(entries@, start as int),
    ensures
        final(store).wf(),
        old(store)@.submap_of(final(store)@),
        match r {
            Ok(h) => {
                &&& h@.len() == 20
                &&& final(store)@.contains_key(h@)
                &&& h@ == sha1_of(frame_of(
                    ObjType::Tree,
                    tree_payload(tree_runs(crate::index::models(entries@), start as int)),
                ))
                &&& final(store)@[h@] == frame_of(
                    ObjType::Tree,
                    tree_payload(tree_runs(crate::index::models(entries@), start as int)),
                )
                &&& (blobs_present(entries@, old(store)@) ==> walk_gives(
                    final(store)@,
                    h@,
                    max_rem_len(entries@, start as int),
                    start as int,
                    entries@,
                    old(store)@,
                ))
            },
            Err(e) => e == ItError::HashCollision && crate::store::digest_collision(
                final(store)@,
            ),
        },
    decreases max_rem_len(entries@, start as int),
{
    let ghost m0 = old(store)@;
    let ghost mse = crate::index::models(entries@);
    proof {
        assert forall|k: int| 0 <= k < mse.len() implies (start as int) < (
        #[trigger] mse[k]).0.len() && path_wf(mse[k].0.skip(start as int)) by {
            assert(mse[k] == crate::index::model(entries@[k]));
        }
        assert(rems_wf_m(mse, start as int));
        assert(mse.subrange(0, entries@.len() as int) =~= mse);
        assert(Seq::<(bool, Seq<u8>, Seq<u8>)>::empty() + scan_runs(mse, start as int)
            =~= scan_runs(mse, start as int));
        assert forall|f: nat, dir: Seq<u8>| f >= max_rem_len(entries@, start as int) implies (
        #[trigger] walk_entries(
            old(store)@,
            Seq::<(bool, Seq<u8>, Seq<u8>)>::empty(),
            dir,
            f,
        ) matches Some(ff) && ff.to_multiset() == expected_files(
            entries@.take(0int),
            start as int,
            dir,
            old(store)@,
        ).to_multiset()) by {
            assert(expected_files(entries@.take(0int), start as int, dir, old(store)@)
                =~= Seq::<(Seq<u8>, Seq<u8>)>::empty());
        }
    }
    let ghost maxrem = max_rem_len(entries@, start as int);
    let n = entries.len();
    let mut tes: Vec<(bool, Vec<u8>, Vec<u8>)> = Vec::new();
    let mut i: usize = 0;
    proof {
        assert(te_models(tes@) =~= Seq::<(bool, Seq<u8>, Seq<u8>)>::empty());
    }
    while i < n
        invariant
            store.wf(),
            m0.submap_of(store@),
            m0 == old(store)@,
            n == entries@.len(),
            0 <= i <= n,
            maxrem == max_rem_len(entries@, start as int),
            rems_wf(entries@, start as int),
            rems_sorted(entries@, start as int),
            no_clash(entries@, start as int),
            tes_wf(te_models(tes@)),
            mse == crate::index::models(entries@),
            rems_wf_m(mse, start as int),
            scan_runs(mse, start as int) == te_models(tes@) + scan_runs(
                mse.subrange(i as int, n as int),
                start as int,
            ),
            blobs_present(entries@, m0) ==> forall|f: nat, dir: Seq<u8>|
                f >= maxrem ==> (#[trigger] walk_entries(store@, te_models(tes@), dir, f)
                    matches Some(ff) && ff.to_multiset() == expected_files(
                    entries@.take(i as int),
                    start as int,
                    dir,
                    m0,
                ).to_multiset()),
        decreases n - i,
    {
        let ghost store_pre = store@;
        let ghost tes_pre = te_models(tes@);
        let e = vstd::slice::slice_index_get(entries, i);
        let plen = e.path.len();
        proof {
            assert(rems_wf(entries@, start as int));
            assert(start < entries@[i as int].path@.len());
            lemma_max_rem_len_ge(entries@, start as int, i as int);
        }
        let s_end = seg_end_exec(e.path.as_slice(), start);
        let ghost remi = entries@[i as int].path@.skip(start as int);
        proof {
            assert(path_wf(remi));
            assert(remi[0] != 47);
            assert(remi[0] == entries@[i as int].path@[start as int]);
            assert(s_end > start);
        }
        if s_end == plen {
            // a file: the whole remainder is the name
            let name = slice_to_vec(slice_subrange(e.path.as_slice(), start, plen));
            let sha = crate::index::clone_bytes(&e.sha);
            proof {
                assert(name@ =~= remi);
            }
            tes.push((false, name, sha));
            proof {
                assert(te_models(tes@) =~= tes_pre.push(
                    (false, remi, entries@[i as int].sha@),
                ));
                assert(tes_wf(te_models(tes@)));
                assert(mse[i as int] == crate::index::model(entries@[i as int]));
                assert(seg_end(mse[i as int].0, start as int) == s_end);
                lemma_tree_runs_file_step(mse, start as int, i as int, n as int);
                let single_run = seq![(false, remi, entries@[i as int].sha@)];
                assert(seq![(false, mse[i as int].0.skip(start as int), mse[i as int].1)]
                    =~= single_run);
                assert(tes_pre + (single_run + scan_runs(mse.subrange(i + 1, n as int),
                    start as int)) =~= (tes_pre + single_run) + scan_runs(
                    mse.subrange(i + 1, n as int),
                    start as int,
                ));
                assert(te_models(tes@) =~= tes_pre + single_run);
                if blobs_present(entries@, m0) {
                    assert forall|f: nat, dir: Seq<u8>| f >= maxrem implies (
                    #[trigger] walk_entries(store@, te_models(tes@), dir, f) matches Some(ff)
                        && ff.to_multiset() == expected_files(
                        entries@.take(i + 1),
                        start as int,
                        dir,
                        m0,
                    ).to_multiset()) by {
                        broadcast use vstd::multiset::group_multiset_axioms;

                        let single = seq![(false, remi, entries@[i as int].sha@)];
                        assert(te_models(tes@) =~= tes_pre + single);
                        lemma_walk_entries_concat(store@, tes_pre, single, dir, f);
                        assert(m0.contains_key(entries@[i as int].sha@));
                        lemma_submap_val(m0, store@, entries@[i as int].sha@);
                        let content = payload_after_nul(m0[entries@[i as int].sha@])->0;
                        assert(single.len() == 1);
                        assert(single.first() == (false, remi, entries@[i as int].sha@));
                        assert(single.drop_first() =~= Seq::<(bool, Seq<u8>, Seq<u8>)>::empty());
                        assert(walk_entries(store@, single.drop_first(), dir, f) == Some(
                            Seq::<(Seq<u8>, Seq<u8>)>::empty(),
                        ));
                        assert(store@.contains_key(single.first().2));
                        assert(payload_after_nul(store@[single.first().2]) == Some(
                            payload_after_nul(m0[entries@[i as int].sha@])->0,
                        )) by {
                            assert(payload_after_nul(m0[entries@[i as int].sha@]) is Some);
                        }
                        assert(walk_entries(store@, single, dir, f) == Some(
                            seq![(dir + remi, content)] + Seq::<(Seq<u8>, Seq<u8>)>::empty(),
                        ));
                        let fpre = walk_entries(store@, tes_pre, dir, f)->0;
                        let fsingle = seq![(dir + remi, content)] + Seq::<(
                            Seq<u8>,
                            Seq<u8>,
                        )>::empty();
                        let epre = expected_files(entries@.take(i as int), start as int, dir, m0);
                        assert(expected_files(entries@.take(i + 1), start as int, dir, m0)
                            =~= epre + fsingle);
                        vstd::seq_lib::lemma_multiset_commutative(fpre, fsingle);
                        vstd::seq_lib::lemma_multiset_commutative(epre, fsingle);
                        assert((fpre + fsingle).to_multiset() =~= expected_files(
                            entries@.take(i + 1),
                            start as int,
                            dir,
                            m0,
                        ).to_multiset());
                    }
                }
            }
            i += 1;
        } else {
            // a directory: gather the run of entries under this segment
            let seg = slice_to_vec(slice_subrange(e.path.as_slice(), start, s_end));
            let ghost segs = seg@;
            let ghost slen = s_end - start;
            proof {
                assert(segs =~= remi.take(slen as int));
                assert(remi[slen as int] == 47);
            }
            let mut j = i + 1;
            let mut scanning = true;
            while scanning
                invariant
                    n == entries@.len(),
                    i < j <= n,
                    start < s_end,
                    s_end < entries@[i as int].path@.len(),
                    rems_wf(entries@, start as int),
                    mse == crate::index::models(entries@),
                    slen == s_end - start,
                    segs == seg@,
                    segs.len() == slen,
                    forall|k: int|
                        i <= k < j ==> {
                            let rk = (#[trigger] entries@[k]).path@.skip(start as int);
                            rk.len() > slen && rk.take(slen as int) == segs && rk[slen as int]
                                == 47
                        },
                    !scanning ==> j == n || !run_member(mse[j as int], start as int, segs),
                decreases n - j, (if scanning { 1int } else { 0int }),
            {
                if j == n {
                    scanning = false;
                } else {
                    let p = vstd::slice::slice_index_get(entries, j);
                    proof {
                        assert(start < entries@[j as int].path@.len());
                        assert(mse[j as int] == crate::index::model(entries@[j as int]));
                    }
                    let ghost rk = entries@[j as int].path@.skip(start as int);
                    let pl = p.path.len();
                    let mut member = false;
                    if pl > s_end {
                        let pre = slice_subrange(p.path.as_slice(), start, s_end);
                        proof {
                            assert forall|t: int| 0 <= t < slen implies rk.take(slen as int)[t]
                                == pre@[t] by {
                                assert(rk[t] == entries@[j as int].path@[start + t]);
                            }
                            assert(rk.take(slen as int) =~= pre@);
                        }
                        if bytes_eq(pre, seg.as_slice()) {
                            let c = *vstd::slice::slice_index_get(p.path.as_slice(), s_end);
                            if c == 47 {
                                member = true;
                                proof {
                                    assert(rk.len() == entries@[j as int].path@.len() - start);
                                    assert(rk.len() > slen);
                                    assert(pre@ == segs);
                                    assert(rk[slen as int] == entries@[j as int].path@[
                                        s_end as int
                                    ]);
                                }
                            } else {
                                proof {
                                    assert(rk[slen as int] == entries@[j as int].path@[
                                        s_end as int
                                    ]);
                                    assert(!run_member(mse[j as int], start as int, segs));
                                }
                            }
                        } else {
                            proof {
                                assert(rk.take(slen as int) != segs);
                                assert(!run_member(mse[j as int], start as int, segs));
                            }
                        }
                    } else {
                        proof {
                            assert(rk.len() <= slen);
                            assert(!run_member(mse[j as int], start as int, segs));
                        }
                    }
                    if member {
                        j += 1;
                    } else {
                        scanning = false;
                    }
                }
            }
            // recurse on the run, past the segment and its separator
            let sub = slice_subrange(entries, i, j);
            let child_start = s_end + 1;
            proof {
                lemma_child_requires(entries@, start as int, i as int, j as int, slen as int, segs);
                assert(sub@ =~= entries@.subrange(i as int, j as int));
                assert(rems_wf(sub@, child_start as int));
                assert forall|t: int| 0 <= t < sub@.len() implies exists|k: int|
                    0 <= k < entries@.len() && (#[trigger] sub@[t]) == entries@[k] && start as int
                    <= entries@[k].path@.len() by {
                    assert(sub@[t] == entries@[i + t]);
                }
                lemma_max_rem_len_child(
                    entries@,
                    sub@,
                    start as int,
                    child_start as int,
                    slen as int,
                );
            }
            let ch = match build_tree_at(store, sub, child_start) {
                Ok(h) => h,
                Err(er) => {
                    proof {
                        vstd::map_lib::lemma_submap_of_trans(m0, store_pre, store@);
                    }
                    return Err(er);
                },
            };
            proof {
                vstd::map_lib::lemma_submap_of_trans(m0, store_pre, store@);
            }
            tes.push((true, seg, ch));
            proof {
                assert(te_models(tes@) =~= tes_pre.push((true, segs, ch@)));
                assert(tes_wf(te_models(tes@)));
                assert(mse[i as int] == crate::index::model(entries@[i as int]));
                assert(seg_end(mse[i as int].0, start as int) == s_end);
                assert(mse[i as int].0.skip(start as int).take(s_end - start as int) =~= segs);
                assert forall|k: int| i <= k < j implies run_member(
                    #[trigger] mse[k],
                    start as int,
                    segs,
                ) by {
                    assert(mse[k] == crate::index::model(entries@[k]));
                    let rk = entries@[k].path@.skip(start as int);
                    assert(rk.len() > slen && rk.take(slen as int) == segs && rk[slen as int]
                        == 47);
                }
                lemma_tree_runs_dir_step(
                    mse,
                    start as int,
                    i as int,
                    j as int,
                    n as int,
                    segs,
                );
                let cs = start as int + slen + 1;
                assert(mse.subrange(i as int, j as int) =~= crate::index::models(sub@)) by {
                    assert forall|t: int| 0 <= t < j - i implies mse.subrange(
                        i as int,
                        j as int,
                    )[t] == crate::index::models(sub@)[t] by {
                        assert(mse[i + t] == crate::index::model(entries@[i + t]));
                        assert(sub@[t] == entries@[i + t]);
                        assert(crate::index::models(sub@)[t] == crate::index::model(sub@[t]));
                    }
                }
                let single_run = seq![
                    (
                        true,
                        segs,
                        sha1_of(frame_of(
                            ObjType::Tree,
                            tree_payload(tree_runs(crate::index::models(sub@), cs)),
                        )),
                    ),
                ];
                assert(ch@ == sha1_of(frame_of(
                    ObjType::Tree,
                    tree_payload(tree_runs(crate::index::models(sub@), cs)),
                )));
                assert(scan_runs(mse.subrange(i as int, n as int), start as int) == single_run
                    + scan_runs(mse.subrange(j as int, n as int), start as int));
                assert(tes_pre + (single_run + scan_runs(mse.subrange(j as int, n as int),
                    start as int)) =~= (tes_pre + single_run) + scan_runs(
                    mse.subrange(j as int, n as int),
                    start as int,
                ));
                assert(te_models(tes@) =~= tes_pre + single_run);
                if blobs_present(entries@, m0) {
                    assert forall|t: int| 0 <= t < sub@.len() implies m0.contains_key(
                        (#[trigger] sub@[t]).sha@,
                    ) && payload_after_nul(m0[sub@[t].sha@]) is Some by {
                        assert(sub@[t] == entries@[i + t]);
                    }
                    lemma_blobs_present_mono(sub@, m0, store_pre);
                    assert forall|f: nat, dir: Seq<u8>| f >= maxrem implies (
                    #[trigger] walk_entries(store@, te_models(tes@), dir, f) matches Some(ff)
                        && ff.to_multiset() == expected_files(
                        entries@.take(j as int),
                        start as int,
                        dir,
                        m0,
                    ).to_multiset()) by {
                        broadcast use vstd::multiset::group_multiset_axioms;

                        let single = seq![(true, segs, ch@)];
                        assert(single.len() == 1);
                        assert(single.first() == (true, segs, ch@));
                        assert(te_models(tes@) =~= tes_pre + single);
                        // the old runs still walk the same under the grown store
                        assert(walk_entries(store_pre, tes_pre, dir, f) is Some);
                        lemma_walk_entries_monotone(store_pre, store@, tes_pre, dir, f);
                        lemma_walk_entries_concat(store@, tes_pre, single, dir, f);
                        // the child's subtree walks to the run's file set
                        let d2 = dir + segs + seq![47u8];
                        assert(f > max_rem_len(sub@, child_start as int)) by {
                            assert(max_rem_len(sub@, child_start as int) + slen + 1 <= maxrem);
                        }
                        assert(walk(store@, ch@, d2, f) matches Some(fc) && fc.to_multiset()
                            == expected_files(
                            sub@,
                            child_start as int,
                            d2,
                            store_pre,
                        ).to_multiset());
                        let fc = walk(store@, ch@, d2, f)->0;
                        lemma_blobs_present_mono(sub@, m0, store_pre);
                        assert(expected_files(sub@, child_start as int, d2, store_pre)
                            =~= expected_files(sub@, child_start as int, d2, m0));
                        assert(single.drop_first() =~= Seq::<(bool, Seq<u8>, Seq<u8>)>::empty());
                        assert(walk_entries(store@, single.drop_first(), dir, f) == Some(
                            Seq::<(Seq<u8>, Seq<u8>)>::empty(),
                        ));
                        assert(walk(store@, single.first().2, dir + single.first().1 + seq![47u8], f)
                            == Some(fc));
                        assert(walk_entries(store@, single, dir, f) == Some(
                            fc + Seq::<(Seq<u8>, Seq<u8>)>::empty(),
                        ));
                        assert forall|t: int| 0 <= t < j - i implies (
                        expected_files(sub@, child_start as int, d2, m0)[t]) == (expected_files(
                            entries@.take(j as int),
                            start as int,
                            dir,
                            m0,
                        )[i + t]) by {
                            let rk = entries@[i + t].path@.skip(start as int);
                            assert(sub@[t] == entries@[i + t]);
                            assert(d2 + entries@[i + t].path@.skip(child_start as int) =~= dir
                                + rk) by {
                                assert(rk.take(slen as int) == segs);
                                assert(rk[slen as int] == 47);
                                assert(entries@[i + t].path@.skip(child_start as int) =~= rk.skip(
                                    slen + 1,
                                ));
                                assert(segs + seq![47u8] + rk.skip(slen + 1) =~= rk);
                            }
                        }
                        let epre = expected_files(entries@.take(i as int), start as int, dir, m0);
                        let esub = expected_files(sub@, child_start as int, d2, m0);
                        assert(expected_files(entries@.take(j as int), start as int, dir, m0)
                            =~= epre + esub);
                        let fpre = walk_entries(store@, tes_pre, dir, f)->0;
                        let fsingle = fc + Seq::<(Seq<u8>, Seq<u8>)>::empty();
                        assert(fsingle =~= fc);
                        vstd::seq_lib::lemma_multiset_commutative(fpre, fsingle);
                        vstd::seq_lib::lemma_multiset_commutative(epre, esub);
                        assert(fpre.to_multiset() == epre.to_multiset());
                        assert(fc.to_multiset() == esub.to_multiset());
                        assert((fpre + fsingle).to_multiset() =~= expected_files(
                            entries@.take(j as int),
                            start as int,
                            dir,
                            m0,
                        ).to_multiset());
                    }
                }
            }
            i = j;
        }
    }
    let ghost tes_scan = te_models(tes@);
    let sorted = sort_runs_exec(tes);
    proof {
        assert(te_models(sorted@) == sort_runs(tes_scan));
        assert(mse.subrange(n as int, n as int).len() == 0);
        assert(scan_runs(mse.subrange(n as int, n as int), start as int)
            == Seq::<(bool, Seq<u8>, Seq<u8>)>::empty());
        assert(tes_scan + Seq::<(bool, Seq<u8>, Seq<u8>)>::empty() =~= tes_scan);
        assert(scan_runs(mse, start as int) == tes_scan);
        assert(te_models(sorted@) == tree_runs(mse, start as int));
    }
    let payload = serialize_tes(&sorted);
    let ghost store_pre_put = store@;
    let ghost tes_final = te_models(sorted@);
    let h = match store.put(ObjType::Tree, payload.as_slice()) {
        Ok(h) => h,
        Err(er) => {
            proof {
                vstd::map_lib::lemma_submap_of_trans(m0, store_pre_put, store@);
            }
            return Err(er);
        },
    };
    proof {
        vstd::map_lib::lemma_submap_of_trans(m0, store_pre_put, store@);
        let frame = frame_of(ObjType::Tree, payload@);
        crate::objects::lemma_frame_payload(ObjType::Tree, payload@);
        lemma_parse_tree_roundtrip(tes_final);
        assert(store@.contains_key(h@) && store@[h@] == frame);
        assert(payload@ == tree_payload(tree_runs(mse, start as int)));
        if blobs_present(entries@, m0) {
            assert forall|fuel: nat, dir: Seq<u8>| fuel > maxrem implies (#[trigger] walk(
                store@,
                h@,
                dir,
                fuel,
            ) matches Some(wf2) && wf2.to_multiset() == expected_files(
                entries@,
                start as int,
                dir,
                m0,
            ).to_multiset()) by {
                assert(entries@.take(n as int) =~= entries@);
                assert(maxrem >= 1) by {
                    lemma_max_rem_len_ge(entries@, start as int, 0);
                }
                let f = (fuel - 1) as nat;
                assert(f >= maxrem);
                assert(walk_entries(store_pre_put, tes_scan, dir, f) matches Some(fs)
                    && fs.to_multiset() == expected_files(
                    entries@,
                    start as int,
                    dir,
                    m0,
                ).to_multiset());
                lemma_walk_sort_runs(store_pre_put, tes_scan, dir, f);
                assert(walk_entries(store_pre_put, tes_final, dir, f) is Some);
                lemma_walk_entries_monotone(store_pre_put, store@, tes_final, dir, f);
                assert(payload_after_nul(store@[h@]) == Some(payload@));
                assert(parse_tree(payload@) == Some(tes_final));
            }
        }
    }
    Ok(h)
}

/// Orders the accumulated runs by ascending name, exactly as the run list
/// of every stored tree is ordered.
fn sort_runs_exec(tes: Vec<(bool, Vec<u8>, Vec<u8>)>) -> (r: Vec<(bool, Vec<u8>, Vec<u8>)>)
    requires
        tes_wf(te_models(tes@)),
    ensures
        te_models(r@) == sort_runs(te_models(tes@)),
        tes_wf(te_models(r@)),
{
    let ghost orig = te_models(tes@);
    let mut rest = tes;
    let mut out: Vec<(bool, Vec<u8>, Vec<u8>)> = Vec::new();
    proof {
        assert(orig.skip(orig.len() as int) =~= Seq::<(bool, Seq<u8>, Seq<u8>)>::empty());
        assert(te_models(out@) =~= sort_runs(orig.skip(orig.len() as int)));
    }
    while rest.len() > 0
        invariant
            orig == te_models(tes@),
            tes_wf(orig),
            rest@.len() <= orig.len(),
            te_models(rest@) == orig.take(rest@.len() as int),
            te_models(out@) == sort_runs(orig.skip(rest@.len() as int)),
            tes_wf(te_models(out@)),
        decreases rest@.len(),
    {
        let ghost k = rest@.len() - 1;
        let ghost rest_before = rest@;
        let item = match rest.pop() {
            Some(it) => it,
            None => {
                proof {
                    assert(false);
                }
                return out;
            },
        };
        proof {
            assert(rest@ =~= rest_before.drop_last());
            assert(forall|t: int|
                0 <= t < rest@.len() ==> (#[trigger] rest@[t]) == rest_before[t]);
            assert(te_models(rest@) =~= orig.take(k));
            assert(item == rest_before[k as int]);
            assert(te_models(rest_before)[k as int] == (item.0, item.1@, item.2@));
            assert(orig.take(k + 1)[k as int] == orig[k]);
            assert((item.0, item.1@, item.2@) == orig[k]);
            assert(orig.skip(k).first() == orig[k]);
            assert(orig.skip(k).drop_first() =~= orig.skip(k + 1));
        }
        // find where the run belongs: before the first name not smaller
        let n2 = out.len();
        let mut p: usize = 0;
        let mut searching = true;
        while searching
            invariant
                n2 == out@.len(),
                0 <= p <= n2,
                forall|t: int| 0 <= t < p ==> lex_lt((#[trigger] out@[t]).1@, item.1@),
                !searching ==> p == n2 || !lex_lt(out@[p as int].1@, item.1@),
            decreases n2 - p, (if searching { 1int } else { 0int }),
        {
            if p < n2 {
                if crate::byteops::bytes_lt(out[p].1.as_slice(), item.1.as_slice()) {
                    p += 1;
                } else {
                    searching = false;
                }
            } else {
                searching = false;
            }
        }
        let ghost before = te_models(out@);
        let ghost pos = p as int;
        let ghost itemm = (item.0, item.1@, item.2@);
        proof {
            assert forall|t: int| 0 <= t < pos implies lex_lt(
                (#[trigger] before[t]).1,
                itemm.1,
            ) by {
                assert(before[t] == (out@[t].0, out@[t].1@, out@[t].2@));
            }
            if pos < before.len() {
                assert(before[pos] == (out@[pos].0, out@[pos].1@, out@[pos].2@));
                assert(!lex_lt(before[pos].1, itemm.1));
            }
        }
        out.insert(p, item);
        proof {
            lemma_insert_run_at(before, itemm, pos);
            assert(te_models(out@) =~= before.take(pos) + seq![itemm] + before.skip(pos));
            assert(te_models(out@) == insert_run(before, itemm));
            assert(te_models(out@) == sort_runs(orig.skip(k)));
            assert forall|t: int| 0 <= t < te_models(out@).len() implies (
            #[trigger] te_models(out@)[t]).2.len() == 20 && (forall|q: int|
                0 <= q < te_models(out@)[t].1.len() ==> te_models(out@)[t].1[q] != 0) by {
                let v = te_models(out@)[t];
                if t < pos {
                    assert(v == before[t]);
                } else if t == pos {
                    assert(v == itemm);
                } else {
                    assert(v == before[t - 1]);
                }
            }
            assert(tes_wf(te_models(out@)));
        }
    }
    proof {
        assert(orig.take(0int) =~= Seq::<(bool, Seq<u8>, Seq<u8>)>::empty());
        assert(te_models(rest@).len() == 0);
        assert(orig.skip(0int) =~= orig);
    }
    out
}

/// Where an insertion lands: before the first run whose name is not smaller.
proof fn lemma_insert_run_at(l: Seq<(bool, Seq<u8>, Seq<u8>)>, r: (bool, Seq<u8>, Seq<u8>), p: int)
    requires
        0 <= p <= l.len(),
        forall|t: int| 0 <= t < p ==> lex_lt((#[trigger] l[t]).1, r.1),
        p < l.len() ==> !lex_lt(l[p].1, r.1),
    ensures
        insert_run(l, r) == l.take(p) + seq![r] + l.skip(p),
    decreases p,
{
    if p == 0 {
        if l.len() == 0 {
            assert(insert_run(l, r) =~= l.take(0) + seq![r] + l.skip(0));
        } else {
            assert(l.take(0) + seq![r] + l.skip(0) =~= seq![r] + l);
        }
    } else {
        assert(forall|t: int| 0 <= t < p - 1 ==> (#[trigger] l.drop_first()[t]) == l[t + 1]);
        lemma_insert_run_at(l.drop_first(), r, p - 1);
        assert(insert_run(l, r) == seq![l[0]] + insert_run(l.drop_first(), r));
        assert(seq![l[0]] + (l.drop_first().take(p - 1) + seq![r] + l.drop_first().skip(p - 1))
            =~= l.take(p) + seq![r] + l.skip(p));
    }
}

/// The run under one segment meets the builder's own preconditions, one
/// directory level down.
proof fn lemma_child_requires(
    s: Seq<IndexEntry>,
    start: int,
    i: int,
    j: int,
    slen: int,
    segs: Seq<u8>,
)
    requires
        0 <= start,
        0 <= i < j <= s.len(),
        rems_wf(s, start),
        rems_sorted(s, start),
        no_clash(s, start),
        slen >= 1,
        segs.len() == slen,
        forall|k: int|
            i <= k < j ==> {
                let rk = (#[trigger] s[k]).path@.skip(start);
                rk.len() > slen && rk.take(slen) == segs && rk[slen] == 47
            },
    ensures
        rems_wf(s.subrange(i, j), start + slen + 1),
        rems_sorted(s.subrange(i, j), start + slen + 1),
        no_clash(s.subrange(i, j), start + slen + 1),
{
    let sub = s.subrange(i, j);
    let cs = start + slen + 1;
    assert forall|t: int| 0 <= t < sub.len() implies cs < (#[trigger] sub[t]).path@.len()
        && path_wf(sub[t].path@.skip(cs)) && sub[t].sha@.len() == 20 by {
        let rk = s[i + t].path@.skip(start);
        let rc = s[i + t].path@.skip(cs);
        assert(sub[t] == s[i + t]);
        assert(path_wf(rk));
        assert(rk.len() == s[i + t].path@.len() - start);
        // the remainder cannot stop right after the separator
        if rk.len() == slen + 1 {
            assert(rk[rk.len() - 1] == 47);
            assert(false);
        }
        assert(rk.len() >= slen + 2);
        assert(cs < s[i + t].path@.len());
        assert forall|x: int| 0 <= x < rc.len() implies rc[x] == rk.skip(slen + 1)[x] by {
            assert(rc[x] == s[i + t].path@[cs + x]);
            assert(rk.skip(slen + 1)[x] == rk[slen + 1 + x]);
            assert(rk[slen + 1 + x] == s[i + t].path@[start + slen + 1 + x]);
        }
        assert(rc =~= rk.skip(slen + 1));
        assert(rc.len() > 0);
        assert(rc[0] == rk[slen + 1]);
        assert(!(rk[slen] == 47 && rk[slen + 1] == 47));
        assert(rc[0] != 47);
        assert(rc[rc.len() - 1] == rk[rk.len() - 1]);
        assert forall|k: int| 0 <= k < rc.len() implies rc[k] != 0 by {
            assert(rc[k] == rk[k + slen + 1]);
        }
        assert forall|k: int| 0 <= k < rc.len() - 1 implies !(#[trigger] rc[k] == 47 && rc[k + 1]
            == 47) by {
            assert(rc[k] == rk[k + slen + 1]);
            assert(rc[k + 1] == rk[k + slen + 2]);
        }
    }
    assert forall|p: int, q: int| 0 <= p < q < sub.len() implies lex_lt(
        (#[trigger] sub[p]).path@.skip(cs),
        (#[trigger] sub[q]).path@.skip(cs),
    ) by {
        let rp = s[i + p].path@.skip(start);
        let rq = s[i + q].path@.skip(start);
        assert(sub[p] == s[i + p] && sub[q] == s[i + q]);
        assert(lex_lt(rp, rq));
        assert forall|k: int| 0 <= k < slen + 1 implies rp[k] == rq[k] by {
            if k < slen {
                assert(rp.take(slen)[k] == rq.take(slen)[k]);
            }
        }
        lemma_lex_lt_skip_common(rp, rq, slen + 1);
        assert(sub[p].path@.skip(cs) =~= rp.skip(slen + 1));
        assert(sub[q].path@.skip(cs) =~= rq.skip(slen + 1));
    }
    assert forall|p: int, q: int| 0 <= p < sub.len() && 0 <= q < sub.len() implies !dir_prefix_of(
        (#[trigger] sub[p]).path@.skip(cs),
        (#[trigger] sub[q]).path@.skip(cs),
    ) by {
        let rp = s[i + p].path@.skip(start);
        let rq = s[i + q].path@.skip(start);
        assert(sub[p] == s[i + p] && sub[q] == s[i + q]);
        let cp = sub[p].path@.skip(cs);
        let cq = sub[q].path@.skip(cs);
        if dir_prefix_of(cp, cq) {
            assert(cp =~= rp.skip(slen + 1));
            assert(cq =~= rq.skip(slen + 1));
            assert(rq.take(rp.len() as int + 1) =~= rp + seq![47u8]) by {
                assert forall|k: int| 0 <= k < rp.len() + 1 implies rq.take(rp.len() as int + 1)[k] == (rp
                    + seq![47u8])[k] by {
                    if k < slen {
                        assert(rp.take(slen)[k] == segs[k] && rq.take(slen)[k] == segs[k]);
                    } else if k == slen {
                    } else {
                        assert(cq.take(cp.len() as int + 1)[k - slen - 1] == (cp + seq![47u8])[k - slen
                            - 1]);
                    }
                }
            }
            assert(dir_prefix_of(rp, rq));
            assert(false);
        }
    }
}

/// The run's remainders are shorter by the segment and its separator.
proof fn lemma_max_rem_len_child(
    s: Seq<IndexEntry>,
    sub: Seq<IndexEntry>,
    start: int,
    cs: int,
    slen: int,
)
    requires
        slen >= 1,
        cs == start + slen + 1,
        sub.len() > 0,
        forall|t: int| 0 <= t < sub.len() ==> cs < (#[trigger] sub[t]).path@.len(),
        forall|t: int|
            0 <= t < sub.len() ==> exists|k: int|
                0 <= k < s.len() && (#[trigger] sub[t]) == s[k] && start <= s[k].path@.len(),
    ensures
        max_rem_len(sub, cs) + slen + 1 <= max_rem_len(s, start),
        max_rem_len(sub, cs) < max_rem_len(s, start),
{
    assert forall|t: int| 0 <= t < sub.len() implies (#[trigger] sub[t]).path@.len() - cs
        <= max_rem_len(s, start) - slen - 1 by {
        let k = choose|k: int|
            0 <= k < s.len() && (#[trigger] sub[t]) == s[k] && start <= s[k].path@.len();
        lemma_max_rem_len_ge(s, start, k);
    }
    let k0 = choose|k: int|
        0 <= k < s.len() && (#[trigger] sub[0]) == s[k] && start <= s[k].path@.len();
    lemma_max_rem_len_ge(s, start, k0);
    assert(max_rem_len(s, start) >= slen + 2);
    lemma_max_rem_len_le(sub, cs, (max_rem_len(s, start) - slen - 1) as nat);
}

/// The model of a restored file list.
pub open spec fn file_models(s: Seq<(Vec<u8>, Vec<u8>)>) -> Seq<(Seq<u8>, Seq<u8>)> {
    s.map_values(|p: (Vec<u8>, Vec<u8>)| (p.0@, p.1@))
}

/// The directory mode run, as bytes.
fn mode_dir_vec() -> (r: Vec<u8>)
    ensures
        r@ == mode_dir(),
{
    let mut v: Vec<u8> = Vec::new();
    v.push(48);
    v.push(52);
    v.push(48);
    v.push(48);
    v.push(48);
    v.push(48);
    proof {
        assert(v@ =~= mode_dir());
    }
    v
}

/// Decodes a tree payload into its runs, exactly as the walk reads it.
pub fn parse_tree_exec(b: &[u8]) -> (r: Result<Vec<(bool, Vec<u8>, Vec<u8>)>, ItError>)
    ensures
        match r {
            Ok(v) => parse_tree(b@) == Some(te_models(v@)),
            Err(e) => e == ItError::MalformedTree && parse_tree(b@) is None,
        },
{
    let md = mode_dir_vec();
    let n = b.len();
    let mut acc: Vec<(bool, Vec<u8>, Vec<u8>)> = Vec::new();
    let mut pos: usize = 0;
    proof {
        assert(b@.skip(0int) =~= b@);
        assert(te_models(acc@) =~= Seq::<(bool, Seq<u8>, Seq<u8>)>::empty());
        match parse_tree(b@) {
            Some(t) => {
                assert(te_models(acc@) + t =~= t);
            },
            None => {},
        }
    }
    while pos < n
        invariant
            n == b@.len(),
            0 <= pos <= n,
            md@ == mode_dir(),
            match parse_tree(b@.skip(pos as int)) {
                Some(tail) => parse_tree(b@) == Some(te_models(acc@) + tail),
                None => parse_tree(b@) is None,
            },
        decreases n - pos,
    {
        let ghost accm = te_models(acc@);
        let ghost suf = b@.skip(pos as int);
        let rest = slice_subrange(b, pos, n);
        proof {
            assert(rest@ =~= suf);
        }
        let sp = match find_byte_exec(rest, 32) {
            Some(sp) => sp,
            None => {
                return Err(ItError::MalformedTree);
            },
        };
        proof {
            lemma_find_byte_props(rest@, 32);
        }
        let mode = slice_subrange(rest, 0, sp);
        let is_dir = bytes_eq(mode, md.as_slice());
        proof {
            assert(mode@ =~= suf.take(sp as int));
        }
        let rest1 = slice_subrange(rest, sp + 1, n - pos);
        proof {
            assert(rest1@ =~= suf.skip(sp as int + 1));
        }
        let nl = match find_byte_exec(rest1, 0) {
            Some(nl) => nl,
            None => {
                return Err(ItError::MalformedTree);
            },
        };
        proof {
            lemma_find_byte_props(rest1@, 0);
        }
        let name = slice_to_vec(slice_subrange(rest1, 0, nl));
        proof {
            assert(name@ =~= rest1@.take(nl as int));
        }
        let r1len = rest1.len();
        let rest2 = slice_subrange(rest1, nl + 1, r1len);
        proof {
            assert(rest2@ =~= rest1@.skip(nl as int + 1));
        }
        if rest2.len() < 20 {
            return Err(ItError::MalformedTree);
        }
        let h = slice_to_vec(slice_subrange(rest2, 0, 20));
        proof {
            assert(h@ =~= rest2@.take(20));
        }
        let step = sp + 1 + nl + 1 + 20;
        proof {
            assert(pos + step <= n);
            assert(b@.skip(pos as int).skip(step as int) =~= b@.skip(pos + step));
            assert(rest2@.skip(20) =~= b@.skip(pos + step));
        }
        acc.push((is_dir, name, h));
        proof {
            assert(te_models(acc@) =~= accm.push((is_dir, name@, h@)));
            let te = (mode@ == mode_dir(), rest1@.take(nl as int), rest2@.take(20));
            assert(is_dir == (mode@ == mode_dir()));
            match parse_tree(b@.skip(pos + step)) {
                Some(tail2) => {
                    assert(parse_tree(suf) == Some(seq![te] + tail2));
                    assert(te_models(acc@) + tail2 =~= accm + (seq![te] + tail2));
                },
                None => {
                    assert(parse_tree(suf) is None);
                },
            }
        }
        pos = pos + step;
    }
    proof {
        assert(b@.skip(n as int) =~= Seq::<u8>::empty());
        assert(parse_tree(b@.skip(pos as int)) == Some(Seq::<(bool, Seq<u8>, Seq<u8>)>::empty()));
        assert(te_models(acc@) + Seq::<(bool, Seq<u8>, Seq<u8>)>::empty() =~= te_models(acc@));
    }
    Ok(acc)
}

/// Walks a stored tree graph back into the flat file list it stands for,
/// depth first: directory runs recurse, file runs load their blob. The fuel
/// bounds the depth; a graph deeper than the fuel, a missing object, or a
/// malformed payload is an error, and the result is exactly what the `walk`
/// of the store's map gives.
pub fn restore_tree(store: &ObjectStore, h: &[u8], dir: &[u8], fuel: u64) -> (r: Result<
    Vec<(Vec<u8>, Vec<u8>)>,
    ItError,
>)
    requires
        store.wf(),
    ensures
        match r {
            Ok(v) => walk(store@, h@, dir@, fuel as nat) == Some(file_models(v@)),
            Err(e) => walk(store@, h@, dir@, fuel as nat) is None,
        },
        // the error kind for each broken link at this level of the walk
        ({
            if fuel == 0 {
                r matches Err(e) && e == ItError::MalformedTree
            } else if !store@.contains_key(h@) {
                r matches Err(e) && e == ItError::NotFound
            } else {
                match payload_after_nul(store@[h@]) {
                    None => r matches Err(e) && e == ItError::MalformedObject,
                    Some(pl) => match parse_tree(pl) {
                        None => r matches Err(e) && e == ItError::MalformedTree,
                        Some(tes2) => true,
                    },
                }
            }
        }),
    decreases fuel,
{
    if fuel == 0 {
        proof {
            assert(walk(store@, h@, dir@, fuel as nat) is None);
        }
        return Err(ItError::MalformedTree);
    }
    let framed = match store.load(h) {
        Some(f) => f,
        None => {
            proof {
                assert(!store@.contains_key(h@));
                assert(walk(store@, h@, dir@, fuel as nat) is None);
            }
            return Err(ItError::NotFound);
        },
    };
    let ghost framed0 = framed@;
    let payload = match crate::objects::object_payload(framed.as_slice()) {
        Ok(p) => p,
        Err(e) => {
            proof {
                assert(framed0 == store@[h@]);
                assert(payload_after_nul(store@[h@]) is None);
                assert(walk(store@, h@, dir@, fuel as nat) is None);
            }
            return Err(e);
        },
    };
    let tes = match parse_tree_exec(payload.as_slice()) {
        Ok(t) => t,
        Err(e) => {
            proof {
                assert(framed0 == store@[h@]);
                assert(payload_after_nul(store@[h@]) == Some(payload@));
                assert(parse_tree(payload@) is None);
                assert(walk(store@, h@, dir@, fuel as nat) is None);
            }
            return Err(e);
        },
    };
    proof {
        assert(framed0 == store@[h@]);
        assert(payload_after_nul(store@[h@]) == Some(payload@));
        assert(parse_tree(payload@) == Some(te_models(tes@)));
    }
    let ghost f1 = (fuel - 1) as nat;
    let ghost tesm = te_models(tes@);
    let mut out: Vec<(Vec<u8>, Vec<u8>)> = Vec::new();
    let n = tes.len();
    let mut k: usize = 0;
    proof {
        assert(tesm.skip(0int) =~= tesm);
        match walk_entries(store@, tesm, dir@, f1) {
            Some(t) => {
                assert(file_models(out@) + t =~= t);
            },
            None => {},
        }
    }
    while k < n
        invariant
            store.wf(),
            n == tes@.len(),
            0 <= k <= n,
            tesm == te_models(tes@),
            f1 == (fuel - 1) as nat,
            fuel >= 1,
            store@.contains_key(h@),
            payload_after_nul(store@[h@]) == Some(payload@),
            parse_tree(payload@) == Some(tesm),
            walk(store@, h@, dir@, fuel as nat) == walk_entries(store@, tesm, dir@, f1),
            match walk_entries(store@, tesm.skip(k as int), dir@, f1) {
                Some(rest) => walk_entries(store@, tesm, dir@, f1) == Some(
                    file_models(out@) + rest,
                ),
                None => walk_entries(store@, tesm, dir@, f1) is None,
            },
        decreases n - k,
    {
        let ghost outm = file_models(out@);
        proof {
            assert(tesm.skip(k as int).len() > 0);
            assert(tesm.skip(k as int).first() == tesm[k as int]);
            assert(tesm.skip(k as int).drop_first() =~= tesm.skip(k + 1));
            assert(tesm[k as int] == (tes@[k as int].0, tes@[k as int].1@, tes@[k as int].2@));
        }
        let te = &tes[k];
        if te.0 {
            let mut d2 = slice_to_vec(dir);
            d2.extend_from_slice(te.1.as_slice());
            d2.push(47);
            proof {
                assert(d2@ =~= dir@ + tesm[k as int].1 + seq![47u8]);
            }
            match restore_tree(store, te.2.as_slice(), d2.as_slice(), fuel - 1) {
                Ok(mut sub) => {
                    proof {
                        assert(walk(store@, tesm[k as int].2, d2@, f1) == Some(
                            file_models(sub@),
                        ));
                    }
                    let ghost subm = file_models(sub@);
                    out.append(&mut sub);
                    proof {
                        assert(file_models(out@) =~= outm + subm);
                        match walk_entries(store@, tesm.skip(k + 1), dir@, f1) {
                            Some(rest2) => {
                                assert(walk_entries(store@, tesm.skip(k as int), dir@, f1)
                                    == Some(subm + rest2));
                                assert(outm + (subm + rest2) =~= (outm + subm) + rest2);
                            },
                            None => {},
                        }
                    }
                },
                Err(e) => {
                    proof {
                        assert(walk_entries(store@, tesm.skip(k as int), dir@, f1) is None);
                    }
                    return Err(e);
                },
            }
        } else {
            let bframed = match store.load(te.2.as_slice()) {
                Some(f) => f,
                None => {
                    proof {
                        assert(walk_entries(store@, tesm.skip(k as int), dir@, f1) is None);
                    }
                    return Err(ItError::NotFound);
                },
            };
            let content = match crate::objects::object_payload(bframed.as_slice()) {
                Ok(p) => p,
                Err(e) => {
                    proof {
                        assert(walk_entries(store@, tesm.skip(k as int), dir@, f1) is None);
                    }
                    return Err(e);
                },
            };
            let mut fpath = slice_to_vec(dir);
            fpath.extend_from_slice(te.1.as_slice());
            proof {
                assert(fpath@ =~= dir@ + tesm[k as int].1);
            }
            out.push((fpath, content));
            proof {
                assert(file_models(out@) =~= outm.push((dir@ + tesm[k as int].1, content@)));
                let single = seq![(dir@ + tesm[k as int].1, content@)];
                match walk_entries(store@, tesm.skip(k + 1), dir@, f1) {
                    Some(rest2) => {
                        assert(walk_entries(store@, tesm.skip(k as int), dir@, f1) == Some(
                            single + rest2,
                        ));
                        assert(outm + (single + rest2) =~= outm.push(
                            (dir@ + tesm[k as int].1, content@),
                        ) + rest2);
                    },
                    None => {},
                }
            }
        }
        k += 1;
    }
    proof {
        assert(tesm.skip(n as int) =~= Seq::<(bool, Seq<u8>, Seq<u8>)>::empty());
        assert(walk_entries(store@, tesm.skip(n as int), dir@, f1) == Some(
            Seq::<(Seq<u8>, Seq<u8>)>::empty(),
        ));
        assert(file_models(out@) + Seq::<(Seq<u8>, Seq<u8>)>::empty() =~= file_models(out@));
        assert(walk(store@, h@, dir@, fuel as nat) == walk_entries(store@, tesm, dir@, f1));
    }
    Ok(out)
}

/// An exec check of the path shape the index demands.
pub fn path_wf_exec(p: &[u8]) -> (r: bool)
    ensures
        r == path_wf(p@),
{
    let n = p.len();
    if n == 0 {
        return false;
    }
    if p[0] == 47 {
        return false;
    }
    if p[n - 1] == 47 {
        return false;
    }
    let mut i: usize = 0;
    while i < n
        invariant
            n == p@.len(),
            0 <= i <= n,
            forall|k: int| 0 <= k < i ==> p@[k] != 0,
            forall|k: int| 0 <= k < i ==> !(#[trigger] p@[k] == 47 && k + 1 < n && p@[k + 1] == 47),
        decreases n - i,
    {
        if p[i] == 0 {
            return false;
        }
        if i + 1 < n && p[i] == 47 && p[i + 1] == 47 {
            return false;
        }
        i += 1;
    }
    true
}

/// A well-formed path stays well-formed past one of its separators.
pub proof fn lemma_path_suffix_wf(p: Seq<u8>, k: int)
    requires
        path_wf(p),
        0 <= k < p.len(),
        p[k] == 47,
    ensures
        k + 1 < p.len(),
        path_wf(p.skip(k + 1)),
{
    if k + 1 == p.len() {
        assert(p[p.len() - 1] == 47);
        assert(false);
    }
    let q = p.skip(k + 1);
    assert(q.len() == p.len() - k - 1);
    assert(forall|x: int| 0 <= x < q.len() ==> q[x] == p[k + 1 + x]);
    assert(q[0] != 47) by {
        assert(!(p[k] == 47 && p[k + 1] == 47));
    }
    assert(q[q.len() - 1] == p[p.len() - 1]);
    assert forall|x: int| 0 <= x < q.len() - 1 implies !(#[trigger] q[x] == 47 && q[x + 1] == 47) by {
        assert(!(p[k + 1 + x] == 47 && p[k + 2 + x] == 47));
    }
}

/// An exec check that no remainder names both a file and a directory.
pub fn clash_free_check(entries: &[IndexEntry], start: usize) -> (r: bool)
    requires
        forall|i: int| 0 <= i < entries@.len() ==> start < (#[trigger] entries@[i]).path@.len(),
    ensures
        r == no_clash(entries@, start as int),
{
    let n = entries.len();
    let mut i: usize = 0;
    while i < n
        invariant
            n == entries@.len(),
            0 <= i <= n,
            forall|k: int| 0 <= k < entries@.len() ==> start < (#[trigger] entries@[k]).path@.len(),
            forall|p: int, q: int|
                0 <= p < i && 0 <= q < n ==> !dir_prefix_of(
                    #[trigger] entries@[p].path@.skip(start as int),
                    #[trigger] entries@[q].path@.skip(start as int),
                ),
        decreases n - i,
    {
        let pi = vstd::slice::slice_index_get(entries, i);
        let pil = pi.path.len();
        let mut j: usize = 0;
        while j < n
            invariant
                n == entries@.len(),
                0 <= i < n,
                0 <= j <= n,
                pil == entries@[i as int].path@.len(),
                start < pil,
                forall|k: int|
                    0 <= k < entries@.len() ==> start < (#[trigger] entries@[k]).path@.len(),
                forall|q: int|
                    0 <= q < j ==> !dir_prefix_of(
                        entries@[i as int].path@.skip(start as int),
                        #[trigger] entries@[q].path@.skip(start as int),
                    ),
            decreases n - j,
        {
            let pie = vstd::slice::slice_index_get(entries, i);
            let pj = vstd::slice::slice_index_get(entries, j);
            let pjl = pj.path.len();
            let ghost ri = entries@[i as int].path@.skip(start as int);
            let ghost rj = entries@[j as int].path@.skip(start as int);
            if pil < pjl {
                let a = slice_subrange(pj.path.as_slice(), start, pil);
                let b = slice_subrange(pie.path.as_slice(), start, pil);
                if bytes_eq(a, b) {
                    let c = *vstd::slice::slice_index_get(pj.path.as_slice(), pil);
                    if c == 47 {
                        proof {
                            assert(rj.take(ri.len() as int + 1) =~= ri + seq![47u8]) by {
                                assert forall|x: int| 0 <= x < ri.len() + 1 implies rj.take(
                                    ri.len() as int + 1,
                                )[x] == (ri + seq![47u8])[x] by {
                                    if x < ri.len() {
                                        assert(a@[x] == entries@[j as int].path@[start + x]);
                                        assert(b@[x] == entries@[i as int].path@[start + x]);
                                    } else {
                                        assert(rj[x] == entries@[j as int].path@[start + x]);
                                    }
                                }
                            }
                            assert(dir_prefix_of(ri, rj));
                        }
                        return false;
                    }
                }
            }
            proof {
                if dir_prefix_of(ri, rj) {
                    assert(ri.len() + 1 <= rj.len());
                    assert(pil < pjl);
                    let pathj = entries@[j as int].path@;
                    let pathi = entries@[i as int].path@;
                    assert forall|x: int| 0 <= x < pil - start implies #[trigger] pathj[start + x]
                        == pathi[start + x] by {
                        assert(rj.take(ri.len() as int + 1)[x] == (ri + seq![47u8])[x]);
                        assert(rj[x] == pathj[start + x]);
                        assert(ri[x] == pathi[start + x]);
                    }
                    assert(rj.take(ri.len() as int + 1)[ri.len() as int] == (ri
                        + seq![47u8])[ri.len() as int]);
                    assert(rj[ri.len() as int] == pathj[start + ri.len()]);
                    assert(start + ri.len() == pil);
                    assert(pathj[pil as int] == 47);
                    assert forall|x: int| 0 <= x < pil - start implies pathj.subrange(
                        start as int,
                        pil as int,
                    )[x] == pathi.subrange(start as int, pil as int)[x] by {
                        assert(pathj[start + x] == pathi[start + x]);
                    }
                    assert(pathj.subrange(start as int, pil as int) =~= pathi.subrange(
                        start as int,
                        pil as int,
                    ));
                    assert(false);
                }
            }
            j += 1;
        }
        i += 1;
    }
    true
}

/// Keeping an entry under a prefix: its path strictly extends `prefix/`.
pub open spec fn under_prefix(prefix: Seq<u8>) -> spec_fn((Seq<u8>, Seq<u8>, u16)) -> bool {
    |m: (Seq<u8>, Seq<u8>, u16)|
        m.0.len() > prefix.len() + 1 && m.0.take(prefix.len() as int) == prefix && m.0[prefix.len() as int] == 47
}

/// The entries a path prefix selects: everything, for the empty prefix, and
/// otherwise exactly the entries under `prefix/`.
pub open spec fn selected_models(
    ms: Seq<(Seq<u8>, Seq<u8>, u16)>,
    prefix: Seq<u8>,
) -> Seq<(Seq<u8>, Seq<u8>, u16)> {
    if prefix.len() == 0 {
        ms
    } else {
        ms.filter(under_prefix(prefix))
    }
}

/// The byte offset remainders are read at under a prefix.
pub open spec fn sel_start(prefix: Seq<u8>) -> int {
    if prefix.len() == 0 {
        0
    } else {
        prefix.len() as int + 1
    }
}

/// Selecting under a prefix twice selects the same entries once: entries
/// outside the prefix have no effect on the subtree that is built.
pub proof fn lemma_selected_idempotent(ms: Seq<(Seq<u8>, Seq<u8>, u16)>, prefix: Seq<u8>)
    ensures
        selected_models(selected_models(ms, prefix), prefix) == selected_models(ms, prefix),
{
    if prefix.len() > 0 {
        let pred = under_prefix(prefix);
        assert forall|i: int| 0 <= i < ms.filter(pred).len() implies pred(
            #[trigger] ms.filter(pred)[i],
        ) by {
            ms.lemma_filter_pred(pred, i);
        }
        crate::index::lemma_filter_all(ms.filter(pred), pred);
    }
}


/// The clash condition, over models.
pub open spec fn no_clash_m(ms: Seq<(Seq<u8>, Seq<u8>, u16)>, start: int) -> bool {
    forall|i: int, j: int|
        0 <= i < ms.len() && 0 <= j < ms.len() ==> !dir_prefix_of(
            (#[trigger] ms[i]).0.skip(start),
            (#[trigger] ms[j]).0.skip(start),
        )
}

/// Filtering a strictly path-sorted model list keeps it strictly sorted.
proof fn lemma_filter_sorted_m(
    ms: Seq<(Seq<u8>, Seq<u8>, u16)>,
    pred: spec_fn((Seq<u8>, Seq<u8>, u16)) -> bool,
)
    requires
        forall|i: int, j: int| 0 <= i < j < ms.len() ==> lex_lt((#[trigger] ms[i]).0, (#[trigger] ms[j]).0),
    ensures
        forall|i: int, j: int|
            0 <= i < j < ms.filter(pred).len() ==> lex_lt(
                (#[trigger] ms.filter(pred)[i]).0,
                (#[trigger] ms.filter(pred)[j]).0,
            ),
        forall|k: int| 0 <= k < ms.filter(pred).len() ==> ms.contains(#[trigger] ms.filter(pred)[k]),
    decreases ms.len(),
{
    reveal_with_fuel(Seq::filter, 2);
    if ms.len() > 0 {
        let dl = ms.drop_last();
        assert(forall|i: int| 0 <= i < dl.len() ==> dl[i] == ms[i]);
        lemma_filter_sorted_m(dl, pred);
        let f0 = dl.filter(pred);
        if pred(ms.last()) {
            assert(ms.filter(pred) == f0.push(ms.last()));
            assert forall|i: int, j: int|
                0 <= i < j < ms.filter(pred).len() implies lex_lt(
                (#[trigger] ms.filter(pred)[i]).0,
                (#[trigger] ms.filter(pred)[j]).0,
            ) by {
                if j == ms.filter(pred).len() - 1 {
                    assert(dl.contains(f0[i]));
                    let k = choose|k: int| 0 <= k < dl.len() && dl[k] == f0[i];
                    assert(ms[k] == f0[i]);
                    assert(lex_lt(ms[k].0, ms[ms.len() - 1].0));
                }
            }
            assert forall|k: int| 0 <= k < ms.filter(pred).len() implies ms.contains(
                #[trigger] ms.filter(pred)[k],
            ) by {
                if k < ms.filter(pred).len() - 1 {
                    assert(dl.contains(f0[k]));
                    let t = choose|t: int| 0 <= t < dl.len() && dl[t] == f0[k];
                    assert(ms[t] == ms.filter(pred)[k]);
                } else {
                    assert(ms[ms.len() - 1] == ms.filter(pred)[k]);
                }
            }
        } else {
            assert(ms.filter(pred) == f0);
            assert forall|k: int| 0 <= k < f0.len() implies ms.contains(#[trigger] f0[k]) by {
                assert(dl.contains(f0[k]));
                let t = choose|t: int| 0 <= t < dl.len() && dl[t] == f0[k];
                assert(ms[t] == f0[k]);
            }
        }
    }
}

/// Every stored tree's runs come out in ascending name order, as the
/// payload format demands.
pub proof fn lemma_tree_runs_name_sorted(ms: Seq<(Seq<u8>, Seq<u8>, u16)>, start: int)
    ensures
        forall|i: int, j: int|
            0 <= i < j < tree_runs(ms, start).len() ==> crate::byteops::lex_le(
                (#[trigger] tree_runs(ms, start)[i]).1,
                (#[trigger] tree_runs(ms, start)[j]).1,
            ),
{
    lemma_sort_runs_sorted(scan_runs(ms, start));
}

/// A 40-character lowercase hex digest name.
pub open spec fn hex_name(s: Seq<char>) -> bool {
    s.len() == 40 && forall|k: int| 0 <= k < 40 ==> is_hex_char(#[trigger] s[k])
}

/// Folds the whole sorted index into its root tree object and hands back the
/// root digest as a hex name. An empty index is refused as nothing to commit;
/// a path that is both file and directory is refused as a name conflict.
/// On success, walking the named digest out of the grown store gives back
/// exactly the staged paths with their staged blob contents.
pub fn write_tree(store: &mut ObjectStore, entries: &Vec<IndexEntry>) -> (r: Result<
    String,
    ItError,
>)
    requires
        old(store).wf(),
        entries_wf(entries@),
        entries_sorted(entries@),
    ensures
        final(store).wf(),
        old(store)@.submap_of(final(store)@),
        r matches Err(e) && e == ItError::EmptyIndex <==> entries@.len() == 0,
        r matches Err(e) && e == ItError::NameConflict <==> entries@.len() > 0 && !no_clash(
            entries@,
            0,
        ),
        match r {
            Ok(s) => {
                &&& hex_name(s@)
                &&& final(store)@.contains_key(hex_val_of(s@))
                &&& s@ == crate::hashing::hex_of(sha1_of(frame_of(
                    ObjType::Tree,
                    tree_payload(tree_runs(crate::index::models(entries@), 0)),
                )))
                &&& hex_val_of(s@) == sha1_of(frame_of(
                    ObjType::Tree,
                    tree_payload(tree_runs(crate::index::models(entries@), 0)),
                ))
                &&& final(store)@[hex_val_of(s@)] == frame_of(
                    ObjType::Tree,
                    tree_payload(tree_runs(crate::index::models(entries@), 0)),
                )
                &&& (blobs_present(entries@, old(store)@) ==> walk_gives(
                    final(store)@,
                    hex_val_of(s@),
                    max_rem_len(entries@, 0),
                    0,
                    entries@,
                    old(store)@,
                ))
            },
            Err(e) => {
                &&& (e == ItError::EmptyIndex || e == ItError::NameConflict || e
                    == ItError::HashCollision)
                &&& (e == ItError::EmptyIndex || e == ItError::NameConflict ==> final(store)@
                    =~= old(store)@)
                &&& (e == ItError::HashCollision ==> crate::store::digest_collision(
                    final(store)@,
                ))
            },
        },
{
    if entries.len() == 0 {
        return Err(ItError::EmptyIndex);
    }
    proof {
        assert forall|i: int| 0 <= i < entries@.len() implies 0 < (
        #[trigger] entries@[i]).path@.len() && path_wf(entries@[i].path@.skip(0)) && entries@[
            i
        ].sha@.len() == 20 by {
            assert(entry_wf(entries@[i]));
            assert(entries@[i].path@.skip(0) =~= entries@[i].path@);
        }
        assert forall|i: int, j: int| 0 <= i < j < entries@.len() implies lex_lt(
            (#[trigger] entries@[i]).path@.skip(0),
            (#[trigger] entries@[j]).path@.skip(0),
        ) by {
            assert(entries@[i].path@.skip(0) =~= entries@[i].path@);
            assert(entries@[j].path@.skip(0) =~= entries@[j].path@);
        }
    }
    if !clash_free_check(entries.as_slice(), 0) {
        return Err(ItError::NameConflict);
    }
    let h = match build_tree_at(store, entries.as_slice(), 0) {
        Ok(h) => h,
        Err(e) => {
            return Err(e);
        },
    };
    let s = crate::hashing::hex_encode(h.as_slice());
    proof {
        crate::hashing::lemma_hex_roundtrip(h@);
    }
    Ok(s)
}

/// Tree construction for callers that pass a path prefix. With an empty
/// prefix this builds the root tree of the whole index, exactly as
/// `write_tree` does past its empty-index report; with a non-empty prefix it
/// builds the subtree of exactly the entries under `prefix/`, and an empty
/// selection or index yields the empty tree object. The name handed back is
/// pinned to the digest of the selection's grouped runs, so equal selections
/// always build equal trees; a file/directory name clash in the selection is
/// refused as a name conflict, and nothing else is.
pub fn build_tree(store: &mut ObjectStore, entries: &Vec<IndexEntry>, prefix: &[u8]) -> (r: Result<
    String,
    ItError,
>)
    requires
        old(store).wf(),
        entries_wf(entries@),
        entries_sorted(entries@),
        prefix@.len() < usize::MAX,
    ensures
        final(store).wf(),
        old(store)@.submap_of(final(store)@),
        match r {
            Ok(s) => {
                &&& hex_name(s@)
                &&& final(store)@.contains_key(hex_val_of(s@))
                &&& s@ == crate::hashing::hex_of(sha1_of(frame_of(
                    ObjType::Tree,
                    tree_payload(tree_runs(
                        selected_models(crate::index::models(entries@), prefix@),
                        sel_start(prefix@),
                    )),
                )))
                &&& hex_val_of(s@) == sha1_of(frame_of(
                    ObjType::Tree,
                    tree_payload(tree_runs(
                        selected_models(crate::index::models(entries@), prefix@),
                        sel_start(prefix@),
                    )),
                ))
                &&& final(store)@[hex_val_of(s@)] == frame_of(
                    ObjType::Tree,
                    tree_payload(tree_runs(
                        selected_models(crate::index::models(entries@), prefix@),
                        sel_start(prefix@),
                    )),
                )
            },
            Err(e) => {
                &&& (e == ItError::NameConflict || e == ItError::HashCollision)
                &&& (e == ItError::NameConflict ==> final(store)@ =~= old(store)@)
                &&& (e == ItError::HashCollision ==> crate::store::digest_collision(
                    final(store)@,
                ))
            },
        },
        prefix@.len() == 0 && entries@.len() > 0 ==> (r matches Err(e) && e
            == ItError::NameConflict <==> !no_clash(entries@, 0)),
        prefix@.len() > 0 ==> (r matches Err(e) && e == ItError::NameConflict
            <==> !no_clash_m(
            selected_models(crate::index::models(entries@), prefix@),
            sel_start(prefix@),
        )),
        prefix@.len() == 0 && entries@.len() > 0 ==> match r {
            Ok(s) => blobs_present(entries@, old(store)@) ==> walk_gives(
                final(store)@,
                hex_val_of(s@),
                max_rem_len(entries@, 0),
                0,
                entries@,
                old(store)@,
            ),
            Err(e) => true,
        },
{
    let ghost mfull = crate::index::models(entries@);
    if prefix.len() == 0 {
        if entries.len() == 0 {
            proof {
                assert(selected_models(mfull, prefix@) == mfull);
                assert(mfull.len() == 0);
                assert(tree_runs(mfull, 0) == Seq::<(bool, Seq<u8>, Seq<u8>)>::empty());
            }
            return empty_tree(store);
        }
        let r = match write_tree(store, entries) {
            Ok(s) => Ok(s),
            Err(e) => Err(e),
        };
        proof {
            crate::hashing::lemma_hex_roundtrip(Seq::<u8>::empty());
            assert(selected_models(mfull, prefix@) == mfull);
        }
        return r;
    }
    let plen = prefix.len();
    let start = plen + 1;
    let ghost pred = under_prefix(prefix@);
    let mut sel: Vec<IndexEntry> = Vec::new();
    let n = entries.len();
    let mut i: usize = 0;
    while i < n
        invariant
            n == entries@.len(),
            0 <= i <= n,
            plen == prefix@.len(),
            plen < usize::MAX,
            start == plen + 1,
            entries_wf(entries@),
            mfull == crate::index::models(entries@),
            pred == under_prefix(prefix@),
            crate::index::models(sel@) == mfull.take(i as int).filter(pred),
            forall|t: int|
                0 <= t < sel@.len() ==> start < (#[trigger] sel@[t]).path@.len() && sel@[t].sha@.len()
                    == 20,
            forall|t: int|
                0 <= t < sel@.len() ==> path_wf((#[trigger] sel@[t]).path@) && sel@[t].path@[
                    plen as int
                ] == 47 && sel@[t].path@.take(plen as int) == prefix@,
        decreases n - i,
    {
        let e = vstd::slice::slice_index_get(entries.as_slice(), i);
        let ghost mm = crate::index::model(entries@[i as int]);
        proof {
            assert(mfull[i as int] == mm);
            assert(mfull.take(i + 1).drop_last() =~= mfull.take(i as int));
            assert(mfull.take(i + 1).last() == mm);
            reveal_with_fuel(Seq::filter, 2);
        }
        let mut keep = false;
        if e.path.len() > plen + 1 {
            let opening = slice_subrange(e.path.as_slice(), 0, plen);
            proof {
                assert(opening@ =~= mm.0.take(plen as int));
            }
            if bytes_eq(opening, prefix) {
                let c = e.path[plen];
                if c == 47 {
                    keep = true;
                    proof {
                        assert(pred(mm));
                        assert(crate::index::entry_wf(entries@[i as int]));
                    }
                } else {
                    proof {
                        assert(mm.0[plen as int] != 47);
                        assert(!pred(mm));
                    }
                }
            } else {
                proof {
                    assert(mm.0.take(plen as int) != prefix@);
                    assert(!pred(mm));
                }
            }
        } else {
            proof {
                assert(!pred(mm));
            }
        }
        if keep {
            sel.push(crate::index::duplicate_entry(e));
            proof {
                assert(crate::index::models(sel@).drop_last() =~= mfull.take(i as int).filter(
                    pred,
                ));
                assert(crate::index::models(sel@) =~= mfull.take(i + 1).filter(pred));
            }
        } else {
            proof {
                assert(crate::index::models(sel@) =~= mfull.take(i + 1).filter(pred));
            }
        }
        i += 1;
    }
    proof {
        assert(mfull.take(n as int) =~= mfull);
        assert(crate::index::models(sel@) == selected_models(mfull, prefix@));
    }
    if sel.len() == 0 {
        proof {
            assert(selected_models(mfull, prefix@).len() == 0);
            assert(tree_runs(selected_models(mfull, prefix@), sel_start(prefix@)) == Seq::<(
                bool,
                Seq<u8>,
                Seq<u8>,
            )>::empty());
        }
        return empty_tree(store);
    }
    // the selection meets the builder's preconditions by construction
    proof {
        let msel = crate::index::models(sel@);
        assert forall|t: int| 0 <= t < sel@.len() implies (start as int) < (
        #[trigger] sel@[t]).path@.len() && path_wf(sel@[t].path@.skip(start as int)) && sel@[
            t
        ].sha@.len() == 20 by {
            lemma_path_suffix_wf(sel@[t].path@, plen as int);
        }
        assert(rems_wf(sel@, start as int));
        assert forall|i2: int, j2: int| 0 <= i2 < j2 < mfull.len() implies lex_lt(
            (#[trigger] mfull[i2]).0,
            (#[trigger] mfull[j2]).0,
        ) by {
            assert(mfull[i2] == crate::index::model(entries@[i2]));
            assert(mfull[j2] == crate::index::model(entries@[j2]));
        }
        lemma_filter_sorted_m(mfull, pred);
        assert forall|p: int, q: int| 0 <= p < q < sel@.len() implies lex_lt(
            (#[trigger] sel@[p]).path@.skip(start as int),
            (#[trigger] sel@[q]).path@.skip(start as int),
        ) by {
            assert(msel[p] == crate::index::model(sel@[p]));
            assert(msel[q] == crate::index::model(sel@[q]));
            assert(lex_lt(sel@[p].path@, sel@[q].path@));
            assert forall|k: int| 0 <= k < plen + 1 implies sel@[p].path@[k] == sel@[q].path@[
                k
            ] by {
                if k < plen {
                    assert(sel@[p].path@.take(plen as int)[k] == prefix@[k]);
                    assert(sel@[q].path@.take(plen as int)[k] == prefix@[k]);
                }
            }
            lemma_lex_lt_skip_common(sel@[p].path@, sel@[q].path@, plen as int + 1);
        }
        assert(rems_sorted(sel@, start as int));
    }
    if !clash_free_check(sel.as_slice(), start) {
        proof {
            let msel = crate::index::models(sel@);
            assert(!no_clash(sel@, start as int));
            let (a, b) = choose|a: int, b: int|
                0 <= a < sel@.len() && 0 <= b < sel@.len() && dir_prefix_of(
                    sel@[a].path@.skip(start as int),
                    sel@[b].path@.skip(start as int),
                );
            assert(msel[a] == crate::index::model(sel@[a]));
            assert(msel[b] == crate::index::model(sel@[b]));
            assert(!no_clash_m(msel, start as int));
        }
        return Err(ItError::NameConflict);
    }
    proof {
        let msel = crate::index::models(sel@);
        assert forall|a: int, b: int|
            0 <= a < msel.len() && 0 <= b < msel.len() implies !dir_prefix_of(
            (#[trigger] msel[a]).0.skip(start as int),
            (#[trigger] msel[b]).0.skip(start as int),
        ) by {
            assert(msel[a] == crate::index::model(sel@[a]));
            assert(msel[b] == crate::index::model(sel@[b]));
        }
        assert(no_clash_m(msel, start as int));
    }
    let h = match build_tree_at(store, sel.as_slice(), start) {
        Ok(h) => h,
        Err(e) => {
            return Err(e);
        },
    };
    let s = crate::hashing::hex_encode(h.as_slice());
    proof {
        crate::hashing::lemma_hex_roundtrip(h@);
        assert(crate::index::models(sel@) == selected_models(mfull, prefix@));
        assert(start as int == sel_start(prefix@));
    }
    Ok(s)
}

/// Stores the tree object of an empty listing and hands back its hex name.
fn empty_tree(store: &mut ObjectStore) -> (r: Result<String, ItError>)
    requires
        old(store).wf(),
    ensures
        final(store).wf(),
        old(store)@.submap_of(final(store)@),
        match r {
            Ok(s) => {
                &&& hex_name(s@)
                &&& final(store)@.contains_key(hex_val_of(s@))
                &&& s@ == crate::hashing::hex_of(sha1_of(frame_of(ObjType::Tree, Seq::<u8>::empty())))
                &&& hex_val_of(s@) == sha1_of(frame_of(ObjType::Tree, Seq::<u8>::empty()))
                &&& final(store)@[hex_val_of(s@)] == frame_of(ObjType::Tree, Seq::<u8>::empty())
            },
            Err(e) => e == ItError::HashCollision && crate::store::digest_collision(
                final(store)@,
            ),
        },
{
    let payload: Vec<u8> = Vec::new();
    let h = match store.put(crate::objects::ObjType::Tree, payload.as_slice()) {
        Ok(h) => h,
        Err(e) => {
            return Err(e);
        },
    };
    let s = crate::hashing::hex_encode(h.as_slice());
    proof {
        crate::hashing::lemma_hex_roundtrip(h@);
    }
    Ok(s)
}

/// Round trip: building the tree of a sorted, clash-free index whose blobs
/// are in the store, then walking the resulting digest straight back,
/// reproduces exactly the staged file set: every staged path once, each
/// carrying the bytes its staged blob holds, in the tree's own name-ordered
/// traversal.
pub fn build_and_restore(store: &mut ObjectStore, entries: &Vec<IndexEntry>) -> (r: Result<
    Vec<(Vec<u8>, Vec<u8>)>,
    ItError,
>)
    requires
        old(store).wf(),
        entries@.len() > 0,
        entries_wf(entries@),
        entries_sorted(entries@),
        no_clash(entries@, 0),
        blobs_present(entries@, old(store)@),
        max_rem_len(entries@, 0) + 2 < 0x10000000000000000,
    ensures
        final(store).wf(),
        match r {
            Ok(v) => {
                &&& v@.len() == entries@.len()
                &&& file_models(v@).to_multiset() == Seq::new(
                    entries@.len(),
                    |i: int|
                        (
                            entries@[i].path@,
                            payload_after_nul(old(store)@[entries@[i].sha@])->0,
                        ),
                ).to_multiset()
            },
            Err(e) => e == ItError::HashCollision && crate::store::digest_collision(
                final(store)@,
            ),
        },
{
    let ghost m0 = old(store)@;
    let s = match write_tree(store, entries) {
        Ok(s) => s,
        Err(e) => {
            proof {
                assert(e == ItError::HashCollision);
            }
            return Err(e);
        },
    };
    // enough fuel for the deepest path
    let n = entries.len();
    let mut maxlen: usize = 0;
    let mut i: usize = 0;
    while i < n
        invariant
            n == entries@.len(),
            0 <= i <= n,
            forall|k: int| 0 <= k < i ==> (#[trigger] entries@[k]).path@.len() <= maxlen,
            i > 0 ==> exists|k: int| 0 <= k < i && (#[trigger] entries@[k]).path@.len() == maxlen,
            i == 0 ==> maxlen == 0,
        decreases n - i,
    {
        let l = vstd::slice::slice_index_get(entries.as_slice(), i).path.len();
        if l > maxlen {
            maxlen = l;
        }
        i += 1;
    }
    proof {
        lemma_max_rem_len_le(entries@, 0, maxlen as nat);
        let k = choose|k: int| 0 <= k < n && (#[trigger] entries@[k]).path@.len() == maxlen;
        lemma_max_rem_len_ge(entries@, 0, k);
        assert(max_rem_len(entries@, 0) == maxlen);
    }
    let h = crate::hashing::hex_to_sha_bytes(s.as_str());
    proof {
        assert(h@ == hex_val_of(s@));
    }
    let fuel: u64 = (maxlen as u64) + 2;
    let dirv: Vec<u8> = Vec::new();
    let files = match restore_tree(store, h.as_slice(), dirv.as_slice(), fuel) {
        Ok(v) => v,
        Err(e) => {
            proof {
                assert(walk(store@, h@, dirv@, fuel as nat) is Some);
                assert(false);
            }
            return Err(e);
        },
    };
    proof {
        broadcast use vstd::seq_lib::group_to_multiset_ensures;

        assert(walk(store@, h@, dirv@, fuel as nat) matches Some(wf2) && wf2.to_multiset()
            == expected_files(entries@, 0, dirv@, m0).to_multiset());
        assert(file_models(files@).to_multiset() == expected_files(
            entries@,
            0,
            dirv@,
            m0,
        ).to_multiset());
        let plain = Seq::new(
            entries@.len(),
            |i: int| (entries@[i].path@, payload_after_nul(m0[entries@[i].sha@])->0),
        );
        assert(expected_files(entries@, 0, dirv@, m0) =~= plain) by {
            assert forall|i2: int| 0 <= i2 < entries@.len() implies expected_files(
                entries@,
                0,
                dirv@,
                m0,
            )[i2] == plain[i2] by {
                assert(dirv@ + entries@[i2].path@.skip(0) =~= entries@[i2].path@);
            }
        }
        assert(file_models(files@).len() == files@.len());
        file_models(files@).to_multiset_ensures();
        plain.to_multiset_ensures();
        assert(files@.len() == entries@.len());
    }
    Ok(files)
}

} // verus!
