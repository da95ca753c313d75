//! The staging index: an ordered list of path/digest entries. Staging a path
//! again replaces its entry; before tree construction the list is sorted by
//! path, the invariant the tree builder stands on. The persisted form is a
//! length-prefixed binary encoding that round-trips the triples exactly.
use vstd::prelude::*;

use crate::byteops::{bytes_eq, bytes_lt, lex_le, lex_lt};
use vstd::bytes::{spec_u16_to_le_bytes, spec_u32_to_le_bytes, u16_from_le_bytes, u16_to_le_bytes,
    u32_from_le_bytes, u32_to_le_bytes, lemma_auto_spec_u16_to_from_le_bytes,
    lemma_auto_spec_u32_to_from_le_bytes};
use vstd::slice::{slice_subrange, slice_to_vec};
use crate::ItError;

verus! {

/// One staged path: where it sits, the digest of its staged blob, and the
/// flags word derived from the path length.
pub struct IndexEntry {
    pub path: Vec<u8>,
    pub sha: Vec<u8>,
    pub flags: u16,
}

/// The mathematical shadow of an entry: path bytes, digest bytes, flags.
pub open spec fn model(e: IndexEntry) -> (Seq<u8>, Seq<u8>, u16) {
    (e.path@, e.sha@, e.flags)
}

pub open spec fn models(s: Seq<IndexEntry>) -> Seq<(Seq<u8>, Seq<u8>, u16)> {
    s.map_values(|e: IndexEntry| model(e))
}

/// The flags word an entry carries: the path length, reduced mod 4096.
pub open spec fn flags_of(n: nat) -> u16 {
    (n % 4096) as u16
}

/// A staged path is non-empty, has no NUL, and no empty segment: no leading,
/// trailing or doubled separator.
pub open spec fn path_wf(p: Seq<u8>) -> bool {
    &&& p.len() > 0
    &&& p[0] != 47
    &&& p[p.len() - 1] != 47
    &&& forall|k: int| 0 <= k < p.len() ==> p[k] != 0
    &&& forall|k: int| 0 <= k < p.len() - 1 ==> !(#[trigger] p[k] == 47 && p[k + 1] == 47)
}

pub open spec fn entry_wf(e: IndexEntry) -> bool {
    path_wf(e.path@) && e.sha@.len() == 20
}

pub open spec fn entries_wf(s: Seq<IndexEntry>) -> bool {
    forall|i: int| 0 <= i < s.len() ==> entry_wf(#[trigger] s[i])
}

/// Strictly sorted by path: the hard invariant tree construction relies on.
pub open spec fn entries_sorted(s: Seq<IndexEntry>) -> bool {
    forall|i: int, j: int| 0 <= i < j < s.len() ==> lex_lt(s[i].path@, s[j].path@)
}

/// Copies an entry, field for field.
pub fn duplicate_entry(e: &IndexEntry) -> (r: IndexEntry)
    ensures
        model(r) == model(*e),
{
    let path = clone_bytes(&e.path);
    let sha = clone_bytes(&e.sha);
    IndexEntry { path, sha, flags: e.flags }
}

/// Copies a byte vector.
pub fn clone_bytes(v: &Vec<u8>) -> (r: Vec<u8>)
    ensures
        r@ == v@,
{
    let mut out: Vec<u8> = Vec::new();
    out.extend_from_slice(v.as_slice());
    assert(out@ =~= v@);
    out
}

/// Keeping an entry means its path is not the one being restaged.
pub open spec fn keeps_path(path: Seq<u8>) -> spec_fn((Seq<u8>, Seq<u8>, u16)) -> bool {
    |m: (Seq<u8>, Seq<u8>, u16)| m.0 != path
}

/// What staging does to the index: every prior entry for the path goes, and
/// one fresh entry for it lands at the end.
pub open spec fn stage_model(
    ms: Seq<(Seq<u8>, Seq<u8>, u16)>,
    path: Seq<u8>,
    sha: Seq<u8>,
) -> Seq<(Seq<u8>, Seq<u8>, u16)> {
    ms.filter(keeps_path(path)).push((path, sha, flags_of(path.len())))
}

/// Stages one path: any prior entry for the same path goes, and a fresh entry
/// for it lands at the end, carrying the digest of the staged content.
pub fn stage(entries: &mut Vec<IndexEntry>, path: Vec<u8>, sha: Vec<u8>)
    ensures
        models(final(entries)@) == stage_model(models(old(entries)@), path@, sha@),
{
    let ghost orig = entries@;
    let ghost pred = keeps_path(path@);
    let n = entries.len();
    let mut out: Vec<IndexEntry> = Vec::new();
    let mut i: usize = 0;
    while i < n
        invariant
            n == orig.len(),
            entries@ == orig,
            0 <= i <= n,
            models(out@) == models(orig.take(i as int)).filter(pred),
            pred == keeps_path(path@),
        decreases n - i,
    {
        proof {
            assert(models(orig.take(i + 1)).drop_last() =~= models(orig.take(i as int)));
            assert(models(orig.take(i + 1)).last() == model(orig[i as int]));
            reveal_with_fuel(Seq::filter, 2);
        }
        if !bytes_eq(entries[i].path.as_slice(), path.as_slice()) {
            out.push(duplicate_entry(&entries[i]));
            proof {
                assert(models(out@).drop_last() =~= models(orig.take(i as int)).filter(pred));
                assert(models(out@) =~= models(orig.take(i + 1)).filter(pred));
            }
        } else {
            proof {
                assert(models(out@) =~= models(orig.take(i + 1)).filter(pred));
            }
        }
        i += 1;
    }
    proof {
        assert(orig.take(n as int) =~= orig);
    }
    let flags: u16 = (path.len() % 4096) as u16;
    let ghost p = path@;
    let ghost s = sha@;
    out.push(IndexEntry { path, sha, flags });
    *entries = out;
    proof {
        assert(models(entries@) =~= models(orig).filter(pred).push((p, s, flags_of(p.len()))));
    }
}

/// Sorts the index by path, keeping exactly the same entries: a selection
/// sort, smallest path first.
pub fn sort_entries(entries: &mut Vec<IndexEntry>)
    ensures
        models(final(entries)@).to_multiset() == models(old(entries)@).to_multiset(),
        final(entries)@.len() == old(entries)@.len(),
        forall|i: int, j: int|
            0 <= i < j < final(entries)@.len() ==> lex_le(
                final(entries)@[i].path@,
                final(entries)@[j].path@,
            ),
        paths_distinct(models(old(entries)@)) ==> entries_sorted(final(entries)@),
{
    broadcast use vstd::seq_lib::group_to_multiset_ensures;
    broadcast use vstd::multiset::group_multiset_axioms;

    let ghost orig = entries@;
    let mut out: Vec<IndexEntry> = Vec::new();
    while entries.len() > 0
        invariant
            models(out@).to_multiset().add(models(entries@).to_multiset()) == models(
                orig,
            ).to_multiset(),
            forall|i: int, j: int|
                0 <= i < j < out@.len() ==> lex_le(out@[i].path@, out@[j].path@),
            forall|i: int, j: int|
                0 <= i < out@.len() && 0 <= j < entries@.len() ==> lex_le(
                    out@[i].path@,
                    entries@[j].path@,
                ),
            out@.len() + entries@.len() == orig.len(),
        decreases entries@.len(),
    {
        // index of the smallest remaining path
        let n = entries.len();
        let mut m: usize = 0;
        let mut k: usize = 1;
        while k < n
            invariant
                n == entries@.len(),
                0 <= m < n,
                m < k <= n || (m == 0 && k <= n),
                forall|j: int| 0 <= j < k ==> lex_le(entries@[m as int].path@, entries@[j].path@),
            decreases n - k,
        {
            if bytes_lt(entries[k].path.as_slice(), entries[m].path.as_slice()) {
                proof {
                    crate::byteops::lemma_lex_lt_connected(
                        entries@[k as int].path@,
                        entries@[m as int].path@,
                    );
                    assert forall|j: int| 0 <= j < k + 1 implies lex_le(
                        entries@[k as int].path@,
                        entries@[j].path@,
                    ) by {
                        if lex_lt(entries@[m as int].path@, entries@[j].path@) {
                            crate::byteops::lemma_lex_lt_transitive(
                                entries@[k as int].path@,
                                entries@[m as int].path@,
                                entries@[j].path@,
                            );
                        }
                    }
                }
                m = k;
            } else {
                proof {
                    crate::byteops::lemma_lex_lt_connected(
                        entries@[k as int].path@,
                        entries@[m as int].path@,
                    );
                }
            }
            k += 1;
        }
        let ghost before = entries@;
        let e = entries.remove(m);
        proof {
            models(before).to_multiset_ensures();
            assert(models(before)[m as int] == model(e));
            assert(models(before).contains(model(e)));
            assert(models(before).to_multiset().count(model(e)) > 0);
            assert(models(before.remove(m as int)) =~= models(before).remove(m as int));
            assert(models(before).remove(m as int).to_multiset() =~= models(
                before,
            ).to_multiset().remove(models(before)[m as int]));
            assert(models(entries@).to_multiset() =~= models(before).to_multiset().remove(
                model(e),
            ));
        }
        let ghost out_before = out@;
        out.push(e);
        proof {
            models(out@.drop_last()).to_multiset_ensures();
            assert(out@.drop_last() =~= out_before);
            assert(models(out@).drop_last() =~= models(out@.drop_last()));
            assert(models(out@) =~= models(out@.drop_last()).push(model(e)));
            assert(models(out@.drop_last()).push(model(e)).to_multiset() =~= models(
                out@.drop_last(),
            ).to_multiset().insert(model(e)));
            assert(models(out@).to_multiset() == models(out@.drop_last()).to_multiset().insert(
                model(e),
            ));
            assert forall|x: (Seq<u8>, Seq<u8>, u16)|
                models(out@).to_multiset().add(models(entries@).to_multiset()).count(x) == models(
                    orig,
                ).to_multiset().count(x) by {
                broadcast use vstd::multiset::group_multiset_axioms;

                assert(models(out@).to_multiset().count(x) == models(
                    out@.drop_last(),
                ).to_multiset().insert(model(e)).count(x));
                assert(models(out@.drop_last()).to_multiset().insert(model(e)).count(x) == models(
                    out@.drop_last(),
                ).to_multiset().count(x) + (if x == model(e) { 1int } else { 0int }));
                assert(models(entries@).to_multiset().count(x) == models(
                    before,
                ).to_multiset().remove(model(e)).count(x));
                assert(models(before).to_multiset().remove(model(e)).count(x) == models(
                    before,
                ).to_multiset().count(x) - (if x == model(e) { 1int } else { 0int }));
                assert(models(out_before).to_multiset().add(models(before).to_multiset()).count(x)
                    == models(orig).to_multiset().count(x));
                assert(models(out_before).to_multiset().add(models(before).to_multiset()).count(x)
                    == models(out_before).to_multiset().count(x) + models(
                    before,
                ).to_multiset().count(x));
                assert(models(out@).to_multiset().add(models(entries@).to_multiset()).count(x)
                    == models(out@).to_multiset().count(x) + models(
                    entries@,
                ).to_multiset().count(x));
            }
            assert(models(out@).to_multiset().add(models(entries@).to_multiset()) =~= models(
                orig,
            ).to_multiset());
        }
    }
    proof {
        assert forall|x: (Seq<u8>, Seq<u8>, u16)|
            models(out@).to_multiset().count(x) == models(orig).to_multiset().count(x) by {
            models(entries@).to_multiset_ensures();
            assert(models(entries@).to_multiset().count(x) == 0) by {
                models(entries@).to_multiset_ensures();
                if models(entries@).to_multiset().count(x) > 0 {
                    assert(models(entries@).contains(x));
                }
            }
        }
        assert(models(out@).to_multiset() =~= models(orig).to_multiset());
        if paths_distinct(models(orig)) {
            lemma_paths_distinct_permutation(models(orig), models(out@));
            lemma_sorted_distinct_strict(out@);
        }
    }
    *entries = out;
}

/// One entry's persisted form: path length, path, digest, flags.
pub open spec fn entry_enc(m: (Seq<u8>, Seq<u8>, u16)) -> Seq<u8> {
    spec_u32_to_le_bytes(m.0.len() as u32) + m.0 + m.1 + spec_u16_to_le_bytes(m.2)
}

/// The persisted index: entries in order, concatenated.
pub open spec fn index_enc(ms: Seq<(Seq<u8>, Seq<u8>, u16)>) -> Seq<u8>
    decreases ms.len(),
{
    if ms.len() == 0 {
        Seq::empty()
    } else {
        entry_enc(ms.first()) + index_enc(ms.drop_first())
    }
}

/// Writes the index in its persisted form.
pub fn encode_index(entries: &Vec<IndexEntry>) -> (r: Vec<u8>)
    requires
        forall|i: int|
            0 <= i < entries@.len() ==> (#[trigger] entries@[i]).path@.len() < 0x100000000 && entries@[i].sha@.len() == 20,
    ensures
        r@ == index_enc(models(entries@)),
{
    let mut out: Vec<u8> = Vec::new();
    let n = entries.len();
    let mut i: usize = 0;
    while i < n
        invariant
            n == entries@.len(),
            forall|k: int|
                0 <= k < entries@.len() ==> (#[trigger] entries@[k]).path@.len() < 0x100000000
                    && entries@[k].sha@.len() == 20,
            0 <= i <= n,
            out@ == index_enc(models(entries@.take(i as int))),
        decreases n - i,
    {
        let e = &entries[i];
        let lenb = u32_to_le_bytes(e.path.len() as u32);
        out.extend_from_slice(lenb.as_slice());
        out.extend_from_slice(e.path.as_slice());
        out.extend_from_slice(e.sha.as_slice());
        let fb = u16_to_le_bytes(e.flags);
        out.extend_from_slice(fb.as_slice());
        proof {
            lemma_index_enc_snoc(models(entries@.take(i + 1)));
            assert(models(entries@.take(i + 1)).drop_last() =~= models(entries@.take(i as int)));
            assert(out@ =~= index_enc(models(entries@.take(i as int))) + entry_enc(
                model(entries@[i as int]),
            ));
        }
        i += 1;
    }
    proof {
        assert(entries@.take(n as int) =~= entries@);
    }
    out
}

/// Appending one entry extends the encoding at the end.
pub proof fn lemma_index_enc_snoc(ms: Seq<(Seq<u8>, Seq<u8>, u16)>)
    requires
        ms.len() > 0,
    ensures
        index_enc(ms) == index_enc(ms.drop_last()) + entry_enc(ms.last()),
    decreases ms.len(),
{
    if ms.len() == 1 {
        assert(ms.drop_last().len() == 0);
        assert(index_enc(ms.drop_last()) + entry_enc(ms.last()) =~= entry_enc(ms.first()));
        assert(ms.drop_first().len() == 0);
        assert(index_enc(ms) =~= entry_enc(ms.first()) + index_enc(ms.drop_first()));
        assert(entry_enc(ms.first()) + index_enc(ms.drop_first()) =~= entry_enc(ms.first()));
    } else {
        lemma_index_enc_snoc(ms.drop_first());
        assert(ms.drop_first().drop_last() =~= ms.drop_last().drop_first());
        assert(ms.drop_first().last() == ms.last());
        assert(ms.drop_last().first() == ms.first());
        assert(index_enc(ms) == entry_enc(ms.first()) + index_enc(ms.drop_first()));
        assert(index_enc(ms.drop_last()) == entry_enc(ms.first()) + index_enc(
            ms.drop_last().drop_first(),
        ));
        assert(entry_enc(ms.first()) + (index_enc(ms.drop_last().drop_first()) + entry_enc(
            ms.last(),
        )) =~= (entry_enc(ms.first()) + index_enc(ms.drop_last().drop_first())) + entry_enc(
            ms.last(),
        ));
    }
}

/// A sequence whose members all pass the filter is left whole by it.
pub proof fn lemma_filter_all(s: Seq<(Seq<u8>, Seq<u8>, u16)>, pred: spec_fn((Seq<u8>, Seq<u8>, u16)) -> bool)
    requires
        forall|i: int| 0 <= i < s.len() ==> pred(#[trigger] s[i]),
    ensures
        s.filter(pred) == s,
    decreases s.len(),
{
    reveal_with_fuel(Seq::filter, 2);
    if s.len() > 0 {
        assert(forall|i: int| 0 <= i < s.len() - 1 ==> s.drop_last()[i] == s[i]);
        lemma_filter_all(s.drop_last(), pred);
        assert(pred(s.last()));
        assert(s.drop_last().push(s.last()) =~= s);
    }
}

/// Staging the same path twice leaves exactly one entry for it, holding the
/// digest staged last: the second staging makes the first as if it never
/// happened.
pub proof fn lemma_stage_twice(
    ms: Seq<(Seq<u8>, Seq<u8>, u16)>,
    path: Seq<u8>,
    h1: Seq<u8>,
    h2: Seq<u8>,
)
    ensures
        stage_model(stage_model(ms, path, h1), path, h2) == stage_model(ms, path, h2),
        stage_model(stage_model(ms, path, h1), path, h2).last() == (
            path,
            h2,
            flags_of(path.len()),
        ),
        forall|i: int|
            0 <= i < stage_model(stage_model(ms, path, h1), path, h2).len() - 1 ==> (
            #[trigger] stage_model(stage_model(ms, path, h1), path, h2)[i]).0 != path,
{
    let pred = keeps_path(path);
    let s1 = stage_model(ms, path, h1);
    reveal_with_fuel(Seq::filter, 2);
    assert(s1.drop_last() =~= ms.filter(pred));
    assert(!pred(s1.last()));
    assert(s1.filter(pred) == s1.drop_last().filter(pred));
    assert forall|i: int| 0 <= i < ms.filter(pred).len() implies pred(
        #[trigger] ms.filter(pred)[i],
    ) by {
        ms.lemma_filter_pred(pred, i);
    }
    lemma_filter_all(ms.filter(pred), pred);
    assert(s1.filter(pred) == ms.filter(pred));
    assert forall|i: int|
        0 <= i < stage_model(stage_model(ms, path, h1), path, h2).len() - 1 implies (
    #[trigger] stage_model(stage_model(ms, path, h1), path, h2)[i]).0 != path by {
        assert(stage_model(stage_model(ms, path, h1), path, h2)[i] == s1.filter(pred)[i]);
        s1.lemma_filter_pred(pred, i);
    }
}

/// The parse of the persisted index: a length-prefixed path, the 20 digest
/// bytes, and the two flag bytes, entry after entry, until nothing is left.
pub open spec fn index_dec(b: Seq<u8>) -> Option<Seq<(Seq<u8>, Seq<u8>, u16)>>
    decreases b.len(),
{
    if b.len() == 0 {
        Some(Seq::empty())
    } else if b.len() < 4 {
        None
    } else {
        let n = vstd::bytes::spec_u32_from_le_bytes(b.take(4)) as int;
        if b.len() < n + 26 {
            None
        } else {
            let path = b.subrange(4, 4 + n);
            let sha = b.subrange(4 + n, 24 + n);
            let flags = vstd::bytes::spec_u16_from_le_bytes(b.subrange(24 + n, 26 + n));
            match index_dec(b.skip(26 + n)) {
                None => None,
                Some(t) => Some(seq![(path, sha, flags)] + t),
            }
        }
    }
}

/// Decoding the persisted form hands back exactly the triples it was written
/// from: the index encoding round-trips.
pub proof fn lemma_index_roundtrip(ms: Seq<(Seq<u8>, Seq<u8>, u16)>)
    requires
        forall|i: int|
            0 <= i < ms.len() ==> (#[trigger] ms[i]).0.len() < 0x100000000 && ms[i].1.len() == 20,
    ensures
        index_dec(index_enc(ms)) == Some(ms),
    decreases ms.len(),
{
    lemma_auto_spec_u32_to_from_le_bytes();
    lemma_auto_spec_u16_to_from_le_bytes();
    if ms.len() == 0 {
        assert(index_enc(ms).len() == 0);
    } else {
        let m0 = ms.first();
        let b = index_enc(ms);
        let n = m0.0.len() as int;
        let head = entry_enc(m0);
        assert(head.len() == n + 26);
        assert(b == head + index_enc(ms.drop_first()));
        assert(b.len() >= n + 26);
        assert(b.take(4) =~= spec_u32_to_le_bytes(m0.0.len() as u32));
        assert(vstd::bytes::spec_u32_from_le_bytes(b.take(4)) == m0.0.len() as u32);
        assert(b.subrange(4, 4 + n) =~= m0.0);
        assert(b.subrange(4 + n, 24 + n) =~= m0.1);
        assert(b.subrange(24 + n, 26 + n) =~= spec_u16_to_le_bytes(m0.2));
        assert(b.skip(26 + n) =~= index_enc(ms.drop_first()));
        assert(forall|i: int| 0 <= i < ms.len() - 1 ==> ms.drop_first()[i] == ms[i + 1]);
        lemma_index_roundtrip(ms.drop_first());
        assert(seq![(m0.0, m0.1, m0.2)] + ms.drop_first() =~= ms);
        assert(b.len() != 0 && b.len() >= 4);
    }
}

/// Reads a persisted index back into its entries; a truncated or oversized
/// record is refused.
pub fn decode_index(b: &[u8]) -> (r: Result<Vec<IndexEntry>, ItError>)
    ensures
        match r {
            Ok(v) => index_dec(b@) == Some(models(v@)),
            Err(e) => e == ItError::MalformedObject && index_dec(b@) is None,
        },
{
    let n = b.len();
    let mut acc: Vec<IndexEntry> = Vec::new();
    let mut pos: usize = 0;
    proof {
        assert(b@.skip(0int) =~= b@);
        match index_dec(b@) {
            Some(t) => {
                assert(models(acc@) + t =~= t);
            },
            None => {},
        }
    }
    while pos < n
        invariant
            n == b@.len(),
            0 <= pos <= n,
            match index_dec(b@.skip(pos as int)) {
                Some(tail) => index_dec(b@) == Some(models(acc@) + tail),
                None => index_dec(b@) is None,
            },
        decreases n - pos,
    {
        let ghost suf = b@.skip(pos as int);
        if n - pos < 4 {
            return Err(ItError::MalformedObject);
        }
        let lenb = slice_subrange(b, pos, pos + 4);
        proof {
            assert(lenb@ =~= suf.take(4));
        }
        let plen32 = u32_from_le_bytes(lenb);
        let plen = plen32 as usize;
        if n - pos < 26 || n - pos - 26 < plen {
            proof {
                assert(suf.len() < plen + 26);
            }
            return Err(ItError::MalformedObject);
        }
        let path = slice_to_vec(slice_subrange(b, pos + 4, pos + 4 + plen));
        let sha = slice_to_vec(slice_subrange(b, pos + 4 + plen, pos + 24 + plen));
        let fb = slice_subrange(b, pos + 24 + plen, pos + 26 + plen);
        let flags = u16_from_le_bytes(fb);
        proof {
            assert(path@ =~= suf.subrange(4, 4 + plen as int));
            assert(sha@ =~= suf.subrange(4 + plen as int, 24 + plen as int));
            assert(fb@ =~= suf.subrange(24 + plen as int, 26 + plen as int));
            assert(b@.skip(pos + 26 + plen) =~= suf.skip(26 + plen as int));
        }
        let ghost accm = models(acc@);
        acc.push(IndexEntry { path, sha, flags });
        proof {
            assert(models(acc@) =~= accm.push((suf.subrange(4, 4 + plen as int), suf.subrange(
                4 + plen as int,
                24 + plen as int,
            ), flags)));
            match index_dec(b@.skip(pos + 26 + plen)) {
                Some(t2) => {
                    assert(index_dec(suf) == Some(seq![(suf.subrange(4, 4 + plen as int),
                        suf.subrange(4 + plen as int, 24 + plen as int), flags)] + t2));
                    assert(models(acc@) + t2 =~= accm + (seq![(suf.subrange(4, 4 + plen as int),
                        suf.subrange(4 + plen as int, 24 + plen as int), flags)] + t2));
                },
                None => {},
            }
        }
        pos = pos + 26 + plen;
    }
    proof {
        assert(b@.skip(pos as int) =~= Seq::<u8>::empty());
        assert(models(acc@) + Seq::<(Seq<u8>, Seq<u8>, u16)>::empty() =~= models(acc@));
    }
    Ok(acc)
}

/// No two entries name the same path.
pub open spec fn paths_distinct(ms: Seq<(Seq<u8>, Seq<u8>, u16)>) -> bool {
    forall|i: int, j: int| 0 <= i < j < ms.len() ==> (#[trigger] ms[i]).0 != (#[trigger] ms[j]).0
}

/// Filtering keeps paths distinct, and every kept triple was already there.
proof fn lemma_filter_paths_distinct(
    ms: Seq<(Seq<u8>, Seq<u8>, u16)>,
    pred: spec_fn((Seq<u8>, Seq<u8>, u16)) -> bool,
)
    requires
        paths_distinct(ms),
    ensures
        paths_distinct(ms.filter(pred)),
        forall|k: int| 0 <= k < ms.filter(pred).len() ==> ms.contains(#[trigger] ms.filter(pred)[k]),
    decreases ms.len(),
{
    reveal_with_fuel(Seq::filter, 2);
    if ms.len() == 0 {
    } else {
        let dl = ms.drop_last();
        assert(forall|i: int| 0 <= i < dl.len() ==> dl[i] == ms[i]);
        lemma_filter_paths_distinct(dl, pred);
        let f0 = dl.filter(pred);
        if pred(ms.last()) {
            assert(ms.filter(pred) == f0.push(ms.last()));
            assert forall|i: int, j: int|
                0 <= i < j < ms.filter(pred).len() implies (#[trigger] ms.filter(pred)[i]).0 != (
            #[trigger] ms.filter(pred)[j]).0 by {
                if j == ms.filter(pred).len() - 1 {
                    // the pushed triple is the last of `ms`; the kept one sits earlier
                    assert(dl.contains(f0[i]));
                    let k = choose|k: int| 0 <= k < dl.len() && dl[k] == f0[i];
                    assert(ms[k] == f0[i]);
                    assert(ms[k].0 != ms[ms.len() - 1].0);
                }
            }
            assert forall|k: int| 0 <= k < ms.filter(pred).len() implies ms.contains(
                #[trigger] ms.filter(pred)[k],
            ) by {
                if k < ms.filter(pred).len() - 1 {
                    assert(dl.contains(f0[k]));
                    let t = choose|t: int| 0 <= t < dl.len() && dl[t] == f0[k];
                    assert(ms[t] == ms.filter(pred)[k]);
                } else {
                    assert(ms[ms.len() - 1] == ms.filter(pred)[k]);
                }
            }
        } else {
            assert(ms.filter(pred) == f0);
            assert forall|k: int| 0 <= k < f0.len() implies ms.contains(#[trigger] f0[k]) by {
                assert(dl.contains(f0[k]));
                let t = choose|t: int| 0 <= t < dl.len() && dl[t] == f0[k];
                assert(ms[t] == f0[k]);
            }
        }
    }
}

/// Staging keeps paths distinct: the staged path's old entries go, and the
/// fresh entry is the only one for it.
pub proof fn lemma_stage_keeps_distinct(
    ms: Seq<(Seq<u8>, Seq<u8>, u16)>,
    path: Seq<u8>,
    sha: Seq<u8>,
)
    requires
        paths_distinct(ms),
    ensures
        paths_distinct(stage_model(ms, path, sha)),
{
    let pred = keeps_path(path);
    lemma_filter_paths_distinct(ms, pred);
    let f = ms.filter(pred);
    assert forall|i: int, j: int|
        0 <= i < j < stage_model(ms, path, sha).len() implies (#[trigger] stage_model(
        ms,
        path,
        sha,
    )[i]).0 != (#[trigger] stage_model(ms, path, sha)[j]).0 by {
        if j == stage_model(ms, path, sha).len() - 1 {
            ms.lemma_filter_pred(pred, i);
        }
    }
}

/// Rearranging entries keeps paths distinct.
pub proof fn lemma_paths_distinct_permutation(
    a: Seq<(Seq<u8>, Seq<u8>, u16)>,
    b: Seq<(Seq<u8>, Seq<u8>, u16)>,
)
    requires
        a.to_multiset() == b.to_multiset(),
        paths_distinct(a),
    ensures
        paths_distinct(b),
{
    broadcast use vstd::multiset::group_multiset_axioms;

    a.to_multiset_ensures();
    b.to_multiset_ensures();
    assert forall|i: int, j: int| 0 <= i < j < b.len() implies (#[trigger] b[i]).0 != (
    #[trigger] b[j]).0 by {
        if b[i].0 == b[j].0 {
            assert(b.contains(b[i])) by {
                assert(0 <= i < b.len() && b[i] == b[i]);
            }
            assert(b.contains(b[j])) by {
                assert(0 <= j < b.len() && b[j] == b[j]);
            }
            assert(b.to_multiset().count(b[i]) > 0);
            assert(b.to_multiset().count(b[j]) > 0);
            assert(a.to_multiset().count(b[i]) > 0);
            assert(a.to_multiset().count(b[j]) > 0);
            assert(a.contains(b[i]));
            assert(a.contains(b[j]));
            if b[i] == b[j] {
                // one triple at two positions: it counts at least twice,
                // which a repetition-free sequence cannot match
                let s0 = b.subrange(0, j);
                let s1 = b.subrange(j, b.len() as int);
                assert(b =~= s0 + s1);
                vstd::seq_lib::lemma_multiset_commutative(s0, s1);
                s0.to_multiset_ensures();
                s1.to_multiset_ensures();
                assert(s0[i] == b[i]);
                assert(s0.contains(b[i]));
                assert(s1[0] == b[j]);
                assert(s1.contains(b[i]));
                assert(b.to_multiset().count(b[i]) >= 2);
                assert(a.no_duplicates()) by {
                    assert forall|p: int, q: int|
                        0 <= p < q < a.len() implies a[p] != a[q] by {
                        assert(a[p].0 != a[q].0);
                    }
                }
                a.lemma_multiset_has_no_duplicates();
                assert(a.to_multiset().count(b[i]) == 1);
            } else {
                let p = choose|p: int| 0 <= p < a.len() && a[p] == b[i];
                let q = choose|q: int| 0 <= q < a.len() && a[q] == b[j];
                assert(a[p].0 == a[q].0 && p != q);
                if p < q {
                } else {
                    assert(a[q].0 != a[p].0);
                }
            }
        }
    }
}

/// A weakly sorted index with distinct paths is strictly sorted: the hard
/// invariant tree construction relies on is established, not just assumed.
pub proof fn lemma_sorted_distinct_strict(s: Seq<IndexEntry>)
    requires
        forall|i: int, j: int| 0 <= i < j < s.len() ==> lex_le(s[i].path@, s[j].path@),
        paths_distinct(models(s)),
    ensures
        entries_sorted(s),
{
    assert forall|i: int, j: int| 0 <= i < j < s.len() implies lex_lt(
        s[i].path@,
        s[j].path@,
    ) by {
        assert(lex_le(s[i].path@, s[j].path@));
        assert(models(s)[i].0 != models(s)[j].0);
    }
}

} // verus!
