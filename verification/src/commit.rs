//! Commit objects and history navigation: assembling the ordered header
//! lines over a tree and an optional parent, reading those lines back, the
//! branch-ref map, and the reset step that moves a ref to its parent.
use vstd::prelude::*;

use crate::byteops::{bytes_eq, dec_of, find_byte, find_byte_exec, lemma_find_byte_concat,
    lemma_find_byte_props, push_dec};
use crate::hashing::sha1_of;
use crate::objects::{frame_of, payload_after_nul, ObjType};
use crate::tree::{tree_payload, tree_runs};
use crate::store::ObjectStore;
use crate::ItError;
use vstd::slice::{slice_subrange, slice_to_vec};

verus! {

/// The lowercase hex digit byte for a nibble.
pub open spec fn hex_digit_byte(v: u8) -> u8
    recommends
        v < 16,
{
    if v < 10 {
        (48 + v) as u8
    } else {
        (87 + v) as u8
    }
}

/// Lowercase hex of a digest, as ASCII bytes.
pub open spec fn hex_bytes_of(bs: Seq<u8>) -> Seq<u8> {
    Seq::new(
        bs.len() * 2,
        |i: int|
            if i % 2 == 0 {
                hex_digit_byte(bs[i / 2] / 16)
            } else {
                hex_digit_byte(bs[i / 2] % 16)
            },
    )
}

/// The nibble an ASCII hex byte stands for; 16 marks a non-digit.
pub open spec fn byte_hex_val(b: u8) -> u8 {
    if 48 <= b <= 57 {
        (b - 48) as u8
    } else if 97 <= b <= 102 {
        (b - 87) as u8
    } else if 65 <= b <= 70 {
        (b - 55) as u8
    } else {
        16
    }
}

pub open spec fn is_hex_byte(b: u8) -> bool {
    byte_hex_val(b) < 16
}

/// The digest an ASCII hex run stands for.
pub open spec fn hex_bytes_val(s: Seq<u8>) -> Seq<u8> {
    Seq::new(s.len() / 2, |i: int| (16 * byte_hex_val(s[2 * i]) + byte_hex_val(s[2 * i + 1])) as u8)
}

/// Byte-level hex decoding inverts byte-level hex encoding.
pub proof fn lemma_hex_bytes_roundtrip(bs: Seq<u8>)
    ensures
        hex_bytes_val(hex_bytes_of(bs)) =~= bs,
        forall|k: int| 0 <= k < hex_bytes_of(bs).len() ==> is_hex_byte(#[trigger] hex_bytes_of(bs)[k]),
        forall|k: int| 0 <= k < hex_bytes_of(bs).len() ==> #[trigger] hex_bytes_of(bs)[k] != 10,
{
    assert forall|i: int| 0 <= i < bs.len() implies hex_bytes_val(hex_bytes_of(bs))[i] == bs[i] by {
        assert(hex_bytes_of(bs)[2 * i] == hex_digit_byte(bs[i] / 16));
        assert(hex_bytes_of(bs)[2 * i + 1] == hex_digit_byte(bs[i] % 16));
    }
    assert forall|k: int| 0 <= k < hex_bytes_of(bs).len() implies is_hex_byte(
        #[trigger] hex_bytes_of(bs)[k],
    ) && hex_bytes_of(bs)[k] != 10 by {
        let i = k / 2;
        if k % 2 == 0 {
            assert(hex_bytes_of(bs)[k] == hex_digit_byte(bs[i] / 16));
        } else {
            assert(hex_bytes_of(bs)[k] == hex_digit_byte(bs[i] % 16));
        }
    }
}

/// Appends the hex name of a digest.
pub fn push_hex(out: &mut Vec<u8>, bs: &[u8])
    ensures
        final(out)@ == old(out)@ + hex_bytes_of(bs@),
{
    let n = bs.len();
    let mut i: usize = 0;
    while i < n
        invariant
            n == bs@.len(),
            0 <= i <= n,
            out@ == old(out)@ + hex_bytes_of(bs@.take(i as int)),
        decreases n - i,
    {
        let b = bs[i];
        let hi = b / 16;
        let lo = b % 16;
        out.push(if hi < 10 { 48 + hi } else { 87 + hi });
        out.push(if lo < 10 { 48 + lo } else { 87 + lo });
        proof {
            assert(out@ =~= old(out)@ + hex_bytes_of(bs@.take(i + 1))) by {
                assert forall|k: int| 0 <= k < 2 * (i + 1) implies #[trigger] hex_bytes_of(
                    bs@.take(i + 1),
                )[k] == (hex_bytes_of(bs@.take(i as int)) + seq![
                    hex_digit_byte(bs@[i as int] / 16),
                    hex_digit_byte(bs@[i as int] % 16),
                ])[k] by {
                    assert(bs@.take(i + 1)[k / 2] == bs@[k / 2]);
                    if k < 2 * i {
                        assert(hex_bytes_of(bs@.take(i as int))[k] == hex_bytes_of(
                            bs@.take(i + 1),
                        )[k]) by {
                            assert(bs@.take(i as int)[k / 2] == bs@[k / 2]);
                        }
                    }
                }
                assert(hex_bytes_of(bs@.take(i + 1)) =~= hex_bytes_of(bs@.take(i as int)) + seq![
                    hex_digit_byte(bs@[i as int] / 16),
                    hex_digit_byte(bs@[i as int] % 16),
                ]);
            }
        }
        i += 1;
    }
    proof {
        assert(bs@.take(n as int) =~= bs@);
    }
}

/// Reads a 40-byte ASCII hex run back into its 20 digest bytes; anything
/// else is refused.
pub fn parse_hex_digest(v: &[u8]) -> (r: Result<Vec<u8>, ItError>)
    ensures
        match r {
            Ok(d) => v@.len() == 40 && (forall|k: int| 0 <= k < 40 ==> is_hex_byte(#[trigger] v@[k]))
                && d@ == hex_bytes_val(v@) && d@.len() == 20,
            Err(e) => e == ItError::MalformedObject && !(v@.len() == 40 && forall|k: int|
                0 <= k < 40 ==> is_hex_byte(#[trigger] v@[k])),
        },
{
    if v.len() != 40 {
        return Err(ItError::MalformedObject);
    }
    let mut out: Vec<u8> = Vec::new();
    let mut i: usize = 0;
    while i < 20
        invariant
            v@.len() == 40,
            0 <= i <= 20,
            out@.len() == i,
            forall|k: int| 0 <= k < 2 * i ==> is_hex_byte(#[trigger] v@[k]),
            forall|k: int| 0 <= k < i ==> out@[k] == hex_bytes_val(v@)[k],
        decreases 20 - i,
    {
        let a = v[2 * i];
        let b = v[2 * i + 1];
        let av = hex_byte_val_exec(a);
        let bv = hex_byte_val_exec(b);
        if av >= 16 || bv >= 16 {
            return Err(ItError::MalformedObject);
        }
        out.push(16 * av + bv);
        i += 1;
    }
    assert(out@ =~= hex_bytes_val(v@));
    Ok(out)
}

fn hex_byte_val_exec(b: u8) -> (r: u8)
    ensures
        r == byte_hex_val(b),
{
    if 48 <= b && b <= 57 {
        b - 48
    } else if 97 <= b && b <= 102 {
        b - 87
    } else if 65 <= b && b <= 70 {
        b - 55
    } else {
        16
    }
}

pub open spec fn is_ws(b: u8) -> bool {
    b == 32 || b == 9 || b == 10 || b == 13
}

/// The run left after dropping leading and trailing ASCII whitespace.
pub open spec fn trim_front(b: Seq<u8>) -> Seq<u8>
    decreases b.len(),
{
    if b.len() > 0 && is_ws(b[0]) {
        trim_front(b.skip(1))
    } else {
        b
    }
}

pub open spec fn trim_back(b: Seq<u8>) -> Seq<u8>
    decreases b.len(),
{
    if b.len() > 0 && is_ws(b[b.len() - 1]) {
        trim_back(b.take(b.len() - 1))
    } else {
        b
    }
}

pub open spec fn trim_of(b: Seq<u8>) -> Seq<u8> {
    trim_back(trim_front(b))
}

proof fn lemma_trim_front_skip(b: Seq<u8>, lo: int)
    requires
        0 <= lo <= b.len(),
        forall|k: int| 0 <= k < lo ==> is_ws(b[k]),
        lo < b.len() ==> !is_ws(b[lo]),
    ensures
        trim_front(b) == b.skip(lo),
    decreases lo,
{
    if lo == 0 {
        assert(b.skip(0) =~= b);
        if b.len() > 0 {
        }
    } else {
        assert(is_ws(b[0]));
        assert(b.skip(1).skip(lo - 1) =~= b.skip(lo));
        assert(forall|k: int| 0 <= k < lo - 1 ==> b.skip(1)[k] == b[k + 1]);
        lemma_trim_front_skip(b.skip(1), lo - 1);
    }
}

proof fn lemma_trim_back_take(b: Seq<u8>, hi: int)
    requires
        0 <= hi <= b.len(),
        forall|k: int| hi <= k < b.len() ==> is_ws(b[k]),
        hi > 0 ==> !is_ws(b[hi - 1]),
    ensures
        trim_back(b) == b.take(hi),
    decreases b.len(),
{
    if hi == b.len() {
        assert(b.take(hi) =~= b);
        if b.len() > 0 {
        }
    } else {
        assert(is_ws(b[b.len() - 1]));
        assert(b.take(b.len() - 1).take(hi) =~= b.take(hi));
        assert(forall|k: int| 0 <= k < b.len() - 1 ==> b.take(b.len() - 1)[k] == b[k]);
        lemma_trim_back_take(b.take(b.len() - 1), hi);
    }
}

/// Drops leading and trailing ASCII whitespace.
pub fn trim_bytes(v: &[u8]) -> (r: Vec<u8>)
    ensures
        r@ == trim_of(v@),
{
    let n = v.len();
    let mut lo: usize = 0;
    while lo < n && (v[lo] == 32 || v[lo] == 9 || v[lo] == 10 || v[lo] == 13)
        invariant
            n == v@.len(),
            0 <= lo <= n,
            forall|k: int| 0 <= k < lo ==> is_ws(v@[k]),
        decreases n - lo,
    {
        lo += 1;
    }
    proof {
        lemma_trim_front_skip(v@, lo as int);
    }
    let mut hi: usize = n;
    while hi > lo && (v[hi - 1] == 32 || v[hi - 1] == 9 || v[hi - 1] == 10 || v[hi - 1] == 13)
        invariant
            n == v@.len(),
            lo <= hi <= n,
            forall|k: int| 0 <= k < lo ==> is_ws(v@[k]),
            forall|k: int| hi <= k < n ==> is_ws(v@[k]),
        decreases hi,
    {
        hi -= 1;
    }
    let ghost tf = trim_front(v@);
    proof {
        assert(tf == v@.skip(lo as int));
        assert(tf.len() == n - lo);
        assert(forall|k: int| 0 <= k < tf.len() ==> tf[k] == v@[k + lo]);
        lemma_trim_back_take(tf, hi - lo);
        assert(tf.take(hi - lo) =~= v@.subrange(lo as int, hi as int));
    }
    slice_to_vec(slice_subrange(v, lo, hi))
}

/// The first line opening with `tag`, scanned line by line: what follows the
/// tag on that line, or nothing if no line opens with it.
pub open spec fn find_line_with(b: Seq<u8>, tag: Seq<u8>) -> Option<Seq<u8>>
    decreases b.len(),
    via find_line_with_decreases
{
    if b.len() == 0 {
        None
    } else {
        let e = match find_byte(b, 10) {
            Some(i) => i,
            None => b.len() as int,
        };
        let line = b.take(e);
        if line.len() >= tag.len() && line.take(tag.len() as int) == tag {
            Some(line.skip(tag.len() as int))
        } else if e == b.len() {
            None
        } else {
            find_line_with(b.skip(e + 1), tag)
        }
    }
}

#[via_fn]
proof fn find_line_with_decreases(b: Seq<u8>, tag: Seq<u8>) {
    if b.len() > 0 {
        lemma_find_byte_props(b, 10);
    }
}

/// Scanning a text that opens with a line free of newlines either matches
/// that line or moves past it.
pub proof fn lemma_find_line_step(line: Seq<u8>, rest: Seq<u8>, tag: Seq<u8>)
    requires
        forall|k: int| 0 <= k < line.len() ==> line[k] != 10,
        tag.len() > 0,
    ensures
        find_line_with(line + seq![10u8] + rest, tag) == if line.len() >= tag.len() && line.take(
            tag.len() as int,
        ) == tag {
            Some(line.skip(tag.len() as int))
        } else {
            find_line_with(rest, tag)
        },
{
    let b = line + seq![10u8] + rest;
    assert(b =~= line + (seq![10u8] + rest));
    lemma_find_byte_concat(line, seq![10u8] + rest, 10);
    assert(find_byte(seq![10u8] + rest, 10) == Some(0int));
    assert(find_byte(b, 10) == Some(line.len() as int));
    assert(b.len() > 0);
    assert(b.take(line.len() as int) =~= line);
    assert(b.skip(line.len() as int + 1) =~= rest);
    if line.len() >= tag.len() && line.take(tag.len() as int) == tag {
    }
}

/// A text that is one line, with no newline at all.
pub proof fn lemma_find_line_last(line: Seq<u8>, tag: Seq<u8>)
    requires
        tag.len() > 0,
        forall|k: int| 0 <= k < line.len() ==> line[k] != 10,
    ensures
        find_line_with(line, tag) == if line.len() >= tag.len() && line.take(tag.len() as int)
            == tag {
            Some(line.skip(tag.len() as int))
        } else {
            None::<Seq<u8>>
        },
{
    if line.len() > 0 {
        lemma_find_byte_props(line, 10);
        assert(find_byte(line, 10) is None);
        assert(line.take(line.len() as int) =~= line);
    }
}

/// The tag of the parent header line.
pub open spec fn parent_tag() -> Seq<u8> {
    seq![112u8, 97u8, 114u8, 101u8, 110u8, 116u8, 32u8]
}

/// The tag of the tree header line.
pub open spec fn tree_tag() -> Seq<u8> {
    seq![116u8, 114u8, 101u8, 101u8, 32u8]
}

/// Scans a commit payload for the line opening with `tag`.
pub fn find_line_exec(b: &[u8], tag: &[u8]) -> (r: Option<Vec<u8>>)
    requires
        tag@.len() > 0,
    ensures
        match r {
            Some(v) => find_line_with(b@, tag@) == Some(v@),
            None => find_line_with(b@, tag@) is None,
        },
{
    let n = b.len();
    let tn = tag.len();
    let mut pos: usize = 0;
    proof {
        assert(b@.skip(0int) =~= b@);
    }
    while pos < n
        invariant
            n == b@.len(),
            tn == tag@.len(),
            tn > 0,
            0 <= pos <= n,
            find_line_with(b@, tag@) == find_line_with(b@.skip(pos as int), tag@),
        decreases n - pos,
    {
        let ghost suf = b@.skip(pos as int);
        let rest = slice_subrange(b, pos, n);
        proof {
            assert(rest@ =~= suf);
            lemma_find_byte_props(rest@, 10);
        }
        let e = match find_byte_exec(rest, 10) {
            Some(i) => i,
            None => rest.len(),
        };
        let line = slice_subrange(rest, 0, e);
        proof {
            assert(line@ =~= suf.take(e as int));
        }
        if line.len() >= tn {
            let opening = slice_subrange(line, 0, tn);
            if bytes_eq(opening, tag) {
                let tail = slice_to_vec(slice_subrange(line, tn, line.len()));
                proof {
                    assert(opening@ =~= line@.take(tn as int));
                    assert(tail@ =~= line@.skip(tn as int));
                }
                return Some(tail);
            }
        }
        if e == n - pos {
            proof {
                assert(find_line_with(suf, tag@) is None);
            }
            return None;
        }
        proof {
            assert(suf.skip(e as int + 1) =~= b@.skip(pos + e + 1));
        }
        pos = pos + e + 1;
    }
    proof {
        assert(b@.skip(pos as int) =~= Seq::<u8>::empty());
    }
    None
}

/// Decimal rendering of a signed timestamp.
pub open spec fn dec_signed_of(n: int) -> Seq<u8> {
    if n < 0 {
        seq![45u8] + dec_of((-n) as nat)
    } else {
        dec_of(n as nat)
    }
}

/// The text of a commit object: the `tree` line, the `parent` line when a
/// parent exists, the `author` and `committer` lines, a blank line, then the
/// message.
pub open spec fn commit_text(
    tree_hex: Seq<u8>,
    parent_hex: Option<Seq<u8>>,
    name: Seq<u8>,
    email: Seq<u8>,
    ts: int,
    tz: Seq<u8>,
    msg: Seq<u8>,
) -> Seq<u8> {
    let person = name + seq![32u8, 60u8] + email + seq![62u8, 32u8] + dec_signed_of(ts) + seq![32u8]
        + tz;
    tree_tag() + tree_hex + seq![10u8] + (match parent_hex {
        Some(p) => parent_tag() + p + seq![10u8],
        None => Seq::<u8>::empty(),
    }) + seq![97u8, 117u8, 116u8, 104u8, 111u8, 114u8, 32u8] + person + seq![10u8] + seq![
        99u8, 111u8, 109u8, 109u8, 105u8, 116u8, 116u8, 101u8, 114u8, 32u8,
    ] + person + seq![10u8, 10u8] + msg
}

/// Builds the commit text.
#[verifier::rlimit(60)]
pub fn build_commit_text(
    tree_hex: &[u8],
    parent_hex: Option<&Vec<u8>>,
    name: &[u8],
    email: &[u8],
    ts: i64,
    tz: &[u8],
    msg: &[u8],
) -> (r: Vec<u8>)
    requires
        ts != i64::MIN,
    ensures
        r@ == commit_text(
            tree_hex@,
            match parent_hex {
                Some(p) => Some(p@),
                None => None,
            },
            name@,
            email@,
            ts as int,
            tz@,
            msg@,
        ),
{
    let mut out: Vec<u8> = Vec::new();
    out.push(116);
    out.push(114);
    out.push(101);
    out.push(101);
    out.push(32);
    out.extend_from_slice(tree_hex);
    out.push(10);
    match parent_hex {
        Some(p) => {
            out.push(112);
            out.push(97);
            out.push(114);
            out.push(101);
            out.push(110);
            out.push(116);
            out.push(32);
            out.extend_from_slice(p.as_slice());
            out.push(10);
        },
        None => {},
    }
    let ghost header = out@;
    out.push(97);
    out.push(117);
    out.push(116);
    out.push(104);
    out.push(111);
    out.push(114);
    out.push(32);
    push_person(&mut out, name, email, ts, tz);
    out.push(10);
    out.push(99);
    out.push(111);
    out.push(109);
    out.push(109);
    out.push(105);
    out.push(116);
    out.push(116);
    out.push(101);
    out.push(114);
    out.push(32);
    push_person(&mut out, name, email, ts, tz);
    out.push(10);
    out.push(10);
    out.extend_from_slice(msg);
    proof {
        assert(out@ =~= commit_text(
            tree_hex@,
            match parent_hex {
                Some(p) => Some(p@),
                None => None,
            },
            name@,
            email@,
            ts as int,
            tz@,
            msg@,
        ));
    }
    out
}

fn push_person(out: &mut Vec<u8>, name: &[u8], email: &[u8], ts: i64, tz: &[u8])
    requires
        ts != i64::MIN,
    ensures
        final(out)@ == old(out)@ + (name@ + seq![32u8, 60u8] + email@ + seq![62u8, 32u8]
            + dec_signed_of(ts as int) + seq![32u8] + tz@),
{
    out.extend_from_slice(name);
    out.push(32);
    out.push(60);
    out.extend_from_slice(email);
    out.push(62);
    out.push(32);
    if ts < 0 {
        out.push(45);
        push_dec(out, (-ts) as u64);
    } else {
        push_dec(out, ts as u64);
    }
    out.push(32);
    out.extend_from_slice(tz);
    assert(final(out)@ =~= old(out)@ + (name@ + seq![32u8, 60u8] + email@ + seq![62u8, 32u8]
        + dec_signed_of(ts as int) + seq![32u8] + tz@));
}

/// Lines of a commit body carry no stray newline and cannot open with a
/// header tag by accident.
pub open spec fn header_field_wf(s: Seq<u8>) -> bool {
    forall|k: int| 0 <= k < s.len() ==> s[k] != 10
}

/// The parent line of a commit text is exactly the parent it was built with:
/// present if and only if one was given, and carrying its very bytes.
pub proof fn lemma_commit_parent_line(
    tree_hex: Seq<u8>,
    parent_hex: Option<Seq<u8>>,
    name: Seq<u8>,
    email: Seq<u8>,
    ts: int,
    tz: Seq<u8>,
    msg: Seq<u8>,
)
    requires
        header_field_wf(tree_hex),
    ensures
        find_line_with(commit_text(tree_hex, parent_hex, name, email, ts, tz, msg), tree_tag())
            == Some(tree_hex),
        (parent_hex matches Some(p) && header_field_wf(p)) ==> find_line_with(
            commit_text(tree_hex, parent_hex, name, email, ts, tz, msg),
            parent_tag(),
        ) == parent_hex,
        (parent_hex is None && header_field_wf(name) && header_field_wf(email) && header_field_wf(
            tz,
        ) && find_line_with(msg, parent_tag()) is None) ==> (find_line_with(
            commit_text(tree_hex, parent_hex, name, email, ts, tz, msg),
            parent_tag(),
        ) is None),
{
    let ptag = parent_tag();
    let ttag = tree_tag();
    let person = name + seq![32u8, 60u8] + email + seq![62u8, 32u8] + dec_signed_of(ts) + seq![32u8]
        + tz;
    let tline = tree_tag() + tree_hex;
    let aline = seq![97u8, 117u8, 116u8, 104u8, 111u8, 114u8, 32u8] + person;
    let cline = seq![99u8, 111u8, 109u8, 109u8, 105u8, 116u8, 116u8, 101u8, 114u8, 32u8] + person;
    let t = commit_text(tree_hex, parent_hex, name, email, ts, tz, msg);
    let after_committer = seq![10u8] + msg;
    let rest3 = cline + seq![10u8] + after_committer;
    let rest2 = aline + seq![10u8] + rest3;
    let rest1 = match parent_hex {
        Some(p) => (parent_tag() + p) + seq![10u8] + rest2,
        None => rest2,
    };
    assert(t =~= tline + seq![10u8] + rest1);
    assert(header_field_wf(tline));
    // the tree line is the first line, matched before anything else
    assert(tline.len() >= ttag.len() && tline.take(ttag.len() as int) =~= ttag);
    assert(tline.skip(ttag.len() as int) =~= tree_hex);
    lemma_find_line_step(tline, rest1, ttag);
    assert(find_line_with(t, ttag) == Some(tree_hex));
    // the tree line does not open the parent tag, so that scan moves past it
    assert(tline.take(7) != ptag || tline.len() < 7) by {
        if tline.len() >= 7 {
            assert(tline.take(7)[0] == tline[0]);
            assert(tline[0] == 116);
            assert(ptag[0] == 112);
        }
    }
    lemma_find_line_step(tline, rest1, ptag);
    assert(find_line_with(t, ptag) == find_line_with(rest1, ptag));
    match parent_hex {
        Some(p) => {
            if header_field_wf(p) {
                let pline = ptag + p;
                assert(header_field_wf(pline));
                assert(pline.len() >= ptag.len() && pline.take(ptag.len() as int) =~= ptag);
                assert(pline.skip(ptag.len() as int) =~= p);
                lemma_find_line_step(pline, rest2, ptag);
                assert(rest1 =~= pline + seq![10u8] + rest2);
                assert(find_line_with(rest1, ptag) == Some(p));
            }
        },
        None => {
            if header_field_wf(name) && header_field_wf(email) && header_field_wf(tz)
                && find_line_with(msg, ptag) is None {
                crate::byteops::lemma_dec_of_digits(if ts < 0 { (-ts) as nat } else { ts as nat });
                assert(header_field_wf(dec_signed_of(ts)));
                assert(header_field_wf(person));
                assert(header_field_wf(aline));
                assert(header_field_wf(cline));
                assert(aline.take(7) =~= seq![97u8, 117u8, 116u8, 104u8, 111u8, 114u8, 32u8]);
                assert(cline.take(10) =~= seq![
                    99u8, 111u8, 109u8, 109u8, 105u8, 116u8, 116u8, 101u8, 114u8, 32u8,
                ]);
                assert(aline.take(7) != ptag) by {
                    assert(aline.take(7)[0] == 97 && ptag[0] == 112);
                }
                lemma_find_line_step(aline, rest3, ptag);
                assert(cline.take(7) != ptag) by {
                    assert(cline.take(7)[0] == cline[0]);
                    assert(cline.take(10)[0] == cline[0]);
                    assert(cline[0] == 99 && ptag[0] == 112);
                }
                lemma_find_line_step(cline, after_committer, ptag);
                assert(after_committer =~= Seq::<u8>::empty() + seq![10u8] + msg);
                lemma_find_line_step(Seq::<u8>::empty(), msg, ptag);
                assert(find_line_with(after_committer, ptag) == find_line_with(msg, ptag));
                assert(find_line_with(rest3, ptag) is None);
                assert(find_line_with(rest1, ptag) is None);
            }
        },
    }
}

/// Branch refs: the one mutable, non-content-addressed state, a small map
/// from ref path to the hex name it points at.
pub struct RefStore {
    refs: Vec<(Vec<u8>, Vec<u8>)>,
}

impl RefStore {
    pub closed spec fn view(&self) -> Map<Seq<u8>, Seq<u8>> {
        crate::store::map_of(self.refs@)
    }

    pub closed spec fn wf(&self) -> bool {
        forall|p: int, q: int|
            0 <= p < q < self.refs@.len() ==> self.refs@[p].0@ != self.refs@[q].0@
    }

    pub fn new() -> (r: RefStore)
        ensures
            r.wf(),
            r@ =~= Map::<Seq<u8>, Seq<u8>>::empty(),
    {
        RefStore { refs: Vec::new() }
    }

    fn find(&self, name: &[u8]) -> (r: Option<usize>)
        ensures
            match r {
                Some(i) => i < self.refs@.len() && self.refs@[i as int].0@ == name@,
                None => forall|i: int| 0 <= i < self.refs@.len() ==> self.refs@[i].0@ != name@,
            },
    {
        let n = self.refs.len();
        let mut i: usize = 0;
        while i < n
            invariant
                n == self.refs@.len(),
                0 <= i <= n,
                forall|k: int| 0 <= k < i ==> self.refs@[k].0@ != name@,
            decreases n - i,
        {
            if bytes_eq(self.refs[i].0.as_slice(), name) {
                return Some(i);
            }
            i += 1;
        }
        None
    }

    /// The hash a ref points at, if the ref exists.
    pub fn read(&self, name: &[u8]) -> (r: Option<Vec<u8>>)
        requires
            self.wf(),
        ensures
            match r {
                Some(v) => self@.contains_key(name@) && v@ == self@[name@],
                None => !self@.contains_key(name@),
            },
    {
        proof {
            crate::store::lemma_map_of_dom(self.refs@, name@);
        }
        match self.find(name) {
            Some(i) => {
                proof {
                    crate::store::lemma_map_of_index(self.refs@, i as int);
                }
                Some(crate::index::clone_bytes(&self.refs[i].1))
            },
            None => None,
        }
    }

    /// Points a ref at a hash, advancing it in place if it exists.
    pub fn write(&mut self, name: &[u8], value: &[u8])
        requires
            old(self).wf(),
        ensures
            final(self).wf(),
            final(self)@ =~= old(self)@.insert(name@, value@),
    {
        let ghost pre = self.refs@;
        match self.find(name) {
            Some(i) => {
                proof {
                    crate::store::lemma_map_of_remove(self.refs@, i as int);
                }
                let _old = self.refs.remove(i);
                proof {
                    assert(forall|p: int, q: int|
                        0 <= p < q < self.refs@.len() ==> self.refs@[p].0@ != self.refs@[q].0@);
                }
            },
            None => {},
        }
        let ghost mid = self.refs@;
        let nv = slice_to_vec(name);
        let vv = slice_to_vec(value);
        self.refs.push((nv, vv));
        proof {
            assert(self.refs@.drop_last() =~= mid);
            assert(forall|k: int|
                0 <= k < mid.len() ==> (#[trigger] mid[k]) == self.refs@[k]);
            assert forall|k: int| 0 <= k < mid.len() implies (#[trigger] mid[k]).0@ != name@ by {
                match crate::store::map_of(pre).contains_key(name@) {
                    _ => {},
                }
            }
            assert(crate::store::map_of(self.refs@) =~= crate::store::map_of(mid).insert(
                name@,
                value@,
            ));
            assert(crate::store::map_of(mid) =~= crate::store::map_of(pre).remove(name@)
                || crate::store::map_of(mid) =~= crate::store::map_of(pre));
            assert(crate::store::map_of(self.refs@) =~= crate::store::map_of(pre).insert(
                name@,
                value@,
            ));
        }
    }
}

/// What the HEAD file points at: a branch ref, or a bare commit hash.
pub enum HeadState {
    Attached { ref_path: Vec<u8> },
    Detached { hash: Vec<u8> },
}

/// A HEAD opening with `ref:` is attached to the named ref; anything else is
/// a detached commit hash. Either way the payload is whitespace-trimmed.
pub open spec fn head_is_attached(c: Seq<u8>) -> bool {
    c.len() >= 4 && c.take(4) == seq![114u8, 101u8, 102u8, 58u8]
}

pub open spec fn head_target(c: Seq<u8>) -> Seq<u8> {
    if head_is_attached(c) {
        trim_of(c.skip(4))
    } else {
        trim_of(c)
    }
}

/// Reads a HEAD file's bytes into the state it denotes.
pub fn parse_head(content: &[u8]) -> (r: HeadState)
    ensures
        match r {
            HeadState::Attached { ref_path } => head_is_attached(content@) && ref_path@
                == head_target(content@),
            HeadState::Detached { hash } => !head_is_attached(content@) && hash@ == head_target(
                content@,
            ),
        },
{
    if content.len() >= 4 && content[0] == 114 && content[1] == 101 && content[2] == 102
        && content[3] == 58 {
        proof {
            assert(content@.take(4) =~= seq![114u8, 101u8, 102u8, 58u8]);
        }
        let rest = slice_subrange(content, 4, content.len());
        proof {
            assert(rest@ =~= content@.skip(4));
        }
        HeadState::Attached { ref_path: trim_bytes(rest) }
    } else {
        proof {
            if head_is_attached(content@) {
                assert(content@.take(4)[0] == content@[0]);
                assert(content@.take(4)[1] == content@[1]);
                assert(content@.take(4)[2] == content@[2]);
                assert(content@.take(4)[3] == content@[3]);
                assert(false);
            }
        }
        HeadState::Detached { hash: trim_bytes(content) }
    }
}

/// The attached form of a HEAD file over a ref path.
pub open spec fn head_content_of(ref_path: Seq<u8>) -> Seq<u8> {
    seq![114u8, 101u8, 102u8, 58u8, 32u8] + ref_path + seq![10u8]
}

/// The bytes HEAD holds after switching to a branch: `ref: <path>` and a
/// closing newline. Parsing them back names exactly that ref.
pub fn head_content_for(ref_path: &[u8]) -> (r: Vec<u8>)
    requires
        forall|k: int| 0 <= k < ref_path@.len() ==> !is_ws(#[trigger] ref_path@[k]),
        ref_path@.len() > 0,
    ensures
        r@ == head_content_of(ref_path@),
        head_is_attached(r@),
        head_target(r@) == ref_path@,
{
    let mut out: Vec<u8> = Vec::new();
    out.push(114);
    out.push(101);
    out.push(102);
    out.push(58);
    out.push(32);
    out.extend_from_slice(ref_path);
    out.push(10);
    proof {
        assert(out@ =~= head_content_of(ref_path@));
        assert(out@.take(4) =~= seq![114u8, 101u8, 102u8, 58u8]);
        let rest = out@.skip(4);
        assert(rest =~= seq![32u8] + ref_path@ + seq![10u8]);
        lemma_trim_front_skip(rest, 1);
        let tf = rest.skip(1);
        assert(tf =~= ref_path@ + seq![10u8]);
        lemma_trim_back_take(tf, tf.len() - 1);
        assert(tf.take(tf.len() - 1) =~= ref_path@);
    }
    out
}

/// The parent a new commit records: the detached hash itself, or what the
/// attached ref currently points at, if anything.
pub fn get_parent(refs: &RefStore, head: &HeadState) -> (r: Option<Vec<u8>>)
    requires
        refs.wf(),
    ensures
        match head {
            HeadState::Detached { hash } => r matches Some(v) && v@ == hash@,
            HeadState::Attached { ref_path } => match r {
                Some(v) => refs@.contains_key(ref_path@) && v@ == refs@[ref_path@],
                None => !refs@.contains_key(ref_path@),
            },
        },
{
    match head {
        HeadState::Detached { hash } => Some(crate::index::clone_bytes(hash)),
        HeadState::Attached { ref_path } => refs.read(ref_path.as_slice()),
    }
}

/// What committing produced: a soft report, never a fatal error.
pub enum CommitOutcome {
    /// The index was empty; nothing was written and no ref moved.
    NothingToCommit,
    /// The commit object was stored and the attached ref advanced to it.
    Committed { hash_hex: String },
    /// The commit object was stored, but HEAD was detached: no ref moved.
    DetachedHead { hash_hex: String },
}

/// The commit payload the store holds after a successful commit of
/// `entries` under `parent`.
pub open spec fn committed_text(
    tree_digest: Seq<u8>,
    parent_hex: Option<Seq<u8>>,
    name: Seq<u8>,
    email: Seq<u8>,
    ts: int,
    tz: Seq<u8>,
    msg: Seq<u8>,
) -> Seq<u8> {
    commit_text(hex_bytes_of(tree_digest), parent_hex, name, email, ts, tz, msg)
}


/// Assembles the commit object over a tree's hex name and an optional
/// parent, stores it, and advances the attached ref to the new hash; under
/// a detached HEAD the object is stored and every ref left alone. The
/// stored payload is exactly the ordered header lines over the given tree
/// and parent, the author and committer, a blank line, and the message.
#[verifier::rlimit(60)]
pub fn commit_tree(
    store: &mut ObjectStore,
    refs: &mut RefStore,
    head: &HeadState,
    tree_hex: &[u8],
    parent: Option<&Vec<u8>>,
    name: &[u8],
    email: &[u8],
    ts: i64,
    tz: &[u8],
    msg: &[u8],
) -> (r: Result<CommitOutcome, ItError>)
    requires
        old(store).wf(),
        old(refs).wf(),
        ts != i64::MIN,
    ensures
        final(store).wf(),
        final(refs).wf(),
        old(store)@.submap_of(final(store)@),
        match r {
            Ok(out) => {
                let parent_spec: Option<Seq<u8>> = match parent {
                    Some(p) => Some(p@),
                    None => None,
                };
                let payload = commit_text(
                    tree_hex@,
                    parent_spec,
                    name@,
                    email@,
                    ts as int,
                    tz@,
                    msg@,
                );
                match out {
                    CommitOutcome::NothingToCommit => false,
                    CommitOutcome::Committed { hash_hex } => {
                        &&& head matches HeadState::Attached { .. }
                        &&& hash_hex@ == crate::hashing::hex_of(sha1_of(frame_of(
                            ObjType::Commit,
                            payload,
                        )))
                        &&& sha1_of(frame_of(ObjType::Commit, payload)) == crate::hashing::hex_val_of(
                            hash_hex@,
                        )
                        &&& final(store)@ =~= crate::store::store_insert(
                            old(store)@,
                            frame_of(ObjType::Commit, payload),
                        )
                        &&& final(store)@.contains_key(crate::hashing::hex_val_of(hash_hex@))
                        &&& final(store)@[crate::hashing::hex_val_of(hash_hex@)] == frame_of(
                            ObjType::Commit,
                            payload,
                        )
                        &&& final(refs)@ =~= old(refs)@.insert(
                            head->Attached_ref_path@,
                            hex_bytes_of(crate::hashing::hex_val_of(hash_hex@)),
                        )
                        &&& (header_field_wf(tree_hex@) ==> find_line_with(payload, tree_tag())
                            == Some(tree_hex@))
                        &&& (header_field_wf(tree_hex@) && (parent_spec matches Some(p)
                            && header_field_wf(p)) ==> find_line_with(payload, parent_tag())
                            == parent_spec)
                        &&& (header_field_wf(tree_hex@) && parent_spec is None
                            && header_field_wf(name@) && header_field_wf(email@)
                            && header_field_wf(tz@) && find_line_with(msg@, parent_tag()) is None
                            ==> (find_line_with(payload, parent_tag()) is None))
                    },
                    CommitOutcome::DetachedHead { hash_hex } => {
                        &&& head matches HeadState::Detached { .. }
                        &&& hash_hex@ == crate::hashing::hex_of(sha1_of(frame_of(
                            ObjType::Commit,
                            payload,
                        )))
                        &&& sha1_of(frame_of(ObjType::Commit, payload)) == crate::hashing::hex_val_of(
                            hash_hex@,
                        )
                        &&& final(store)@ =~= crate::store::store_insert(
                            old(store)@,
                            frame_of(ObjType::Commit, payload),
                        )
                        &&& final(refs)@ =~= old(refs)@
                    },
                }
            },
            Err(e) => e == ItError::HashCollision && final(refs)@ =~= old(refs)@
                && final(store)@ =~= old(store)@ && crate::store::digest_collision(
                final(store)@,
            ),
        },
        r is Err <==> ({
            let frame = frame_of(
                ObjType::Commit,
                commit_text(
                    tree_hex@,
                    match parent {
                        Some(p) => Some(p@),
                        None => None,
                    },
                    name@,
                    email@,
                    ts as int,
                    tz@,
                    msg@,
                ),
            );
            old(store)@.contains_key(sha1_of(frame)) && old(store)@[sha1_of(frame)] != frame
        }),
{
    let payload = build_commit_text(tree_hex, parent, name, email, ts, tz, msg);
    let ghost parent_spec: Option<Seq<u8>> = match parent {
        Some(p) => Some(p@),
        None => None,
    };
    let ch = match store.put(ObjType::Commit, payload.as_slice()) {
        Ok(h) => h,
        Err(e) => {
            return Err(e);
        },
    };
    let hash_hex = crate::hashing::hex_encode(ch.as_slice());
    proof {
        crate::hashing::lemma_hex_roundtrip(ch@);
        if header_field_wf(tree_hex@) {
            lemma_commit_parent_line(
                tree_hex@,
                parent_spec,
                name@,
                email@,
                ts as int,
                tz@,
                msg@,
            );
        }
    }
    match head {
        HeadState::Attached { ref_path } => {
            let mut refval: Vec<u8> = Vec::new();
            push_hex(&mut refval, ch.as_slice());
            refs.write(ref_path.as_slice(), refval.as_slice());
            Ok(CommitOutcome::Committed { hash_hex })
        },
        HeadState::Detached { .. } => Ok(CommitOutcome::DetachedHead { hash_hex }),
    }
}

/// Builds the index's tree, assembles the commit object over it and the
/// current parent, stores it, and advances the attached ref to the new
/// hash - or reports the soft condition instead: an empty index commits
/// nothing and moves nothing; a detached HEAD stores the commit but leaves
/// every ref alone. The new commit's parent line is exactly the pre-commit
/// ref value, and the ref afterwards names exactly the new commit.
#[verifier::rlimit(100)]
pub fn commit(
    store: &mut ObjectStore,
    refs: &mut RefStore,
    head: &HeadState,
    entries: &Vec<crate::index::IndexEntry>,
    name: &[u8],
    email: &[u8],
    ts: i64,
    tz: &[u8],
    msg: &[u8],
) -> (r: Result<CommitOutcome, ItError>)
    requires
        old(store).wf(),
        old(refs).wf(),
        crate::index::entries_wf(entries@),
        crate::index::entries_sorted(entries@),
        ts != i64::MIN,
    ensures
        final(store).wf(),
        final(refs).wf(),
        old(store)@.submap_of(final(store)@),
        r == Ok::<CommitOutcome, ItError>(CommitOutcome::NothingToCommit) <==> entries@.len()
            == 0,
        entries@.len() == 0 ==> final(refs)@ =~= old(refs)@ && final(store)@ =~= old(store)@,
        match r {
            Ok(out) => match out {
                CommitOutcome::NothingToCommit => entries@.len() == 0,
                CommitOutcome::Committed { hash_hex } => {
                    &&& head matches HeadState::Attached { ref_path }
                    &&& {
                        let parent = if old(refs)@.contains_key(
                            head->Attached_ref_path@,
                        ) {
                            Some(old(refs)@[head->Attached_ref_path@])
                        } else {
                            None
                        };
                        let td = sha1_of(frame_of(
                            ObjType::Tree,
                            tree_payload(tree_runs(crate::index::models(entries@), 0)),
                        ));
                        let payload = committed_text(
                            td,
                            parent,
                            name@,
                            email@,
                            ts as int,
                            tz@,
                            msg@,
                        );
                        &&& hash_hex@ == crate::hashing::hex_of(sha1_of(frame_of(
                            ObjType::Commit,
                            payload,
                        )))
                        &&& sha1_of(frame_of(ObjType::Commit, payload))
                            == crate::hashing::hex_val_of(hash_hex@)
                        &&& final(store)@.contains_key(crate::hashing::hex_val_of(hash_hex@))
                        &&& final(store)@[crate::hashing::hex_val_of(hash_hex@)] == frame_of(
                            ObjType::Commit,
                            payload,
                        )
                        &&& final(refs)@ =~= old(refs)@.insert(
                            head->Attached_ref_path@,
                            hex_bytes_of(crate::hashing::hex_val_of(hash_hex@)),
                        )
                        &&& find_line_with(payload, tree_tag()) == Some(hex_bytes_of(td))
                        &&& (parent matches Some(p) && header_field_wf(p) ==> find_line_with(
                            payload,
                            parent_tag(),
                        ) == parent)
                        &&& (parent is None && header_field_wf(name@) && header_field_wf(email@)
                            && header_field_wf(tz@) && find_line_with(msg@, parent_tag()) is None
                            ==> (find_line_with(payload, parent_tag()) is None))
                    }
                },
                CommitOutcome::DetachedHead { hash_hex } => head matches HeadState::Detached {
                    ..
                } && final(refs)@ =~= old(refs)@,
            },
            Err(e) => {
                &&& (e == ItError::NameConflict || e == ItError::HashCollision)
                &&& final(refs)@ =~= old(refs)@
                &&& (e == ItError::HashCollision ==> crate::store::digest_collision(
                    final(store)@,
                ))
            },
        },
        entries@.len() > 0 ==> ((r matches Err(e) && e == ItError::NameConflict)
            <==> !crate::tree::no_clash(entries@, 0)),
{
    if entries.len() == 0 {
        return Ok(CommitOutcome::NothingToCommit);
    }
    proof {
        assert forall|i: int| 0 <= i < entries@.len() implies 0 < (
        #[trigger] entries@[i]).path@.len() && crate::index::path_wf(entries@[i].path@.skip(0))
            && entries@[i].sha@.len() == 20 by {
            assert(crate::index::entry_wf(entries@[i]));
            assert(entries@[i].path@.skip(0) =~= entries@[i].path@);
        }
        assert forall|i: int, j: int| 0 <= i < j < entries@.len() implies crate::byteops::lex_lt(
            (#[trigger] entries@[i]).path@.skip(0),
            (#[trigger] entries@[j]).path@.skip(0),
        ) by {
            assert(entries@[i].path@.skip(0) =~= entries@[i].path@);
            assert(entries@[j].path@.skip(0) =~= entries@[j].path@);
        }
    }
    if !crate::tree::clash_free_check(entries.as_slice(), 0) {
        return Err(ItError::NameConflict);
    }
    let td = match crate::tree::build_tree_at(store, entries.as_slice(), 0) {
        Ok(h) => h,
        Err(e) => {
            return Err(e);
        },
    };
    let mut tree_hex: Vec<u8> = Vec::new();
    push_hex(&mut tree_hex, td.as_slice());
    let parent = get_parent(refs, head);
    let ghost store_mid = store@;
    let ghost refs_pre = refs@;
    let r = commit_tree(
        store,
        refs,
        head,
        tree_hex.as_slice(),
        match &parent {
            Some(p) => Some(p),
            None => None,
        },
        name,
        email,
        ts,
        tz,
        msg,
    );
    proof {
        vstd::map_lib::lemma_submap_of_trans(old(store)@, store_mid, store@);
        lemma_hex_bytes_roundtrip(td@);
        assert(hex_bytes_of(td@) == tree_hex@);
    }
    r
}

/// What resetting did.
pub enum ResetOutcome {
    /// The current commit has no parent line: a root commit, left alone.
    NoParent,
    /// The ref was rewritten to the parent and the parent's tree walked out.
    MovedTo { parent_hex: Vec<u8>, files: Vec<(Vec<u8>, Vec<u8>)> },
}

/// The commit payload a branch currently points at, if the chain from ref
/// value to stored object holds together.
pub open spec fn ref_commit_payload(
    m: Map<Seq<u8>, Seq<u8>>,
    refs: Map<Seq<u8>, Seq<u8>>,
    branch: Seq<u8>,
) -> Option<Seq<u8>> {
    if !refs.contains_key(branch) {
        None
    } else {
        let hexv = refs[branch];
        if !(hexv.len() == 40 && forall|k: int| 0 <= k < 40 ==> is_hex_byte(#[trigger] hexv[k])) {
            None
        } else {
            let d = hex_bytes_val(hexv);
            if !m.contains_key(d) {
                None
            } else {
                payload_after_nul(m[d])
            }
        }
    }
}

/// What restoring from a commit hash yields: the walk of the tree its
/// `tree` line names, or nothing if any link of the chain is broken.
pub open spec fn restore_of(
    m: Map<Seq<u8>, Seq<u8>>,
    commit_hex: Seq<u8>,
    fuel: nat,
) -> Option<Seq<(Seq<u8>, Seq<u8>)>> {
    if !(commit_hex.len() == 40 && forall|k: int|
        0 <= k < 40 ==> is_hex_byte(#[trigger] commit_hex[k])) {
        None
    } else {
        let d = hex_bytes_val(commit_hex);
        if !m.contains_key(d) {
            None
        } else {
            match payload_after_nul(m[d]) {
                None => None,
                Some(pl) => match find_line_with(pl, tree_tag()) {
                    None => None,
                    Some(tline) => {
                        let th = trim_of(tline);
                        if !(th.len() == 40 && forall|k: int|
                            0 <= k < 40 ==> is_hex_byte(#[trigger] th[k])) {
                            None
                        } else {
                            crate::tree::walk(m, hex_bytes_val(th), Seq::empty(), fuel)
                        }
                    },
                },
            }
        }
    }
}

/// Loads the commit a hex name points at, reads its `tree` line, and walks
/// that tree back into the flat file list it stands for.
pub fn restore_from_hash(store: &ObjectStore, commit_hex: &[u8], fuel: u64) -> (r: Result<
    Vec<(Vec<u8>, Vec<u8>)>,
    ItError,
>)
    requires
        store.wf(),
    ensures
        match r {
            Ok(v) => restore_of(store@, commit_hex@, fuel as nat) == Some(
                crate::tree::file_models(v@),
            ),
            Err(e) => restore_of(store@, commit_hex@, fuel as nat) is None,
        },
        // the error kind for each broken link before the walk itself
        ({
            if !(commit_hex@.len() == 40 && forall|k: int|
                0 <= k < 40 ==> is_hex_byte(#[trigger] commit_hex@[k])) {
                r matches Err(e) && e == ItError::MalformedObject
            } else {
                let d = hex_bytes_val(commit_hex@);
                if !store@.contains_key(d) {
                    r matches Err(e) && e == ItError::NotFound
                } else {
                    match payload_after_nul(store@[d]) {
                        None => r matches Err(e) && e == ItError::MalformedObject,
                        Some(pl) => match find_line_with(pl, tree_tag()) {
                            None => r matches Err(e) && e == ItError::MalformedObject,
                            Some(tline) => {
                                let th = trim_of(tline);
                                if !(th.len() == 40 && forall|k: int|
                                    0 <= k < 40 ==> is_hex_byte(#[trigger] th[k])) {
                                    r matches Err(e) && e == ItError::MalformedObject
                                } else {
                                    true
                                }
                            },
                        },
                    }
                }
            }
        }),
{
    let d = match parse_hex_digest(commit_hex) {
        Ok(d) => d,
        Err(e) => {
            return Err(e);
        },
    };
    let framed = match store.load(d.as_slice()) {
        Some(f) => f,
        None => {
            return Err(ItError::NotFound);
        },
    };
    let payload = match crate::objects::object_payload(framed.as_slice()) {
        Ok(p) => p,
        Err(e) => {
            return Err(e);
        },
    };
    let mut ttag: Vec<u8> = Vec::new();
    ttag.push(116);
    ttag.push(114);
    ttag.push(101);
    ttag.push(101);
    ttag.push(32);
    proof {
        assert(ttag@ =~= tree_tag());
    }
    let tline = match find_line_exec(payload.as_slice(), ttag.as_slice()) {
        Some(t) => t,
        None => {
            return Err(ItError::MalformedObject);
        },
    };
    let th = trim_bytes(tline.as_slice());
    let td = match parse_hex_digest(th.as_slice()) {
        Ok(d) => d,
        Err(e) => {
            return Err(e);
        },
    };
    let dirv: Vec<u8> = Vec::new();
    proof {
        assert(dirv@ =~= Seq::<u8>::empty());
    }
    crate::tree::restore_tree(store, td.as_slice(), dirv.as_slice(), fuel)
}

/// Resolves the branch's commit, and moves the ref one step back: to the
/// commit's parent, whose tree is then walked out for the caller to lay
/// down. A root commit, one with no parent line, moves nothing: the ref is
/// left exactly as it was.
pub fn reset(store: &ObjectStore, refs: &mut RefStore, branch: &[u8], fuel: u64) -> (r: Result<
    ResetOutcome,
    ItError,
>)
    requires
        store.wf(),
        old(refs).wf(),
    ensures
        final(refs).wf(),
        match r {
            Ok(out) => match out {
                ResetOutcome::NoParent => {
                    &&& final(refs)@ =~= old(refs)@
                    &&& ref_commit_payload(store@, old(refs)@, branch@) matches Some(pl)
                        && find_line_with(pl, parent_tag()) is None
                },
                ResetOutcome::MovedTo { parent_hex, files } => {
                    &&& ref_commit_payload(store@, old(refs)@, branch@) matches Some(pl)
                        && find_line_with(pl, parent_tag()) matches Some(praw) && parent_hex@
                        == trim_of(praw)
                    &&& final(refs)@ =~= old(refs)@.insert(branch@, parent_hex@)
                    &&& restore_of(store@, parent_hex@, fuel as nat) == Some(
                        crate::tree::file_models(files@),
                    )
                },
            },
            Err(e) => final(refs)@ =~= old(refs)@,
        },
        // every outcome is owed: which arm comes back, and for the steps
        // before the walk, which error kind, is a function of the arguments
        ({
            if !old(refs)@.contains_key(branch@) {
                r == Err::<ResetOutcome, ItError>(ItError::NotFound)
            } else {
                let hexv = old(refs)@[branch@];
                if !(hexv.len() == 40 && forall|k: int|
                    0 <= k < 40 ==> is_hex_byte(#[trigger] hexv[k])) {
                    r == Err::<ResetOutcome, ItError>(ItError::MalformedObject)
                } else {
                    let d = hex_bytes_val(hexv);
                    if !store@.contains_key(d) {
                        r == Err::<ResetOutcome, ItError>(ItError::NotFound)
                    } else {
                        match payload_after_nul(store@[d]) {
                            None => r == Err::<ResetOutcome, ItError>(ItError::MalformedObject),
                            Some(pl) => match find_line_with(pl, parent_tag()) {
                                None => r == Ok::<ResetOutcome, ItError>(ResetOutcome::NoParent),
                                Some(praw) => if restore_of(
                                    store@,
                                    trim_of(praw),
                                    fuel as nat,
                                ) is Some {
                                    r matches Ok(out) && out matches ResetOutcome::MovedTo { .. }
                                } else {
                                    r is Err
                                },
                            },
                        }
                    }
                }
            }
        }),
{
    let cur = match refs.read(branch) {
        Some(v) => v,
        None => {
            return Err(ItError::NotFound);
        },
    };
    let d = match parse_hex_digest(cur.as_slice()) {
        Ok(d) => d,
        Err(e) => {
            return Err(e);
        },
    };
    let framed = match store.load(d.as_slice()) {
        Some(f) => f,
        None => {
            return Err(ItError::NotFound);
        },
    };
    let payload = match crate::objects::object_payload(framed.as_slice()) {
        Ok(p) => p,
        Err(e) => {
            return Err(e);
        },
    };
    let mut ptag: Vec<u8> = Vec::new();
    ptag.push(112);
    ptag.push(97);
    ptag.push(114);
    ptag.push(101);
    ptag.push(110);
    ptag.push(116);
    ptag.push(32);
    proof {
        assert(ptag@ =~= parent_tag());
    }
    match find_line_exec(payload.as_slice(), ptag.as_slice()) {
        None => Ok(ResetOutcome::NoParent),
        Some(praw) => {
            let parent_hex = trim_bytes(praw.as_slice());
            let files = match restore_from_hash(store, parent_hex.as_slice(), fuel) {
                Ok(f) => f,
                Err(e) => {
                    return Err(e);
                },
            };
            refs.write(branch, parent_hex.as_slice());
            Ok(ResetOutcome::MovedTo { parent_hex, files })
        },
    }
}

} // verus!
