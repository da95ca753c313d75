//! The content-addressed object store, modelled as a map from 20-byte digest
//! to framed bytes. Writing the same content twice changes nothing; two
//! different payloads meeting under one digest are refused rather than
//! silently merged.
use vstd::prelude::*;

use crate::byteops::bytes_eq;
use crate::hashing::{hash_hex_of, hex_encode, sha1_digest, sha1_of};
use crate::objects::{build_object, frame_of, ObjType};
use crate::ItError;

verus! {

/// The map an association list of digest/frame pairs stands for; later pairs
/// win, though a well-formed store never repeats a key.
pub open spec fn map_of(s: Seq<(Vec<u8>, Vec<u8>)>) -> Map<Seq<u8>, Seq<u8>>
    decreases s.len(),
{
    if s.len() == 0 {
        Map::empty()
    } else {
        map_of(s.drop_last()).insert(s.last().0@, s.last().1@)
    }
}

pub proof fn lemma_map_of_dom(s: Seq<(Vec<u8>, Vec<u8>)>, k: Seq<u8>)
    ensures
        map_of(s).contains_key(k) <==> exists|i: int| 0 <= i < s.len() && s[i].0@ == k,
    decreases s.len(),
{
    if s.len() > 0 {
        lemma_map_of_dom(s.drop_last(), k);
        if map_of(s).contains_key(k) {
            if s.last().0@ != k {
                let i = choose|i: int| 0 <= i < s.len() - 1 && s.drop_last()[i].0@ == k;
                assert(s[i].0@ == k);
            }
        }
        if exists|i: int| 0 <= i < s.len() && s[i].0@ == k {
            let i = choose|i: int| 0 <= i < s.len() && s[i].0@ == k;
            if i < s.len() - 1 {
                assert(s.drop_last()[i].0@ == k);
            }
        }
    }
}

pub proof fn lemma_map_of_index(s: Seq<(Vec<u8>, Vec<u8>)>, i: int)
    requires
        0 <= i < s.len(),
        forall|p: int, q: int| 0 <= p < q < s.len() ==> s[p].0@ != s[q].0@,
    ensures
        map_of(s).contains_key(s[i].0@),
        map_of(s)[s[i].0@] == s[i].1@,
    decreases s.len(),
{
    lemma_map_of_dom(s, s[i].0@);
    if i < s.len() - 1 {
        assert(s.drop_last()[i] == s[i]);
        lemma_map_of_index(s.drop_last(), i);
        assert(s.last().0@ != s[i].0@);
    }
}

/// Taking one pair out of a repetition-free association list takes exactly
/// its key out of the map.
pub proof fn lemma_map_of_remove(s: Seq<(Vec<u8>, Vec<u8>)>, i: int)
    requires
        0 <= i < s.len(),
        forall|p: int, q: int| 0 <= p < q < s.len() ==> s[p].0@ != s[q].0@,
    ensures
        map_of(s.remove(i)) =~= map_of(s).remove(s[i].0@),
    decreases s.len(),
{
    if i == s.len() - 1 {
        assert(s.remove(i) =~= s.drop_last());
        lemma_map_of_dom(s.drop_last(), s.last().0@);
        assert(!map_of(s.drop_last()).contains_key(s.last().0@)) by {
            if map_of(s.drop_last()).contains_key(s.last().0@) {
                let k = choose|k: int| 0 <= k < s.len() - 1 && s.drop_last()[k].0@ == s.last().0@;
                assert(s[k].0@ == s[s.len() - 1].0@);
            }
        }
        assert(map_of(s.drop_last()).insert(s.last().0@, s.last().1@).remove(s.last().0@)
            =~= map_of(s.drop_last()));
    } else {
        assert(s.remove(i).drop_last() =~= s.drop_last().remove(i));
        assert(s.remove(i).last() == s.last());
        assert(forall|p: int| 0 <= p < s.len() - 1 ==> s.drop_last()[p] == s[p]);
        lemma_map_of_remove(s.drop_last(), i);
        assert(map_of(s.remove(i)) == map_of(s.drop_last().remove(i)).insert(
            s.last().0@,
            s.last().1@,
        ));
        assert(s[i].0@ != s.last().0@);
        assert(map_of(s.drop_last()).remove(s[i].0@).insert(s.last().0@, s.last().1@)
            =~= map_of(s.drop_last()).insert(s.last().0@, s.last().1@).remove(s[i].0@));
    }
}

/// Two different byte strings met under one digest somewhere in this map:
/// the only way a store-writing operation can fail.
pub open spec fn digest_collision(m: Map<Seq<u8>, Seq<u8>>) -> bool {
    exists|a: Seq<u8>| m.contains_key(#[trigger] sha1_of(a)) && m[sha1_of(a)] != a
}

/// The effect one stored frame has on the store's map.
pub open spec fn store_insert(m: Map<Seq<u8>, Seq<u8>>, framed: Seq<u8>) -> Map<Seq<u8>, Seq<u8>> {
    m.insert(sha1_of(framed), framed)
}

/// Storing identical content twice is the same as storing it once.
pub proof fn lemma_store_idempotent(m: Map<Seq<u8>, Seq<u8>>, framed: Seq<u8>)
    ensures
        store_insert(store_insert(m, framed), framed) =~= store_insert(m, framed),
{
}

/// The in-memory object store: an append-only set of framed objects, each
/// keyed by the SHA-1 digest of its full framed bytes.
pub struct ObjectStore {
    objs: Vec<(Vec<u8>, Vec<u8>)>,
}

impl ObjectStore {
    /// The store as a map from digest to framed bytes.
    pub closed spec fn view(&self) -> Map<Seq<u8>, Seq<u8>> {
        map_of(self.objs@)
    }

    /// Well-formed: keys never repeat and each key is the digest of its frame.
    pub closed spec fn wf(&self) -> bool {
        &&& forall|p: int, q: int|
            0 <= p < q < self.objs@.len() ==> self.objs@[p].0@ != self.objs@[q].0@
        &&& forall|i: int|
            0 <= i < self.objs@.len() ==> (#[trigger] self.objs@[i].0@) == sha1_of(
                self.objs@[i].1@,
            )
    }

    pub fn new() -> (r: ObjectStore)
        ensures
            r.wf(),
            r@ =~= Map::<Seq<u8>, Seq<u8>>::empty(),
    {
        ObjectStore { objs: Vec::new() }
    }

    fn find(&self, h: &[u8]) -> (r: Option<usize>)
        ensures
            match r {
                Some(i) => i < self.objs@.len() && self.objs@[i as int].0@ == h@,
                None => forall|i: int| 0 <= i < self.objs@.len() ==> self.objs@[i].0@ != h@,
            },
    {
        let n = self.objs.len();
        let mut i: usize = 0;
        while i < n
            invariant
                n == self.objs@.len(),
                0 <= i <= n,
                forall|k: int| 0 <= k < i ==> self.objs@[k].0@ != h@,
            decreases n - i,
        {
            if bytes_eq(self.objs[i].0.as_slice(), h) {
                return Some(i);
            }
            i += 1;
        }
        None
    }

    /// Whether an object with this digest is held.
    pub fn contains(&self, h: &[u8]) -> (r: bool)
        ensures
            r == self@.contains_key(h@),
    {
        proof {
            lemma_map_of_dom(self.objs@, h@);
        }
        self.find(h).is_some()
    }

    /// The framed bytes held under a digest, if any.
    pub fn load(&self, h: &[u8]) -> (r: Option<&Vec<u8>>)
        requires
            self.wf(),
        ensures
            match r {
                Some(v) => self@.contains_key(h@) && v@ == self@[h@],
                None => !self@.contains_key(h@),
            },
    {
        proof {
            lemma_map_of_dom(self.objs@, h@);
        }
        match self.find(h) {
            Some(i) => {
                proof {
                    lemma_map_of_index(self.objs@, i as int);
                }
                Some(&self.objs[i].1)
            },
            None => None,
        }
    }

    /// Stores framed bytes under their own digest. A digest already present
    /// over identical bytes is a no-op; over different bytes it is refused.
    pub fn put_framed(&mut self, framed: Vec<u8>) -> (r: Result<Vec<u8>, ItError>)
        requires
            old(self).wf(),
        ensures
            final(self).wf(),
            match r {
                Ok(h) => {
                    &&& h@ == sha1_of(framed@)
                    &&& h@.len() == 20
                    &&& final(self)@ =~= store_insert(old(self)@, framed@)
                    &&& old(self)@.submap_of(final(self)@)
                    &&& (old(self)@.contains_key(h@) ==> final(self)@ =~= old(self)@)
                },
                Err(e) => {
                    &&& e == ItError::HashCollision
                    &&& final(self)@ =~= old(self)@
                    &&& old(self)@.contains_key(sha1_of(framed@))
                    &&& old(self)@[sha1_of(framed@)] != framed@
                    &&& digest_collision(final(self)@)
                },
            },
            r is Err <==> (old(self)@.contains_key(sha1_of(framed@)) && old(self)@[sha1_of(
                framed@,
            )] != framed@),
    {
        let h = sha1_digest(framed.as_slice());
        match self.find(h.as_slice()) {
            Some(i) => {
                proof {
                    lemma_map_of_index(self.objs@, i as int);
                    lemma_map_of_dom(self.objs@, h@);
                }
                if bytes_eq(self.objs[i].1.as_slice(), framed.as_slice()) {
                    proof {
                        assert(self@.contains_key(h@) && self@[h@] == framed@);
                        assert(self@ =~= store_insert(self@, framed@));
                        vstd::map_lib::lemma_submap_of_trans(self@, self@, self@);
                    }
                    Ok(h)
                } else {
                    proof {
                        assert(self@.contains_key(sha1_of(framed@)) && self@[sha1_of(framed@)]
                            != framed@);
                    }
                    Err(ItError::HashCollision)
                }
            },
            None => {
                proof {
                    lemma_map_of_dom(self.objs@, h@);
                    assert(self.objs@.push((h, framed)).drop_last() =~= self.objs@);
                }
                let ghost old_objs = self.objs@;
                self.objs.push((h, framed));
                proof {
                    assert(self.objs@.drop_last() =~= old_objs);
                    assert(forall|p: int, q: int|
                        0 <= p < q < self.objs@.len() ==> self.objs@[p].0@ != self.objs@[q].0@);
                }
                let ghost hg = h@;
                let i = self.objs.len() - 1;
                proof {
                    lemma_map_of_index(self.objs@, i as int);
                }
                // return the digest we just keyed the frame under
                let h2 = self.objs[i].0.clone();
                proof {
                    assert(h2@ == hg);
                }
                Ok(h2)
            },
        }
    }

    /// Frames a payload and stores it, handing back the digest.
    pub fn put(&mut self, obj_type: ObjType, payload: &[u8]) -> (r: Result<Vec<u8>, ItError>)
        requires
            old(self).wf(),
        ensures
            final(self).wf(),
            match r {
                Ok(h) => {
                    &&& h@ == sha1_of(frame_of(obj_type, payload@))
                    &&& h@.len() == 20
                    &&& final(self)@ =~= store_insert(old(self)@, frame_of(obj_type, payload@))
                    &&& old(self)@.submap_of(final(self)@)
                },
                Err(e) => {
                    &&& e == ItError::HashCollision
                    &&& final(self)@ =~= old(self)@
                    &&& digest_collision(final(self)@)
                },
            },
            r is Err <==> (old(self)@.contains_key(sha1_of(frame_of(obj_type, payload@)))
                && old(self)@[sha1_of(frame_of(obj_type, payload@))] != frame_of(
                obj_type,
                payload@,
            )),
    {
        let framed = build_object(payload, obj_type);
        self.put_framed(framed)
    }

    /// The digest and framed bytes at one position, for a caller that
    /// persists the store's contents.
    pub fn object_at(&self, i: usize) -> (r: (&Vec<u8>, &Vec<u8>))
        requires
            self.wf(),
            i < self@.len(),
        ensures
            self@.contains_key(r.0@),
            r.1@ == self@[r.0@],
    {
        proof {
            lemma_map_of_len(self.objs@);
            lemma_map_of_index(self.objs@, i as int);
        }
        (&self.objs[i].0, &self.objs[i].1)
    }

    /// How many objects are held.
    pub fn len(&self) -> (r: usize)
        requires
            self.wf(),
        ensures
            r == self@.len(),
    {
        proof {
            lemma_map_of_len(self.objs@);
        }
        self.objs.len()
    }
}

pub proof fn lemma_map_of_len(s: Seq<(Vec<u8>, Vec<u8>)>)
    requires
        forall|p: int, q: int| 0 <= p < q < s.len() ==> s[p].0@ != s[q].0@,
    ensures
        map_of(s).dom().finite(),
        map_of(s).len() == s.len(),
    decreases s.len(),
{
    if s.len() > 0 {
        lemma_map_of_len(s.drop_last());
        lemma_map_of_dom(s.drop_last(), s.last().0@);
        assert(forall|i: int| 0 <= i < s.len() - 1 ==> s.drop_last()[i] == s[i]);
        assert(!map_of(s.drop_last()).contains_key(s.last().0@));
    }
}

/// Stores `data` as a blob object and hands back its 40-character hex name,
/// the name under which the store now holds the framed blob.
pub fn hash_object(store: &mut ObjectStore, data: &[u8]) -> (r: Result<String, ItError>)
    requires
        old(store).wf(),
    ensures
        final(store).wf(),
        old(store)@.submap_of(final(store)@),
        match r {
            Ok(s) => {
                &&& s@ == hash_hex_of(frame_of(ObjType::Blob, data@))
                &&& s@.len() == 40
                &&& forall|k: int| 0 <= k < 40 ==> crate::hashing::is_hex_char(#[trigger] s@[k])
                &&& final(store)@ =~= store_insert(old(store)@, frame_of(ObjType::Blob, data@))
            },
            Err(e) => e == ItError::HashCollision && final(store)@ =~= old(store)@,
        },
        r is Err <==> (old(store)@.contains_key(sha1_of(frame_of(ObjType::Blob, data@)))
            && old(store)@[sha1_of(frame_of(ObjType::Blob, data@))] != frame_of(
            ObjType::Blob,
            data@,
        )),
{
    let h = match store.put(ObjType::Blob, data) {
        Ok(h) => h,
        Err(e) => {
            return Err(e);
        },
    };
    proof {
        crate::hashing::lemma_hex_roundtrip(h@);
    }
    Ok(hex_encode(h.as_slice()))
}

/// The name of an object depends on its framed bytes alone: equal payloads
/// framed the same way always hash to the same name, in every run.
pub proof fn lemma_hash_deterministic(t: ObjType, p1: Seq<u8>, p2: Seq<u8>)
    requires
        p1 == p2,
    ensures
        hash_hex_of(frame_of(t, p1)) == hash_hex_of(frame_of(t, p2)),
{
}

} // verus!
