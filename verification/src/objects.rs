//! Object framing and the on-disk codec: every object is the byte string
//! `"<type> <len>\0"` followed by its payload, and is persisted
//! zlib-compressed under the hex name of its digest.
use vstd::prelude::*;

use crate::byteops::{dec_of, find_byte, lemma_dec_of_digits, lemma_find_byte_concat, push_dec,
    find_byte_exec, lemma_find_byte_props};
use crate::hashing::{sha1_of, hex_of};
use crate::ItError;
use vstd::slice::{slice_subrange, slice_to_vec};

verus! {

/// The three object kinds the store frames.
#[derive(Clone, Copy, Debug, PartialEq, Eq, Structural)]
pub enum ObjType {
    Blob,
    Tree,
    Commit,
}

/// The type label that opens an object's frame.
pub open spec fn label_of(t: ObjType) -> Seq<u8> {
    match t {
        ObjType::Blob => seq![98u8, 108u8, 111u8, 98u8],
        ObjType::Tree => seq![116u8, 114u8, 101u8, 101u8],
        ObjType::Commit => seq![99u8, 111u8, 109u8, 109u8, 105u8, 116u8],
    }
}

/// The framed form of an object: `<label> <decimal payload length>\0<payload>`.
pub open spec fn frame_of(t: ObjType, payload: Seq<u8>) -> Seq<u8> {
    label_of(t) + seq![32u8] + dec_of(payload.len()) + seq![0u8] + payload
}

/// What a decoder recovers from a frame: everything after the first NUL.
pub open spec fn payload_after_nul(s: Seq<u8>) -> Option<Seq<u8>> {
    match find_byte(s, 0) {
        Some(i) => Some(s.skip(i + 1)),
        None => None,
    }
}

/// Stripping the header recovers exactly the payload the frame was built from.
pub proof fn lemma_frame_payload(t: ObjType, payload: Seq<u8>)
    ensures
        payload_after_nul(frame_of(t, payload)) == Some(payload),
        frame_of(t, payload).len() > payload.len(),
{
    let header = label_of(t) + seq![32u8] + dec_of(payload.len());
    lemma_dec_of_digits(payload.len());
    assert(forall|k: int| 0 <= k < header.len() ==> header[k] != 0);
    let rest = seq![0u8] + payload;
    assert(frame_of(t, payload) =~= header + rest);
    lemma_find_byte_concat(header, rest, 0);
    assert(find_byte(rest, 0) == Some(0int));
    assert((header + rest).skip(header.len() as int + 1) =~= payload);
}

/// Appends the frame label for `t`.
fn push_label(out: &mut Vec<u8>, t: ObjType)
    ensures
        final(out)@ == old(out)@ + label_of(t),
{
    match t {
        ObjType::Blob => {
            out.push(98);
            out.push(108);
            out.push(111);
            out.push(98);
        },
        ObjType::Tree => {
            out.push(116);
            out.push(114);
            out.push(101);
            out.push(101);
        },
        ObjType::Commit => {
            out.push(99);
            out.push(111);
            out.push(109);
            out.push(109);
            out.push(105);
            out.push(116);
        },
    }
    assert(final(out)@ =~= old(out)@ + label_of(t));
}

/// Frames a payload: the bytes an object is hashed and stored as.
pub fn build_object(data: &[u8], obj_type: ObjType) -> (r: Vec<u8>)
    ensures
        r@ == frame_of(obj_type, data@),
{
    let mut out: Vec<u8> = Vec::new();
    push_label(&mut out, obj_type);
    out.push(32);
    push_dec(&mut out, data.len() as u64);
    out.push(0);
    out.extend_from_slice(data);
    assert(out@ =~= frame_of(obj_type, data@));
    out
}

/// Strips an object's header: the bytes after the first NUL. A frame with no
/// NUL at all is malformed.
pub fn object_payload(framed: &[u8]) -> (r: Result<Vec<u8>, ItError>)
    ensures
        match r {
            Ok(p) => payload_after_nul(framed@) == Some(p@),
            Err(e) => e == ItError::MalformedObject && payload_after_nul(framed@) is None,
        },
{
    match find_byte_exec(framed, 0) {
        Some(i) => {
            proof {
                lemma_find_byte_props(framed@, 0);
            }
            let n = framed.len();
            assert(i < n);
            let p = slice_to_vec(slice_subrange(framed, i + 1, n));
            Ok(p)
        },
        None => Err(ItError::MalformedObject),
    }
}

/// What the zlib encoder emits for a byte sequence, named but not written
/// out: only the two wrappers below say anything about it.
pub uninterp spec fn zlib_of(data: Seq<u8>) -> Seq<u8>;

/// Relies on flate2::write::ZlibEncoder at the default level over a Vec sink:
/// the stream is a function of the input bytes alone, and writing into a Vec
/// cannot fail.
#[verifier::external_body]
fn zlib_deflate(data: &[u8]) -> (r: Vec<u8>)
    ensures
        r@ == zlib_of(data@),
{
    let mut e = flate2::write::ZlibEncoder::new(Vec::new(), flate2::Compression::default());
    std::io::Write::write_all(&mut e, data).expect("writing to a Vec cannot fail");
    e.finish().expect("writing to a Vec cannot fail")
}

/// Relies on flate2::read::ZlibDecoder: decoding inverts the encoder; on a
/// stream the encoder did not produce, nothing is promised beyond an answer.
#[verifier::external_body]
fn zlib_inflate(data: &[u8]) -> (r: Result<Vec<u8>, ItError>)
    ensures
        r matches Err(e) ==> e == ItError::CompressionFailure && (forall|orig: Seq<u8>|
            data@ != zlib_of(orig)),
        r matches Ok(v) ==> (forall|orig: Seq<u8>| data@ == zlib_of(orig) ==> v@ == orig),
{
    let mut d = flate2::read::ZlibDecoder::new(data);
    let mut buf = Vec::new();
    match std::io::Read::read_to_end(&mut d, &mut buf) {
        Ok(_) => Ok(buf),
        Err(_) => Err(ItError::CompressionFailure),
    }
}

/// The deflated form an object is persisted in.
pub fn compress_data(data: &[u8]) -> (r: Vec<u8>)
    ensures
        r@ == zlib_of(data@),
{
    zlib_deflate(data)
}

/// Inflates a persisted object's bytes: on a stream the compressor emitted,
/// exactly the bytes it was given; on anything else, an answer or a
/// compression failure.
pub fn decompress_data(data: &[u8]) -> (r: Result<Vec<u8>, ItError>)
    ensures
        r matches Err(e) ==> e == ItError::CompressionFailure && (forall|orig: Seq<u8>|
            data@ != zlib_of(orig)),
        r matches Ok(v) ==> (forall|orig: Seq<u8>| data@ == zlib_of(orig) ==> v@ == orig),
{
    zlib_inflate(data)
}

/// Decodes one stored object: decompresses, then strips the frame header, as
/// the loader does when it reads an object back from persistence.
pub fn read_object_payload(compressed: &[u8]) -> (r: Result<Vec<u8>, ItError>)
    ensures
        forall|framed: Seq<u8>|
            compressed@ == zlib_of(framed) && payload_after_nul(framed) is Some ==> (r matches Ok(p)
                && Some(p@) == payload_after_nul(framed)),
{
    let framed = decompress_data(compressed)?;
    object_payload(framed.as_slice())
}

} // verus!
