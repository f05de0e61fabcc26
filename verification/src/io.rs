//! Codec and hash collaborators, plus the text helpers of the store.
//!
//! The hash and the compressor are outside primitives: each is reached
//! through one trusted wrapper whose contract names its result, and all
//! reasoning in the library goes through those names.

use vstd::prelude::*;

use crate::byteseq::{lemma_split_len, split_bytes, split_seq};
use crate::error::Error;
use crypto::digest::Digest;

verus! {

/// The SHA-1 digest (20 bytes) of a byte sequence, named: it is a function of
/// the bytes alone, and nothing here restates the algorithm.
pub uninterp spec fn sha1_of(bytes: Seq<u8>) -> Seq<u8>;

/// The zlib encoding of a byte sequence, named: deterministic for one encoder
/// at one setting, as used here.
pub uninterp spec fn zlib_of(bytes: Seq<u8>) -> Seq<u8>;

/// The zlib decoding of a byte sequence, named; `None` where the bytes are not
/// a well-formed zlib stream.
pub uninterp spec fn unzlib_of(bytes: Seq<u8>) -> Option<Seq<u8>>;

/// The decoded content of a zlib stream, where there is one.
pub open spec fn unzlib_content(v: Seq<u8>) -> Seq<u8> {
    match unzlib_of(v) {
        Some(c) => c,
        None => Seq::<u8>::empty(),
    }
}

/// Relies on crypto's `Sha1` (via the `Digest` trait): the digest is 160 bits
/// and depends on the input bytes alone.
#[verifier::external_body]
fn sha1_digest(source: &[u8]) -> (r: Vec<u8>)
    ensures
        r@ == sha1_of(source@),
        r@.len() == 20,
{
    let mut hasher = crypto::sha1::Sha1::new();
    hasher.input(source);
    let mut out = vec![0u8; 20];
    hasher.result(&mut out);
    out
}

/// Relies on libflate's zlib `Encoder` over an in-memory sink, which cannot
/// fail, and on the codec being lossless: decoding what it encoded yields the
/// input again.
#[verifier::external_body]
pub fn compress_by_zlib(source: &[u8]) -> (r: Vec<u8>)
    ensures
        r@ == zlib_of(source@),
        unzlib_of(r@) == Some(source@),
{
    let mut encoder = libflate::zlib::Encoder::new(Vec::new()).unwrap();
    std::io::Write::write_all(&mut encoder, source).unwrap();
    encoder.finish().into_result().unwrap()
}

/// Relies on libflate's zlib `Decoder`: decoding is a function of the input
/// bytes, and fails exactly on a malformed stream.
#[verifier::external_body]
pub fn decompress_by_zlib(source: &[u8]) -> (r: Option<Vec<u8>>)
    ensures
        r matches Some(v) ==> unzlib_of(source@) == Some(v@),
        r is None ==> unzlib_of(source@) is None,
{
    let mut decoder = match libflate::zlib::Decoder::new(source) {
        Ok(d) => d,
        Err(_) => return None,
    };
    let mut buffer = Vec::new();
    match std::io::Read::read_to_end(&mut decoder, &mut buffer) {
        Ok(_) => Some(buffer),
        Err(_) => None,
    }
}

/// Relies on `String::from_utf8`: it succeeds exactly on valid UTF-8 and
/// decodes it, as vstd's UTF-8 model states.
#[verifier::external_body]
pub(crate) fn bytes_to_string(b: &[u8]) -> (r: Option<String>)
    ensures
        r is Some <==> vstd::utf8::valid_utf8(b@),
        r matches Some(s) ==> s@ == vstd::utf8::decode_utf8(b@),
{
    match String::from_utf8(b.to_vec()) {
        Ok(s) => Some(s),
        Err(_) => None,
    }
}

/// One lowercase hexadecimal digit for a value below sixteen.
pub open spec fn hex_digit(n: u8) -> u8 {
    if n < 10 {
        (48 + n) as u8
    } else {
        (87 + n) as u8
    }
}

/// The lowercase hexadecimal rendering of bytes, two digits per byte.
pub open spec fn hex_of(bs: Seq<u8>) -> Seq<u8> {
    Seq::new(
        bs.len() * 2,
        |i: int|
            if i % 2 == 0 {
                hex_digit(bs[i / 2] / 16)
            } else {
                hex_digit(bs[i / 2] % 16)
            },
    )
}

/// Hexadecimal digits are alphanumeric ASCII: never a space or a newline.
pub proof fn lemma_hex_bytes_plain(bs: Seq<u8>)
    ensures
        forall|i: int| 0 <= i < hex_of(bs).len() ==> hex_of(bs)[i] != 32 && hex_of(bs)[i] != 10,
{
}

/// Renders bytes as lowercase hexadecimal digits.
pub fn to_hex(bs: &Vec<u8>) -> (r: Vec<u8>)
    ensures
        r@ == hex_of(bs@),
{
    let mut out: Vec<u8> = Vec::new();
    let mut i: usize = 0;
    while i < bs.len()
        invariant
            i <= bs.len(),
            out@.len() == 2 * i,
            forall|j: int| 0 <= j < out@.len() ==> out@[j] == hex_of(bs@)[j],
        decreases bs.len() - i,
    {
        let b = bs[i];
        let hi = b / 16;
        let lo = b % 16;
        let hd = if hi < 10 {
            48 + hi
        } else {
            87 + hi
        };
        let ld = if lo < 10 {
            48 + lo
        } else {
            87 + lo
        };
        out.push(hd);
        out.push(ld);
        i = i + 1;
    }
    proof {
        assert(out@ =~= hex_of(bs@));
    }
    out
}

/// The hash used to name an object: lowercase hexadecimal SHA-1 of its bytes.
pub open spec fn hash_bytes_of(bytes: Seq<u8>) -> Seq<u8> {
    hex_of(sha1_of(bytes))
}

/// Computes the hexadecimal digest that names a byte sequence in the store.
pub fn generate_hash(source: &[u8]) -> (r: Vec<u8>)
    ensures
        r@ == hash_bytes_of(source@),
        r@.len() == 40,
{
    let digest = sha1_digest(source);
    to_hex(&digest)
}

/// Splits a buffer into its newline-separated lines, decoded as UTF-8.
pub fn split_lines(buffer: Vec<u8>) -> (r: Result<Vec<String>, Error>)
    ensures
        r matches Ok(lines) ==> {
            &&& lines@.len() == split_seq(buffer@, 10).len()
            &&& forall|k: int|
                0 <= k < lines@.len() ==> vstd::utf8::valid_utf8(#[trigger] split_seq(buffer@, 10)[k])
                    && lines@[k]@ == vstd::utf8::decode_utf8(split_seq(buffer@, 10)[k])
        },
        r is Err ==> r == Err::<Vec<String>, Error>(Error::FormatError) && exists|k: int|
            0 <= k < split_seq(buffer@, 10).len() && !vstd::utf8::valid_utf8(
                #[trigger] split_seq(buffer@, 10)[k],
            ),
{
    let segs = split_bytes(&buffer, 10);
    let mut lines: Vec<String> = Vec::new();
    let mut i: usize = 0;
    while i < segs.len()
        invariant
            i <= segs.len(),
            segs@.len() == split_seq(buffer@, 10).len(),
            forall|k: int| 0 <= k < segs@.len() ==> #[trigger] segs@[k]@ == split_seq(buffer@, 10)[k],
            lines@.len() == i,
            forall|k: int|
                0 <= k < i ==> vstd::utf8::valid_utf8(#[trigger] split_seq(buffer@, 10)[k])
                    && lines@[k]@ == vstd::utf8::decode_utf8(split_seq(buffer@, 10)[k]),
        decreases segs.len() - i,
    {
        match bytes_to_string(segs[i].as_slice()) {
            Some(s) => {
                lines.push(s);
            },
            None => {
                return Err(Error::FormatError);
            },
        }
        i = i + 1;
    }
    Ok(lines)
}

/// Decodes the last newline-separated line of a buffer.
pub fn extract_last_line(buffer: Vec<u8>) -> (r: Result<String, Error>)
    ensures
        r matches Ok(line) ==> vstd::utf8::valid_utf8(split_seq(buffer@, 10).last()) && line@
            == vstd::utf8::decode_utf8(split_seq(buffer@, 10).last()),
        r is Err ==> r == Err::<String, Error>(Error::FormatError) && !vstd::utf8::valid_utf8(
            split_seq(buffer@, 10).last(),
        ),
{
    proof {
        lemma_split_len(buffer@, 10);
    }
    let segs = split_bytes(&buffer, 10);
    let last = &segs[segs.len() - 1];
    match bytes_to_string(last.as_slice()) {
        Some(s) => Ok(s),
        None => Err(Error::FormatError),
    }
}

} // verus!
