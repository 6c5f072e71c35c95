//! The functions of other crates that the library calls, with what it relies on.
//!
//! Nothing in this module is proved: each item hands its arguments to the named function of
//! another crate, and its contract states what that function's documentation and source show.

use aes_gcm::aead::{Aead, Payload};
use aes_gcm::{Aes256Gcm, Key, KeyInit, Nonce};
use crate::chunked::{fits_window, raw_frame};
use sha2::{Digest, Sha256};
use std::io::Read;
use vstd::prelude::*;

verus! {

/// The bytes of an optional vector.
pub open spec fn bytes_of(v: Option<Vec<u8>>) -> Option<Seq<u8>> {
    match v {
        Some(bytes) => Some(bytes@),
        None => None,
    }
}

/// The bytes of a vector that came back without an error.
pub open spec fn bytes_of_ok<E>(v: Result<Vec<u8>, E>) -> Option<Seq<u8>> {
    match v {
        Ok(bytes) => Some(bytes@),
        Err(_) => None,
    }
}

// ---------------------------------------------------------------------------
// Hashes
// ---------------------------------------------------------------------------

/// The SHA-256 hash of a byte string.
pub uninterp spec fn sha256(input: Seq<u8>) -> Seq<u8>;

/// The BLAKE3 hash of a byte string.
pub uninterp spec fn blake3_hash(input: Seq<u8>) -> Seq<u8>;

/// The BLAKE3 keyed hash of a byte string.
pub uninterp spec fn blake3_keyed(key: Seq<u8>, input: Seq<u8>) -> Seq<u8>;

/// The key that BLAKE3 derives from key material under a context string.
pub uninterp spec fn blake3_derived(context: Seq<char>, material: Seq<u8>) -> Seq<u8>;

/// `sha2::Sha256::digest`: the SHA-256 hash of the whole input.
#[verifier::external_body]
pub(crate) fn sha256_digest(input: &[u8]) -> (r: [u8; 32])
    ensures
        r@ == sha256(input@),
{
    Sha256::digest(input).into()
}

/// A `sha2::Sha256` that is fed a byte string piece by piece.
#[verifier::external_body]
#[derive(Debug)]
pub struct Sha256Stream {
    hasher: Sha256,
}

/// The bytes that a hasher has been fed so far.
pub uninterp spec fn sha256_fed(stream: Sha256Stream) -> Seq<u8>;

/// `sha2::Sha256::new`: a hasher that has been fed nothing.
#[verifier::external_body]
pub(crate) fn sha256_start() -> (r: Sha256Stream)
    ensures
        sha256_fed(r) == Seq::<u8>::empty(),
{
    Sha256Stream { hasher: Sha256::new() }
}

/// `Digest::update` of `sha2::Sha256`: feeds the hasher some more bytes.
#[verifier::external_body]
pub(crate) fn sha256_update(stream: &mut Sha256Stream, chunk: &[u8])
    ensures
        sha256_fed(*final(stream)) == sha256_fed(*old(stream)) + chunk@,
{
    stream.hasher.update(chunk);
}

/// `Digest::finalize` of `sha2::Sha256`: the hash of all the bytes that the hasher has been fed.
#[verifier::external_body]
pub(crate) fn sha256_finish(stream: Sha256Stream) -> (r: [u8; 32])
    ensures
        r@ == sha256(sha256_fed(stream)),
{
    stream.hasher.finalize().into()
}

/// `blake3::hash`: the BLAKE3 hash of the whole input.
#[verifier::external_body]
pub(crate) fn blake3_digest(input: &[u8]) -> (r: [u8; 32])
    ensures
        r@ == blake3_hash(input@),
{
    blake3::hash(input).into()
}

/// `blake3::keyed_hash`: the BLAKE3 hash of the whole input under a key.
#[verifier::external_body]
pub(crate) fn blake3_keyed_digest(key: &[u8; 32], input: &[u8]) -> (r: [u8; 32])
    ensures
        r@ == blake3_keyed(key@, input@),
{
    blake3::keyed_hash(key, input).into()
}

/// `blake3::derive_key`: a subkey, fixed by the context string and the key material.
#[verifier::external_body]
pub(crate) fn blake3_derive_key(context: &str, material: &[u8; 32]) -> (r: [u8; 32])
    ensures
        r@ == blake3_derived(context@, material@),
{
    blake3::derive_key(context, material)
}

// ---------------------------------------------------------------------------
// AES-256-GCM
// ---------------------------------------------------------------------------

/// Whether a message and its associated data are within the limits of AES-GCM.
pub open spec fn within_aes_gcm(aad: Seq<u8>, msg: Seq<u8>) -> bool {
    msg.len() <= AES_GCM_MAX && aad.len() <= AES_GCM_MAX
}

/// The longest message, and the longest associated data, that AES-GCM takes.
pub const AES_GCM_MAX: u64 = 0x10_0000_0000;

/// The ciphertext, its tag behind it, that AES-256-GCM writes for a message.
pub uninterp spec fn aes256_gcm_encrypted(
    key: Seq<u8>,
    nonce: Seq<u8>,
    aad: Seq<u8>,
    msg: Seq<u8>,
) -> Seq<u8>;

/// The message that AES-256-GCM recovers from a ciphertext with its tag behind it, or nothing
/// where the tag does not authenticate it.
pub uninterp spec fn aes256_gcm_decrypted(
    key: Seq<u8>,
    nonce: Seq<u8>,
    aad: Seq<u8>,
    sealed: Seq<u8>,
) -> Option<Seq<u8>>;

/// `Aead::encrypt` of `Aes256Gcm`: refuses a message or associated data over the limit of the
/// mode, and otherwise returns the ciphertext followed by its 16-byte tag. `Aead::decrypt` under
/// the same key, nonce and associated data authenticates it and gives the message back.
#[verifier::external_body]
pub(crate) fn aes256_gcm_encrypt(key: &[u8; 32], nonce: &[u8], aad: &[u8], msg: &[u8]) -> (r: Option<
    Vec<u8>,
>)
    requires
        nonce@.len() == 12,
    ensures
        r is Some <==> within_aes_gcm(aad@, msg@),
        r matches Some(sealed) ==> sealed@ == aes256_gcm_encrypted(key@, nonce@, aad@, msg@),
        r matches Some(sealed) ==> sealed@.len() == msg@.len() + 16,
        r matches Some(sealed) ==> aes256_gcm_decrypted(key@, nonce@, aad@, sealed@) == Some(msg@),
{
    let cipher = Aes256Gcm::new(Key::<Aes256Gcm>::from_slice(key));
    cipher.encrypt(Nonce::from_slice(nonce), Payload { msg, aad }).ok()
}

/// `Aead::decrypt` of `Aes256Gcm`: checks the tag and returns the message, which is 16 bytes
/// shorter, or refuses.
#[verifier::external_body]
pub(crate) fn aes256_gcm_decrypt(
    key: &[u8; 32],
    nonce: &[u8],
    aad: &[u8],
    sealed: &[u8],
) -> (r: Option<Vec<u8>>)
    requires
        nonce@.len() == 12,
    ensures
        bytes_of(r) == aes256_gcm_decrypted(key@, nonce@, aad@, sealed@),
        r matches Some(msg) ==> msg@.len() + 16 == sealed@.len(),
{
    let cipher = Aes256Gcm::new(Key::<Aes256Gcm>::from_slice(key));
    cipher.decrypt(Nonce::from_slice(nonce), Payload { msg: sealed, aad }).ok()
}

// ---------------------------------------------------------------------------
// zstd
// ---------------------------------------------------------------------------

/// The frame that zstd writes for a byte string at a compression level, or nothing where it fails.
pub uninterp spec fn zstd_compressed(data: Seq<u8>, level: int) -> Option<Seq<u8>>;

/// What zstd recovers from a frame into a buffer of `capacity` bytes, or nothing where it is no
/// frame or does not fit.
pub uninterp spec fn zstd_decompressed(data: Seq<u8>, capacity: nat) -> Option<Seq<u8>>;

/// The size of the buffer that a streaming decoder is read into.
pub const DECODE_BUFFER: usize = 0x2_0000;

/// `zstd::stream::read::Decoder`, a decoder that is read piece by piece.
#[verifier::external_type_specification]
#[verifier::external_body]
#[verifier::reject_recursive_types(R)]
pub struct ExDecoder<'a, R>(zstd::stream::read::Decoder<'a, R>);

/// `std::io::BufReader`, which a decoder reads its input through.
#[verifier::external_type_specification]
#[verifier::external_body]
#[verifier::reject_recursive_types(R)]
pub struct ExBufReader<R: ?Sized>(std::io::BufReader<R>);

/// The pieces that reading a decoder into a buffer of [`DECODE_BUFFER`] bytes, again and again,
/// has still to give, in order, up to the one before the first empty one. Nothing stands for a read
/// that fails, which is the last.
pub uninterp spec fn zstd_left(
    decoder: zstd::stream::read::Decoder<'static, std::io::BufReader<&[u8]>>,
) -> Seq<Option<Seq<u8>>>;

/// The pieces that zstd's streaming decoder gives of a byte string under a window limit, or nothing
/// where it cannot be set up.
pub uninterp spec fn zstd_pieces(frame: Seq<u8>, window_log_max: u32) -> Option<
    Seq<Option<Seq<u8>>>,
>;

/// The pieces that a decoder which was set up has still to give.
pub open spec fn pieces_of(
    decoder: Result<zstd::stream::read::Decoder<'static, std::io::BufReader<&[u8]>>, String>,
) -> Option<Seq<Option<Seq<u8>>>> {
    match decoder {
        Ok(decoder) => Some(zstd_left(decoder)),
        Err(_) => None,
    }
}

/// Some pieces, one behind the other, or nothing where a read fails among them.
pub open spec fn joined_pieces(pieces: Seq<Option<Seq<u8>>>) -> Option<Seq<u8>>
    decreases pieces.len(),
{
    if pieces.len() == 0 {
        Some(Seq::empty())
    } else {
        match (pieces[0], joined_pieces(pieces.drop_first())) {
            (Some(piece), Some(rest)) => Some(piece + rest),
            _ => None,
        }
    }
}

/// What a decoder's pieces come to, or nothing where it was not set up or a read fails.
pub open spec fn joined(pieces: Option<Seq<Option<Seq<u8>>>>) -> Option<Seq<u8>> {
    match pieces {
        Some(pieces) => joined_pieces(pieces),
        None => None,
    }
}

/// `zstd::stream::read::Decoder::new` with a window limit: a decoder of the content of the frames,
/// one after the other. A frame of raw blocks holds its content as it is, whatever the window limit
/// from its content's size up. Into which pieces the content is cut is not stated.
#[verifier::external_body]
pub(crate) fn zstd_decoder(frame: &[u8], window_log_max: u32) -> (r: Result<
    zstd::stream::read::Decoder<'static, std::io::BufReader<&[u8]>>,
    String,
>)
    ensures
        pieces_of(r) == zstd_pieces(frame@, window_log_max),
        forall|content: Seq<u8>|
            #![trigger raw_frame(content)]
            fits_window(content.len(), window_log_max) ==> frame@ == raw_frame(content)
                ==> joined(pieces_of(r)) == Some(content),
{
    let mut decoder = zstd::stream::read::Decoder::new(frame).map_err(|err| err.to_string())?;
    decoder.window_log_max(window_log_max).map_err(|err| err.to_string())?;
    Ok(decoder)
}

/// `Read::read` of `zstd::stream::read::Decoder` into a buffer of [`DECODE_BUFFER`] bytes: the next
/// piece, which is not empty, or an empty one once there is none. What a decoder gives after a read
/// that failed is not stated.
#[verifier::external_body]
pub(crate) fn zstd_read(
    decoder: &mut zstd::stream::read::Decoder<'static, std::io::BufReader<&[u8]>>,
    size: usize,
) -> (r: Result<Vec<u8>, String>)
    requires
        size == DECODE_BUFFER,
    ensures
        zstd_left(*old(decoder)).len() == 0 ==> bytes_of_ok(r) == Some(Seq::<u8>::empty()),
        zstd_left(*old(decoder)).len() > 0 ==> bytes_of_ok(r) == zstd_left(*old(decoder))[0],
        zstd_left(*old(decoder)).len() > 0 && r is Ok ==> zstd_left(*final(decoder)) == zstd_left(
            *old(decoder),
        ).drop_first(),
        zstd_left(*old(decoder)).len() > 0 ==> bytes_of_ok(r) != Some(Seq::<u8>::empty()),
        r matches Ok(piece) ==> piece@.len() <= size,
{
    let mut piece = vec![0u8; size];
    let read = decoder.read(&mut piece).map_err(|err| err.to_string())?;
    piece.truncate(read);
    Ok(piece)
}

/// The longest input and the largest capacity that the bulk functions are given here, far below
/// what a vector can hold.
pub const ZSTD_BULK_MAX: usize = 0x1000_0000;

/// `zstd::bulk::compress`: one zstd frame of the data, which `zstd::bulk::decompress_to_buffer`
/// gives back into any buffer that holds it. It gives itself all the room that a frame can take,
/// so it fails only where a compression context cannot be set up; nothing here says when that is.
#[verifier::external_body]
pub(crate) fn zstd_compress(data: &[u8], level: i32) -> (r: Result<Vec<u8>, String>)
    requires
        data@.len() <= ZSTD_BULK_MAX,
    ensures
        bytes_of_ok(r) == zstd_compressed(data@, level as int),
        r matches Ok(frame) ==> forall|capacity: nat|
            capacity >= data@.len() ==> #[trigger] zstd_decompressed(frame@, capacity) == Some(
                data@,
            ),
{
    zstd::bulk::compress(data, level).map_err(|err| err.to_string())
}

/// `zstd::bulk::decompress_to_buffer` into a buffer of exactly `capacity` bytes: the content of
/// the frames, or an error where they are none or do not fit.
#[verifier::external_body]
pub(crate) fn zstd_decompress(data: &[u8], capacity: usize) -> (r: Result<Vec<u8>, String>)
    requires
        capacity <= ZSTD_BULK_MAX,
    ensures
        bytes_of_ok(r) == zstd_decompressed(data@, capacity as nat),
        r matches Ok(content) ==> content@.len() <= capacity,
{
    let mut content = vec![0u8; capacity];
    let written = zstd::bulk::decompress_to_buffer(data, &mut content[..]).map_err(|err| err.to_string())?;
    content.truncate(written);
    Ok(content)
}

// ---------------------------------------------------------------------------
// FastCDC
// ---------------------------------------------------------------------------

/// The lengths of the chunks that FastCDC's 2020 algorithm cuts a byte string into, in order.
pub uninterp spec fn fastcdc_lengths(source: Seq<u8>, min: u32, avg: u32, max: u32) -> Seq<usize>;

/// The sum of a list of lengths.
pub open spec fn sum(lengths: Seq<usize>) -> nat
    decreases lengths.len(),
{
    if lengths.len() == 0 {
        0
    } else {
        sum(lengths.drop_last()) + lengths.last() as nat
    }
}

/// `fastcdc::v2020::FastCDC`, walked to its end: chunks that lie one behind the other and cover
/// the source, none of them empty and none longer than `max`. The bounds on the sizes are the
/// ones its constructor asserts, and the sizes are in order.
#[verifier::external_body]
pub(crate) fn fastcdc_chunks(source: &[u8], min: u32, avg: u32, max: u32) -> (r: Vec<usize>)
    requires
        64 <= min <= 1_048_576,
        256 <= avg <= 4_194_304,
        1024 <= max <= 16_777_216,
        min <= avg <= max,
    ensures
        r@ == fastcdc_lengths(source@, min, avg, max),
        sum(r@) == source@.len(),
        forall|i: int| 0 <= i < r@.len() ==> 0 < #[trigger] r@[i] <= max,
{
    fastcdc::v2020::FastCDC::new(source, min, avg, max).map(|chunk| chunk.length).collect()
}

// ---------------------------------------------------------------------------
// Text
// ---------------------------------------------------------------------------

/// The text of a byte string, with a replacement character for what is not UTF-8.
pub uninterp spec fn lossy_text(bytes: Seq<u8>) -> Seq<char>;

/// `String::from_utf8_lossy`: the text of the bytes, with a replacement character for what is not
/// UTF-8.
#[verifier::external_body]
pub(crate) fn utf8_lossy(bytes: &[u8]) -> (r: String)
    ensures
        r@ == lossy_text(bytes@),
{
    String::from_utf8_lossy(bytes).into_owned()
}

} // verus!
