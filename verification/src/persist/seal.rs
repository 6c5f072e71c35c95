//! Convergent sealing of app-data chunks.
//!
//! A payload is sealed with AES-256-GCM under a nonce that is derived from the payload itself,
//! so equal payloads under one key seal to identical bytes and deduplicate.
//!
//! ```text
//! version     u8        always 2
//! context     u8        0 = payload frame, 1 = table of contents
//! nonce       [u8; 12]  first 12 bytes of the keyed BLAKE3 hash of aad || plaintext
//! ciphertext  [..]      AES-256-GCM ciphertext of flags || payload
//! tag         [u8; 16]  the authentication tag
//! ```
//!
//! The two header bytes are the associated data. The plaintext is a flags byte (bit 0: the
//! payload is a zstd frame of the source chunk; the other bits are reserved) and the payload.

use crate::bytes::{append, part};
use crate::outside::{
    aes256_gcm_decrypt, aes256_gcm_decrypted, aes256_gcm_encrypt, aes256_gcm_encrypted,
    blake3_derive_key, blake3_derived, blake3_keyed, blake3_keyed_digest,
};
use crate::text::{cat3, decimal, decimal_of, hex, hex_of, owned, same, views};
use std::sync::Arc;
use vstd::prelude::*;

verus! {

/// Sealed-payload format version, and the only one this code reads.
pub const SEAL_VERSION: u8 = 2;

/// Nonce length.
pub const NONCE_LEN: usize = 12;

/// Authentication tag length.
pub const TAG_LEN: usize = 16;

/// Header length: version, context, nonce.
pub const HEADER_LEN: usize = 14;

/// Bytes that a seal adds to its payload: the header, the flags byte and the tag.
pub const SEAL_OVERHEAD: usize = 31;

/// Length of a data key.
pub const DATA_KEY_LEN: usize = 32;

/// Flags bit 0: the sealed payload is a zstd frame of the source chunk.
pub const FLAG_COMPRESSED: u8 = 1;

/// The greatest payload that can be sealed: one flags byte under the limit of the cipher.
pub const MAX_PAYLOAD: u64 = 0xf_ffff_ffff;

/// What a sealed payload is. Bound into the associated data, so a table of contents can never
/// be opened as a frame or the reverse.
#[derive(Debug, Clone, Copy, PartialEq, Eq, Structural)]
pub enum SealContext {
    /// One chunk of the plaintext stream.
    Frame,
    /// The stream's table of contents.
    Toc,
}

/// The wire byte of a context.
pub open spec fn context_byte(context: SealContext) -> u8 {
    match context {
        SealContext::Frame => 0,
        SealContext::Toc => 1,
    }
}

impl SealContext {
    /// The wire byte of this context.
    pub fn byte(self) -> (r: u8)
        ensures
            r == context_byte(self),
    {
        match self {
            SealContext::Frame => 0,
            SealContext::Toc => 1,
        }
    }
}

/// Errors from sealing or opening a payload.
#[derive(Debug, Clone, Copy, PartialEq, Eq, Structural)]
pub enum SealError {
    /// The payload is shorter than the envelope.
    Truncated,
    /// The version byte is not the one this code reads.
    UnsupportedVersion(u8),
    /// The payload was sealed under the other context.
    WrongContext { expected: u8, found: u8 },
    /// The authenticated flags set reserved bits.
    UnknownFlags(u8),
    /// The tag does not authenticate the payload under this key.
    Unauthentic,
    /// The cipher refused the payload.
    SealFailed,
    /// A data key of the wrong length.
    BadKeyLength,
}

/// A byte as two hexadecimal digits behind `0x`.
pub open spec fn hex_byte(b: u8) -> Seq<char> {
    "0x"@ + hex(seq![b])
}

/// The message of a sealing error.
pub open spec fn seal_message(e: SealError) -> Seq<char> {
    match e {
        SealError::Truncated => "sealed payload is shorter than the 31-byte envelope"@,
        SealError::UnsupportedVersion(v) => "sealed payload version "@ + decimal(v as nat)
            + " is unsupported (expected 2)"@,
        SealError::WrongContext { expected, found } => "sealed payload is context "@ + decimal(
            found as nat,
        ) + ", the reader asked for context "@ + decimal(expected as nat),
        SealError::UnknownFlags(flags) => "sealed payload sets reserved flag bits ("@ + hex_byte(
            flags,
        ) + ")"@,
        SealError::Unauthentic =>
            "sealed payload failed authentication (wrong key or tampered bytes)"@,
        SealError::SealFailed => "sealing the payload failed"@,
        SealError::BadKeyLength => "data key must be 32 bytes"@,
    }
}

impl SealError {
    /// The message of the error. It carries no key and no plaintext.
    pub fn message(&self) -> (r: String)
        ensures
            r@ == seal_message(*self),
    {
        match self {
            SealError::Truncated => owned("sealed payload is shorter than the 31-byte envelope"),
            SealError::UnsupportedVersion(v) => cat3(
                "sealed payload version ",
                decimal_of(*v as u64).as_str(),
                " is unsupported (expected 2)",
            ),
            SealError::WrongContext { expected, found } => crate::text::cat4(
                "sealed payload is context ",
                decimal_of(*found as u64).as_str(),
                ", the reader asked for context ",
                decimal_of(*expected as u64).as_str(),
            ),
            SealError::UnknownFlags(flags) => {
                let one: [u8; 1] = [*flags];
                assert(one@ =~= seq![*flags]);
                let digits = crate::text::cat2("0x", hex_of(one.as_slice()).as_str());
                cat3("sealed payload sets reserved flag bits (", digits.as_str(), ")")
            },
            SealError::Unauthentic => owned(
                "sealed payload failed authentication (wrong key or tampered bytes)",
            ),
            SealError::SealFailed => owned("sealing the payload failed"),
            SealError::BadKeyLength => owned("data key must be 32 bytes"),
        }
    }
}

/// A 32-byte app-data key: the root of one domain of deduplication.
pub struct DataKey {
    bytes: [u8; 32],
}

impl View for DataKey {
    type V = Seq<u8>;

    closed spec fn view(&self) -> Seq<u8> {
        self.bytes@
    }
}

impl DataKey {
    /// Wraps raw key bytes.
    pub fn new(bytes: [u8; 32]) -> (r: DataKey)
        ensures
            r@ == bytes@,
    {
        DataKey { bytes }
    }

    /// Wraps key bytes delivered as a slice, which must be exactly as long as a key.
    pub fn from_slice(bytes: &[u8]) -> (r: Result<DataKey, SealError>)
        ensures
            match r {
                Ok(key) => bytes@.len() == DATA_KEY_LEN && key@ == bytes@,
                Err(e) => bytes@.len() != DATA_KEY_LEN && e == SealError::BadKeyLength,
            },
    {
        if bytes.len() != DATA_KEY_LEN {
            return Err(SealError::BadKeyLength);
        }
        let key = crate::chunked::array32(bytes, 0);
        assert(bytes@.subrange(0, 32) =~= bytes@);
        Ok(DataKey { bytes: key })
    }

    /// The raw key material.
    fn raw(&self) -> (r: &[u8; 32])
        ensures
            r@ == self@,
    {
        &self.bytes
    }
}

/// `std::sync::atomic::compiler_fence`: keeps the compiler from moving or dropping the writes
/// before it. Nothing can be said of that here.
#[verifier::external_body]
fn fence()
    opens_invariants none
    no_unwind
{
    std::sync::atomic::compiler_fence(std::sync::atomic::Ordering::SeqCst);
}

impl Drop for DataKey {
    /// Overwrites the key. A copy that the compiler left elsewhere stays.
    fn drop(&mut self)
        ensures
            final(self)@ == Seq::new(32, |i: int| 0u8),
        opens_invariants none
        no_unwind
    {
        self.bytes = [
            0, 0, 0, 0, 0, 0, 0, 0, 0, 0, 0, 0, 0, 0, 0, 0,
            0, 0, 0, 0, 0, 0, 0, 0, 0, 0, 0, 0, 0, 0, 0, 0,
        ];
        assert(self.bytes@ =~= Seq::new(32, |i: int| 0u8));
        fence();
    }
}

/// The two subkeys that sealing works with.
pub struct Subkeys {
    /// The AES-256 key.
    pub seal: Seq<u8>,
    /// The key that nonces are derived with.
    pub nonce: Seq<u8>,
}

/// The subkeys of a data key.
pub open spec fn subkeys(key: Seq<u8>) -> Subkeys {
    Subkeys {
        seal: blake3_derived("orc8r appdata seal v1"@, key),
        nonce: blake3_derived("orc8r appdata nonce v1"@, key),
    }
}

/// The associated data of a seal.
pub open spec fn seal_aad(context: SealContext) -> Seq<u8> {
    seq![SEAL_VERSION, context_byte(context)]
}

/// The nonce of a seal: it commits to the header and to everything that is sealed.
pub open spec fn seal_nonce(keys: Subkeys, context: SealContext, plain: Seq<u8>) -> Seq<u8> {
    blake3_keyed(keys.nonce, seal_aad(context) + plain).take(NONCE_LEN as int)
}

/// The sealed form of a payload.
pub open spec fn sealed_bytes(
    keys: Subkeys,
    context: SealContext,
    flags: u8,
    payload: Seq<u8>,
) -> Seq<u8> {
    let plain = seq![flags] + payload;
    let nonce = seal_nonce(keys, context, plain);
    seal_aad(context) + nonce + aes256_gcm_encrypted(keys.seal, nonce, seal_aad(context), plain)
}

/// The flags byte of a payload.
pub open spec fn seal_flags(compressed: bool) -> u8 {
    if compressed {
        FLAG_COMPRESSED
    } else {
        0
    }
}

/// What an authenticated plaintext says.
pub open spec fn opened_plain(plain: Seq<u8>) -> Result<(Seq<u8>, bool), SealError> {
    if plain.len() == 0 {
        Err(SealError::Truncated)
    } else if plain[0] > FLAG_COMPRESSED {
        Err(SealError::UnknownFlags(plain[0]))
    } else {
        Ok((plain.skip(1), plain[0] == FLAG_COMPRESSED))
    }
}

/// What opening a sealed payload answers.
pub open spec fn opened_bytes(keys: Subkeys, context: SealContext, sealed: Seq<u8>) -> Result<
    (Seq<u8>, bool),
    SealError,
> {
    if sealed.len() < SEAL_OVERHEAD {
        Err(SealError::Truncated)
    } else if sealed[0] != SEAL_VERSION {
        Err(SealError::UnsupportedVersion(sealed[0]))
    } else if sealed[1] != context_byte(context) {
        Err(SealError::WrongContext { expected: context_byte(context), found: sealed[1] })
    } else {
        match aes256_gcm_decrypted(
            keys.seal,
            sealed.subrange(2, HEADER_LEN as int),
            seal_aad(context),
            sealed.skip(HEADER_LEN as int),
        ) {
            None => Err(SealError::Unauthentic),
            Some(plain) => opened_plain(plain),
        }
    }
}

/// The payload and flag of an answer, by their views.
pub open spec fn answer_view(r: Result<(Vec<u8>, bool), SealError>) -> Result<
    (Seq<u8>, bool),
    SealError,
> {
    match r {
        Ok((payload, compressed)) => Ok((payload@, compressed)),
        Err(e) => Err(e),
    }
}

/// Seals and opens payloads under one data key.
pub struct Sealer {
    seal_key: [u8; 32],
    nonce_key: DataKey,
}

impl View for Sealer {
    type V = Subkeys;

    closed spec fn view(&self) -> Subkeys {
        Subkeys { seal: self.seal_key@, nonce: self.nonce_key@ }
    }
}

impl Sealer {
    /// Derives the two subkeys from a data key.
    pub fn new(key: &DataKey) -> (r: Sealer)
        ensures
            r@ == subkeys(key@),
    {
        Sealer {
            seal_key: blake3_derive_key("orc8r appdata seal v1", key.raw()),
            nonce_key: DataKey::new(blake3_derive_key("orc8r appdata nonce v1", key.raw())),
        }
    }

    /// Seals a payload, recording in the sealed flags whether it is a zstd frame of the source
    /// chunk. The same key, context, payload and flag always give the same bytes, and opening
    /// them under the same key and context gives the payload and the flag back. Under the other
    /// context every key refuses them for that.
    pub fn seal(&self, context: SealContext, payload: &[u8], compressed: bool) -> (r: Result<
        Vec<u8>,
        SealError,
    >)
        ensures
            match r {
                Ok(out) => payload@.len() <= MAX_PAYLOAD && out@ == sealed_bytes(
                    self@,
                    context,
                    seal_flags(compressed),
                    payload@,
                ) && out@.len() == payload@.len() + SEAL_OVERHEAD && opened_bytes(
                    self@,
                    context,
                    out@,
                ) == Ok::<(Seq<u8>, bool), SealError>((payload@, compressed)) && (forall|
                    keys: Subkeys,
                    other: SealContext,
                |
                    other != context ==> #[trigger] opened_bytes(keys, other, out@) == Err::<
                        (Seq<u8>, bool),
                        SealError,
                    >(
                        SealError::WrongContext {
                            expected: context_byte(other),
                            found: context_byte(context),
                        },
                    )),
                Err(e) => payload@.len() > MAX_PAYLOAD && e == SealError::SealFailed,
            },
    {
        assert((seq![seal_flags(compressed)] + payload@).skip(1) =~= payload@);
        self.seal_with_flags(
            context,
            if compressed {
                FLAG_COMPRESSED
            } else {
                0
            },
            payload,
        )
    }

    /// Seals a payload with the flags byte given.
    pub fn seal_with_flags(&self, context: SealContext, flags: u8, payload: &[u8]) -> (r: Result<
        Vec<u8>,
        SealError,
    >)
        ensures
            match r {
                Ok(out) => payload@.len() <= MAX_PAYLOAD && out@ == sealed_bytes(
                    self@,
                    context,
                    flags,
                    payload@,
                ) && out@.len() == payload@.len() + SEAL_OVERHEAD && opened_bytes(
                    self@,
                    context,
                    out@,
                ) == opened_plain(seq![flags] + payload@) && out@[0] == SEAL_VERSION && out@[1]
                    == context_byte(context),
                Err(e) => payload@.len() > MAX_PAYLOAD && e == SealError::SealFailed,
            },
    {
        let aad: [u8; 2] = [SEAL_VERSION, context.byte()];
        assert(aad@ =~= seal_aad(context));
        let mut plaintext: Vec<u8> = Vec::new();
        plaintext.push(flags);
        append(&mut plaintext, payload);
        assert(plaintext@ =~= seq![flags] + payload@);
        let mut nonce_input: Vec<u8> = Vec::new();
        append(&mut nonce_input, aad.as_slice());
        append(&mut nonce_input, plaintext.as_slice());
        assert(nonce_input@ =~= seal_aad(context) + plaintext@);
        let hash = blake3_keyed_digest(self.nonce_key.raw(), nonce_input.as_slice());
        let nonce = part(hash.as_slice(), 0, NONCE_LEN);
        assert(nonce@ =~= seal_nonce(self@, context, plaintext@));
        match aes256_gcm_encrypt(
            &self.seal_key,
            nonce.as_slice(),
            aad.as_slice(),
            plaintext.as_slice(),
        ) {
            None => Err(SealError::SealFailed),
            Some(ciphertext) => {
                let mut out: Vec<u8> = Vec::new();
                append(&mut out, aad.as_slice());
                append(&mut out, nonce.as_slice());
                append(&mut out, ciphertext.as_slice());
                proof {
                    assert(out@ =~= sealed_bytes(self@, context, flags, payload@));
                    assert(out@.subrange(2, HEADER_LEN as int) =~= nonce@);
                    assert(out@.skip(HEADER_LEN as int) =~= ciphertext@);
                    assert(out@[0] == aad@[0] && out@[1] == aad@[1]);
                }
                Ok(out)
            },
        }
    }

    /// Opens a payload that was sealed under `context`, with the flag that it was sealed with.
    /// The flags byte is read only after the tag has authenticated it; what is as long as the
    /// envelope always has one.
    pub fn open(&self, context: SealContext, sealed: &[u8]) -> (r: Result<
        (Vec<u8>, bool),
        SealError,
    >)
        ensures
            answer_view(r) == opened_bytes(self@, context, sealed@),
            r == Err::<(Vec<u8>, bool), SealError>(SealError::Truncated) <==> sealed@.len()
                < SEAL_OVERHEAD,
    {
        if sealed.len() < SEAL_OVERHEAD {
            return Err(SealError::Truncated);
        }
        let version: u8 = sealed[0];
        if version != SEAL_VERSION {
            return Err(SealError::UnsupportedVersion(version));
        }
        let expected: u8 = context.byte();
        let found: u8 = sealed[1];
        if found != expected {
            return Err(SealError::WrongContext { expected, found });
        }
        let aad: [u8; 2] = [version, found];
        assert(aad@ =~= seal_aad(context));
        let nonce = part(sealed, 2, HEADER_LEN);
        let body = part(sealed, HEADER_LEN, sealed.len());
        assert(body@ =~= sealed@.skip(HEADER_LEN as int));
        let opened = aes256_gcm_decrypt(
            &self.seal_key,
            nonce.as_slice(),
            aad.as_slice(),
            body.as_slice(),
        );
        match opened {
            None => Err(SealError::Unauthentic),
            Some(plaintext) => {
                if plaintext.len() == 0 {
                    return Err(SealError::Truncated);
                }
                let flags: u8 = plaintext[0];
                if flags > FLAG_COMPRESSED {
                    return Err(SealError::UnknownFlags(flags));
                }
                let payload = part(plaintext.as_slice(), 1, plaintext.len());
                assert(payload@ =~= plaintext@.skip(1));
                Ok((payload, flags == FLAG_COMPRESSED))
            },
        }
    }
}

/// Public id of a data key: the first 8 bytes of a key derived from it, in hexadecimal. It
/// reveals nothing of the key itself.
pub fn key_id(key: &DataKey) -> (r: String)
    ensures
        r@ == hex(blake3_derived("orc8r appdata key id v1"@, key@).take(8)),
        r@.len() == 16,
{
    let derived = blake3_derive_key("orc8r appdata key id v1", key.raw());
    let head = part(derived.as_slice(), 0, 8);
    assert(head@ =~= derived@.take(8));
    hex_of(head.as_slice())
}

/// Something that opens sealed payloads: a single [`Sealer`], or a whole [`KeyRing`].
///
/// A caller that opens many payloads may pass on a hint from one to the next: a number that says
/// what to try first. It starts with 0.
pub trait Opener {
    /// What opening answers under a hint.
    spec fn answer(&self, hint: usize, context: SealContext, sealed: Seq<u8>) -> Result<
        (Seq<u8>, bool),
        SealError,
    >;

    /// The hint for the next payload.
    spec fn hint_after(&self, hint: usize, context: SealContext, sealed: Seq<u8>) -> usize;

    /// Opens a payload that was sealed under `context`: the payload, and whether it is a zstd
    /// frame.
    fn open(&self, context: SealContext, sealed: &[u8]) -> (r: Result<(Vec<u8>, bool), SealError>)
        ensures
            answer_view(r) == self.answer(0, context, sealed@),
    ;

    /// Opens a payload under a hint. With the answer comes the hint for the next payload.
    fn open_with(&self, hint: usize, context: SealContext, sealed: &[u8]) -> (r: (
        Result<(Vec<u8>, bool), SealError>,
        usize,
    ))
        ensures
            answer_view(r.0) == self.answer(hint, context, sealed@),
            r.1 == self.hint_after(hint, context, sealed@),
    ;
}

impl Opener for Sealer {
    open spec fn answer(&self, hint: usize, context: SealContext, sealed: Seq<u8>) -> Result<
        (Seq<u8>, bool),
        SealError,
    > {
        opened_bytes(self@, context, sealed)
    }

    open spec fn hint_after(&self, hint: usize, context: SealContext, sealed: Seq<u8>) -> usize {
        hint
    }

    fn open(&self, context: SealContext, sealed: &[u8]) -> (r: Result<(Vec<u8>, bool), SealError>) {
        Sealer::open(self, context, sealed)
    }

    fn open_with(&self, hint: usize, context: SealContext, sealed: &[u8]) -> (r: (
        Result<(Vec<u8>, bool), SealError>,
        usize,
    )) {
        (Sealer::open(self, context, sealed), hint)
    }
}

/// What a ring of keys answers from its key number `start + step` on, going round once: the
/// first answer that is more than a failed authentication.
pub open spec fn ring_answer(
    keys: Seq<Subkeys>,
    start: int,
    step: int,
    context: SealContext,
    sealed: Seq<u8>,
) -> Result<(Seq<u8>, bool), SealError>
    decreases keys.len() - step,
{
    if step >= keys.len() {
        Err(SealError::Unauthentic)
    } else {
        let answer = opened_bytes(keys[(start + step) % keys.len() as int], context, sealed);
        if answer == Err::<(Seq<u8>, bool), SealError>(SealError::Unauthentic) {
            ring_answer(keys, start, step + 1, context, sealed)
        } else {
            answer
        }
    }
}

/// The number of the key of a ring that opens a payload, from key number `start + step` on, going
/// round once: where the first answer that is more than a failed authentication is a payload.
pub open spec fn ring_winner(
    keys: Seq<Subkeys>,
    start: int,
    step: int,
    context: SealContext,
    sealed: Seq<u8>,
) -> Option<int>
    decreases keys.len() - step,
{
    if step >= keys.len() {
        None
    } else {
        let at = (start + step) % keys.len() as int;
        match opened_bytes(keys[at], context, sealed) {
            Ok(_) => Some(at),
            Err(SealError::Unauthentic) => ring_winner(keys, start, step + 1, context, sealed),
            Err(_) => None,
        }
    }
}

/// The key that a ring of so many keys begins with under a hint.
pub open spec fn ring_start(hint: usize, count: nat) -> int {
    if hint < count {
        hint as int
    } else {
        count - 1
    }
}

/// Every key that a pool holds, in the order they are tried.
///
/// A point committed after a key rotation mixes layers of two keys, and nothing says which
/// layer belongs to which: the ring tries its keys in turn and the authentication tag decides. The
/// key that opened a payload is the hint for the next one, so a long ring costs one extra attempt
/// for each layer rather than for each frame.
pub struct KeyRing {
    sealers: Vec<(String, Arc<Sealer>)>,
}

/// The ids and subkeys of a list of sealers.
pub open spec fn ring_pairs(sealers: Seq<(String, Arc<Sealer>)>) -> Seq<(Seq<char>, Subkeys)> {
    Seq::new(sealers.len(), |i: int| (sealers[i].0@, sealers[i].1@))
}

/// The subkeys of a ring.
pub open spec fn ring_keys(pairs: Seq<(Seq<char>, Subkeys)>) -> Seq<Subkeys> {
    Seq::new(pairs.len(), |i: int| pairs[i].1)
}

/// The ids of a ring.
pub open spec fn ring_ids(pairs: Seq<(Seq<char>, Subkeys)>) -> Seq<Seq<char>> {
    Seq::new(pairs.len(), |i: int| pairs[i].0)
}

/// The pairs of a ring with those of one id first, and otherwise in the order they were in.
pub open spec fn preferred(pairs: Seq<(Seq<char>, Subkeys)>, id: Seq<char>) -> Seq<
    (Seq<char>, Subkeys),
> {
    pairs.filter(|p: (Seq<char>, Subkeys)| p.0 == id) + pairs.filter(
        |p: (Seq<char>, Subkeys)| p.0 != id,
    )
}

/// Another handle on the same sealer: `Arc::clone`.
#[verifier::external_body]
fn share(sealer: &Arc<Sealer>) -> (r: Arc<Sealer>)
    ensures
        r == *sealer,
{
    Arc::clone(sealer)
}

impl KeyRing {
    /// The ids and subkeys of the ring, in the order they are tried.
    pub closed spec fn pairs(&self) -> Seq<(Seq<char>, Subkeys)> {
        ring_pairs(self.sealers@)
    }

    /// A ring over `(key id, sealer)` pairs, in the order they are tried.
    pub fn new(sealers: Vec<(String, Arc<Sealer>)>) -> (r: KeyRing)
        ensures
            r.pairs() == ring_pairs(sealers@),
    {
        KeyRing { sealers }
    }

    /// A ring that holds one key.
    pub fn single(id: &str, sealer: Arc<Sealer>) -> (r: KeyRing)
        ensures
            r.pairs() == seq![(id@, sealer@)],
    {
        let mut sealers: Vec<(String, Arc<Sealer>)> = Vec::new();
        sealers.push((owned(id), sealer));
        assert(ring_pairs(sealers@) =~= seq![(id@, sealer@)]);
        KeyRing::new(sealers)
    }

    /// The same keys with those of `key_id` first: what a restore point's own key gets, so the
    /// first attempt is the one that opens everything the point itself wrote.
    pub fn preferring(&self, key_id: &str) -> (r: KeyRing)
        ensures
            r.pairs() == preferred(self.pairs(), key_id@),
    {
        let ghost all = self.pairs();
        let ghost same_id = |p: (Seq<char>, Subkeys)| p.0 == key_id@;
        let ghost other_id = |p: (Seq<char>, Subkeys)| p.0 != key_id@;
        let mut sealers: Vec<(String, Arc<Sealer>)> = Vec::new();
        for i in 0..self.sealers.len()
            invariant
                all == ring_pairs(self.sealers@),
                same_id == (|p: (Seq<char>, Subkeys)| p.0 == key_id@),
                ring_pairs(sealers@) == all.take(i as int).filter(same_id),
        {
            proof {
                assert(all.take(i + 1) =~= all.take(i as int).push(all[i as int]));
                all.take(i as int).lemma_filter_push(all[i as int], same_id);
            }
            if same(self.sealers[i].0.as_str(), key_id) {
                let ghost before = sealers@;
                sealers.push((self.sealers[i].0.clone(), share(&self.sealers[i].1)));
                assert(ring_pairs(sealers@) =~= ring_pairs(before).push(all[i as int]));
            }
        }
        let ghost first = all.filter(same_id);
        assert(all.take(all.len() as int) =~= all);
        assert(first + all.take(0).filter(other_id) =~= first);
        for i in 0..self.sealers.len()
            invariant
                all == ring_pairs(self.sealers@),
                other_id == (|p: (Seq<char>, Subkeys)| p.0 != key_id@),
                ring_pairs(sealers@) == first + all.take(i as int).filter(other_id),
        {
            proof {
                assert(all.take(i + 1) =~= all.take(i as int).push(all[i as int]));
                all.take(i as int).lemma_filter_push(all[i as int], other_id);
            }
            if !same(self.sealers[i].0.as_str(), key_id) {
                let ghost before = sealers@;
                sealers.push((self.sealers[i].0.clone(), share(&self.sealers[i].1)));
                assert(ring_pairs(sealers@) =~= ring_pairs(before).push(all[i as int]));
                assert(ring_pairs(sealers@) =~= first + all.take(i + 1).filter(other_id));
            }
        }
        KeyRing::new(sealers)
    }

    /// Whether the ring holds a key with this id.
    pub fn holds(&self, key_id: &str) -> (r: bool)
        ensures
            r == ring_ids(self.pairs()).contains(key_id@),
    {
        let ghost ids = ring_ids(self.pairs());
        for i in 0..self.sealers.len()
            invariant
                ids == ring_ids(ring_pairs(self.sealers@)),
                forall|j: int| 0 <= j < i ==> ids[j] != key_id@,
        {
            if same(self.sealers[i].0.as_str(), key_id) {
                assert(ids[i as int] == key_id@);
                return true;
            }
        }
        false
    }

    /// How many keys the ring holds.
    pub fn len(&self) -> (r: usize)
        ensures
            r == self.pairs().len(),
    {
        self.sealers.len()
    }

    /// Whether the ring holds no key.
    pub fn is_empty(&self) -> (r: bool)
        ensures
            r == (self.pairs().len() == 0),
    {
        self.sealers.len() == 0
    }

    /// The ids in the ring, in the order they are tried.
    pub fn key_ids(&self) -> (r: Vec<String>)
        ensures
            views(r@) == ring_ids(self.pairs()),
    {
        let mut out: Vec<String> = Vec::new();
        for i in 0..self.sealers.len()
            invariant
                views(out@) == ring_ids(ring_pairs(self.sealers@)).take(i as int),
        {
            let ghost before = out@;
            out.push(self.sealers[i].0.clone());
            proof {
                let ids = ring_ids(ring_pairs(self.sealers@));
                assert(views(out@) =~= views(before).push(ids[i as int]));
                assert(ids.take(i + 1) =~= ids.take(i as int).push(ids[i as int]));
            }
        }
        assert(views(out@) =~= ring_ids(self.pairs()));
        out
    }
}

impl Opener for KeyRing {
    open spec fn answer(&self, hint: usize, context: SealContext, sealed: Seq<u8>) -> Result<
        (Seq<u8>, bool),
        SealError,
    > {
        let keys = ring_keys(self.pairs());
        ring_answer(keys, ring_start(hint, keys.len()), 0, context, sealed)
    }

    open spec fn hint_after(&self, hint: usize, context: SealContext, sealed: Seq<u8>) -> usize {
        let keys = ring_keys(self.pairs());
        match ring_winner(keys, ring_start(hint, keys.len()), 0, context, sealed) {
            Some(k) => k as usize,
            None => hint,
        }
    }

    fn open(&self, context: SealContext, sealed: &[u8]) -> (r: Result<(Vec<u8>, bool), SealError>) {
        self.open_with(0, context, sealed).0
    }

    fn open_with(&self, hint: usize, context: SealContext, sealed: &[u8]) -> (r: (
        Result<(Vec<u8>, bool), SealError>,
        usize,
    )) {
        if self.sealers.len() == 0 {
            return (Err(SealError::Unauthentic), hint);
        }
        let count: usize = self.sealers.len();
        let start: usize = if hint < count {
            hint
        } else {
            count - 1
        };
        let ghost keys = ring_keys(self.pairs());
        let mut step: usize = 0;
        while step < count
            invariant
                count == self.sealers@.len() == keys.len(),
                start < count,
                step <= count,
                keys == ring_keys(self.pairs()),
                self.answer(hint, context, sealed@) == ring_answer(
                    keys,
                    start as int,
                    step as int,
                    context,
                    sealed@,
                ),
                self.hint_after(hint, context, sealed@) == (match ring_winner(
                    keys,
                    start as int,
                    step as int,
                    context,
                    sealed@,
                ) {
                    Some(k) => k as usize,
                    None => hint,
                }),
            decreases count - step,
        {
            let index: usize = if step < count - start {
                start + step
            } else {
                step - (count - start)
            };
            assert(index == (start + step) % count as int) by (nonlinear_arith)
                requires
                    start < count,
                    step < count,
                    index == (if step < count - start {
                        start + step
                    } else {
                        step - (count - start)
                    }),
            ;
            assert(keys[index as int] == self.sealers@[index as int].1@);
            match self.sealers[index].1.open(context, sealed) {
                Ok(opened) => {
                    return (Ok(opened), index);
                },
                Err(SealError::Unauthentic) => {},
                Err(err) => {
                    return (Err(err), hint);
                },
            }
            step += 1;
        }
        (Err(SealError::Unauthentic), hint)
    }
}

/// The steps of a ring before the one that reaches key `k`.
proof fn lemma_ring_reaches(
    keys: Seq<Subkeys>,
    start: int,
    step: int,
    k: int,
    context: SealContext,
    sealed: Seq<u8>,
)
    requires
        0 <= start < keys.len(),
        0 <= step < keys.len(),
        0 <= k < keys.len(),
        step <= (if k >= start {
            k - start
        } else {
            k - start + keys.len()
        }),
        opened_bytes(keys[k], context, sealed) != Err::<(Seq<u8>, bool), SealError>(
            SealError::Unauthentic,
        ),
        forall|i: int, j: int|
            0 <= i < keys.len() && 0 <= j < keys.len() && #[trigger] opened_bytes(
                keys[i],
                context,
                sealed,
            ) != Err::<(Seq<u8>, bool), SealError>(SealError::Unauthentic)
                && #[trigger] opened_bytes(keys[j], context, sealed) != Err::<
                (Seq<u8>, bool),
                SealError,
            >(SealError::Unauthentic) ==> opened_bytes(keys[i], context, sealed) == opened_bytes(
                keys[j],
                context,
                sealed,
            ),
    ensures
        ring_answer(keys, start, step, context, sealed) == opened_bytes(keys[k], context, sealed),
    decreases keys.len() - step,
{
    let n = keys.len() as int;
    let at = (start + step) % n;
    let distance = if k >= start {
        k - start
    } else {
        k - start + n
    };
    assert(0 <= at < n && (at == start + step || at == start + step - n)) by (nonlinear_arith)
        requires
            0 <= start < n,
            0 <= step < n,
            at == (start + step) % n,
    ;
    if opened_bytes(keys[at], context, sealed) == Err::<(Seq<u8>, bool), SealError>(
        SealError::Unauthentic,
    ) {
        assert(at != k);
        assert(step != distance);
        lemma_ring_reaches(keys, start, step + 1, k, context, sealed);
    }
}

/// A ring in which no key gives more than a failed authentication answers with that.
proof fn lemma_ring_all_fail(
    keys: Seq<Subkeys>,
    start: int,
    step: int,
    context: SealContext,
    sealed: Seq<u8>,
)
    requires
        0 <= start < keys.len(),
        0 <= step,
        forall|i: int|
            0 <= i < keys.len() ==> #[trigger] opened_bytes(keys[i], context, sealed) == Err::<
                (Seq<u8>, bool),
                SealError,
            >(SealError::Unauthentic),
    ensures
        ring_answer(keys, start, step, context, sealed) == Err::<(Seq<u8>, bool), SealError>(
            SealError::Unauthentic,
        ),
    decreases keys.len() - step,
{
    if step < keys.len() {
        let n = keys.len() as int;
        assert(0 <= (start + step) % n < n);
        lemma_ring_all_fail(keys, start, step + 1, context, sealed);
    }
}

/// The order of a ring is immaterial: whichever key it begins with, it answers the same, as long
/// as no two of its keys give different answers beyond a failed authentication. Where one key
/// opens the payload, the ring opens it.
pub proof fn law_ring_order_is_immaterial(
    keys: Seq<Subkeys>,
    a: int,
    b: int,
    context: SealContext,
    sealed: Seq<u8>,
)
    requires
        0 <= a < keys.len(),
        0 <= b < keys.len(),
        forall|i: int, j: int|
            0 <= i < keys.len() && 0 <= j < keys.len() && #[trigger] opened_bytes(
                keys[i],
                context,
                sealed,
            ) != Err::<(Seq<u8>, bool), SealError>(SealError::Unauthentic)
                && #[trigger] opened_bytes(keys[j], context, sealed) != Err::<
                (Seq<u8>, bool),
                SealError,
            >(SealError::Unauthentic) ==> opened_bytes(keys[i], context, sealed) == opened_bytes(
                keys[j],
                context,
                sealed,
            ),
    ensures
        ring_answer(keys, a, 0, context, sealed) == ring_answer(keys, b, 0, context, sealed),
        forall|k: int|
            0 <= k < keys.len() && #[trigger] opened_bytes(keys[k], context, sealed) is Ok
                ==> ring_answer(keys, a, 0, context, sealed) == opened_bytes(
                keys[k],
                context,
                sealed,
            ),
{
    let failed = Err::<(Seq<u8>, bool), SealError>(SealError::Unauthentic);
    if exists|k: int| 0 <= k < keys.len() && opened_bytes(keys[k], context, sealed) != failed {
        let k = choose|k: int|
            0 <= k < keys.len() && opened_bytes(keys[k], context, sealed) != failed;
        lemma_ring_reaches(keys, a, 0, k, context, sealed);
        lemma_ring_reaches(keys, b, 0, k, context, sealed);
    } else {
        lemma_ring_all_fail(keys, a, 0, context, sealed);
        lemma_ring_all_fail(keys, b, 0, context, sealed);
    }
}

/// A key that opened a payload opens it again at the first attempt: under the hint that it left,
/// the ring begins with it.
pub proof fn law_the_key_that_opened_is_tried_first(
    keys: Seq<Subkeys>,
    start: int,
    step: int,
    context: SealContext,
    sealed: Seq<u8>,
)
    requires
        0 <= start,
        0 <= step,
        keys.len() <= usize::MAX,
    ensures
        ring_winner(keys, start, step, context, sealed) matches Some(k) ==> {
            &&& 0 <= k < keys.len()
            &&& ring_start(k as usize, keys.len()) == k
            &&& opened_bytes(keys[k], context, sealed) is Ok
            &&& ring_answer(keys, start, step, context, sealed) == opened_bytes(
                keys[k],
                context,
                sealed,
            )
            &&& ring_answer(keys, k, 0, context, sealed) == opened_bytes(keys[k], context, sealed)
        },
        ring_winner(keys, start, step, context, sealed) is Some <==> ring_answer(
            keys,
            start,
            step,
            context,
            sealed,
        ) is Ok,
    decreases keys.len() - step,
{
    if step < keys.len() {
        let n = keys.len() as int;
        let at = (start + step) % n;
        assert(0 <= at < n);
        law_the_key_that_opened_is_tried_first(keys, start, step + 1, context, sealed);
        assert((at + 0) % n == at) by (nonlinear_arith)
            requires
                0 <= at < n,
        ;
    }
}

/// A sealed payload is the version, the context, a nonce of twelve bytes that is drawn from all
/// that is sealed, and the flags and the payload encrypted under that nonce; the version and the
/// context are authenticated with them.
pub proof fn law_a_sealed_payload_is_laid_out(
    keys: Subkeys,
    context: SealContext,
    flags: u8,
    payload: Seq<u8>,
)
    ensures
        ({
            let head = seq![
                2u8,
                match context {
                    SealContext::Frame => 0u8,
                    SealContext::Toc => 1u8,
                },
            ];
            let content = seq![flags] + payload;
            let drawn = blake3_keyed(keys.nonce, head + content);
            let sealed = sealed_bytes(keys, context, flags, payload);
            drawn.len() >= 12 ==> {
                &&& sealed.take(2) == head
                &&& sealed.subrange(2, 14) == drawn.take(12)
                &&& sealed.skip(14) == aes256_gcm_encrypted(
                    keys.seal,
                    drawn.take(12),
                    head,
                    content,
                )
            }
        }),
{
    let head = seal_aad(context);
    let content = seq![flags] + payload;
    let drawn = blake3_keyed(keys.nonce, head + content);
    let sealed = sealed_bytes(keys, context, flags, payload);
    if drawn.len() >= 12 {
        assert(sealed.take(2) =~= head);
        assert(sealed.subrange(2, 14) =~= drawn.take(12));
        assert(sealed.skip(14) =~= aes256_gcm_encrypted(keys.seal, drawn.take(12), head, content));
    }
}

/// What decrypts is a flag and the payload behind it. The flag says whether the payload is
/// compressed, and nothing else may be flagged.
pub proof fn law_the_flag_precedes_the_payload(payload: Seq<u8>, flags: u8)
    ensures
        opened_plain(seq![0u8] + payload) == Ok::<(Seq<u8>, bool), SealError>((payload, false)),
        opened_plain(seq![1u8] + payload) == Ok::<(Seq<u8>, bool), SealError>((payload, true)),
        flags >= 2 ==> opened_plain(seq![flags] + payload) == Err::<(Seq<u8>, bool), SealError>(
            SealError::UnknownFlags(flags),
        ),
        opened_plain(Seq::empty()) is Err,
        seal_flags(true) == 1,
        seal_flags(false) == 0,
{
    assert((seq![0u8] + payload).skip(1) =~= payload);
    assert((seq![1u8] + payload).skip(1) =~= payload);
}

/// Nothing opens that is shorter than an empty sealed payload, is of another version or context, or
/// does not authenticate with what stands in front of it; and what opens is what it decrypts to.
pub proof fn law_only_what_is_authentic_opens(keys: Subkeys, context: SealContext, sealed: Seq<u8>)
    ensures
        opened_bytes(keys, context, sealed) matches Ok((payload, compressed)) ==> {
            &&& sealed.len() >= 31
            &&& sealed[0] == 2
            &&& sealed[1] == (match context {
                SealContext::Frame => 0u8,
                SealContext::Toc => 1u8,
            })
            &&& aes256_gcm_decrypted(
                keys.seal,
                sealed.subrange(2, 14),
                sealed.take(2),
                sealed.skip(14),
            ) == Some(
                seq![
                    if compressed {
                        1u8
                    } else {
                        0u8
                    },
                ] + payload,
            )
        },
        sealed.len() < 31 ==> opened_bytes(keys, context, sealed) == Err::<
            (Seq<u8>, bool),
            SealError,
        >(SealError::Truncated),
        sealed.len() >= 31 && sealed[0] != 2 ==> opened_bytes(keys, context, sealed) == Err::<
            (Seq<u8>, bool),
            SealError,
        >(SealError::UnsupportedVersion(sealed[0])),
{
    if sealed.len() >= 31 {
        assert(sealed.take(2) =~= seq![sealed[0], sealed[1]]);
        if opened_bytes(keys, context, sealed) is Ok {
            let plain = aes256_gcm_decrypted(
                keys.seal,
                sealed.subrange(2, HEADER_LEN as int),
                seal_aad(context),
                sealed.skip(HEADER_LEN as int),
            )->Some_0;
            assert(sealed.take(2) =~= seal_aad(context));
            assert(plain =~= seq![plain[0]] + plain.skip(1));
        }
    }
}

/// Sealing and drawing nonces have each a key of their own, drawn from the data key.
pub proof fn law_each_use_has_its_own_key(key: Seq<u8>)
    ensures
        subkeys(key).seal == blake3_derived("orc8r appdata seal v1"@, key),
        subkeys(key).nonce == blake3_derived("orc8r appdata nonce v1"@, key),
{
}

/// Preferring a key puts the sealers of that key first and keeps every sealer, in its order among
/// its like.
pub proof fn law_preferring_a_key_keeps_them_all(
    pairs: Seq<(Seq<char>, Subkeys)>,
    id: String,
    pair: (Seq<char>, Subkeys),
    i: int,
    j: int,
)
    ensures
        preferred(pairs, id@).contains(pair) <==> pairs.contains(pair),
        preferred(pairs, id@).len() == pairs.len(),
        0 <= i < j < preferred(pairs, id@).len() && preferred(pairs, id@)[j].0 == id@ ==> preferred(
            pairs,
            id@,
        )[i].0 == id@,
{
    broadcast use vstd::seq_lib::group_filter_ensures;

    let own = |p: (Seq<char>, Subkeys)| p.0 == id@;
    let others = |p: (Seq<char>, Subkeys)| p.0 != id@;
    let a = pairs.filter(own);
    let b = pairs.filter(others);
    let all = preferred(pairs, id@);
    assert(all == a + b);
    lemma_filters_part(pairs, own, others);
    if all.contains(pair) {
        let k = all.index_of(pair);
        if k < a.len() {
            assert(a[k] == pair);
            pairs.lemma_filter_contains_rev(own, pair);
        } else {
            assert(b[k - a.len()] == pair);
            pairs.lemma_filter_contains_rev(others, pair);
        }
    }
    if pairs.contains(pair) {
        let k = pairs.index_of(pair);
        if pair.0 == id@ {
            assert(a.contains(pairs[k]));
            let m = a.index_of(pair);
            assert(all[m] == pair);
        } else {
            assert(b.contains(pairs[k]));
            let m = b.index_of(pair);
            assert(all[a.len() + m] == pair);
        }
    }
    if 0 <= i < j < all.len() && all[j].0 == id@ {
        if j >= a.len() {
            assert(others(b[j - a.len()]));
        }
        assert(own(a[i]));
    }
}

proof fn lemma_filters_part(
    pairs: Seq<(Seq<char>, Subkeys)>,
    own: spec_fn((Seq<char>, Subkeys)) -> bool,
    others: spec_fn((Seq<char>, Subkeys)) -> bool,
)
    requires
        forall|p: (Seq<char>, Subkeys)| #[trigger] own(p) <==> !others(p),
    ensures
        pairs.filter(own).len() + pairs.filter(others).len() == pairs.len(),
    decreases pairs.len(),
{
    reveal(Seq::filter);
    if pairs.len() > 0 {
        lemma_filters_part(pairs.drop_last(), own, others);
    }
}

} // verus!
