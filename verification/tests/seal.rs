//! Sealing payloads under a key.

use std::sync::Arc;

use orc_app::persist::seal::{
    key_id, DataKey, KeyRing, Opener, SealContext, SealError, Sealer, DATA_KEY_LEN, HEADER_LEN,
    SEAL_OVERHEAD,
};

fn key(seed: u8) -> DataKey {
    DataKey::new([seed; DATA_KEY_LEN])
}

fn hex(bytes: &[u8]) -> String {
    bytes.iter().map(|byte| format!("{byte:02x}")).collect()
}

/// The id is a derivation, not a prefix of the key, and it is stable: every producer
/// and consumer computes the same 16 hex characters for the same key.
#[test]
fn key_id_is_stable_derived_and_not_the_key() {
    let first = key(7);
    let id = key_id(&first);
    assert_eq!(id.len(), 16);
    assert_eq!(id, key_id(&DataKey::new([7; DATA_KEY_LEN])));
    assert_ne!(id, key_id(&key(8)));
    assert!(!hex(&[7; DATA_KEY_LEN]).starts_with(&id));
}

#[test]
fn round_trips_a_payload() {
    let sealer = Sealer::new(&key(7));
    let payload = b"the quick brown fox jumps over the lazy dog".repeat(100);
    let sealed = sealer
        .seal(SealContext::Frame, &payload, false)
        .expect("seal");
    assert_eq!(sealed.len(), payload.len() + SEAL_OVERHEAD);
    let (opened, compressed) = sealer.open(SealContext::Frame, &sealed).expect("open");
    assert_eq!(opened, payload);
    assert!(!compressed);
}

/// The envelope is exactly the header, the sealed flags byte, and the tag — 31 bytes,
/// and the whole streaming codec's frame-size arithmetic leans on that number.
#[test]
fn the_seal_overhead_is_thirty_one_bytes() {
    assert_eq!(SEAL_OVERHEAD, 31);
    let sealer = Sealer::new(&key(7));
    let payload = [0x5Au8; 1000];
    for context in [SealContext::Frame, SealContext::Toc] {
        for compressed in [false, true] {
            let sealed = sealer.seal(context, &payload, compressed).expect("seal");
            assert_eq!(sealed.len() - payload.len(), SEAL_OVERHEAD);
        }
    }
}

#[test]
fn round_trips_an_empty_payload() {
    let sealer = Sealer::new(&key(7));
    let sealed = sealer.seal(SealContext::Frame, &[], false).expect("seal");
    assert_eq!(sealed.len(), SEAL_OVERHEAD);
    assert_eq!(
        sealer.open(SealContext::Frame, &sealed).expect("open"),
        (Vec::new(), false)
    );
}

#[test]
fn compression_flag_round_trips() {
    let sealer = Sealer::new(&key(3));
    let sealed = sealer
        .seal(SealContext::Frame, b"payload", true)
        .expect("seal");
    // The header carries the context, never the flags.
    assert_eq!(sealed[1], SealContext::Frame.byte());
    let (opened, compressed) = sealer.open(SealContext::Frame, &sealed).expect("open");
    assert_eq!(opened, b"payload");
    assert!(compressed);
}

/// A party holding ciphertext cannot see whether a chunk compressed. Only the version and context bytes are in the clear, and the nonce
/// commits to the flags, so the two seals differ throughout.
#[test]
fn the_compression_flag_is_not_visible_in_the_clear() {
    let sealer = Sealer::new(&key(3));
    let payload = b"the same bytes, sealed twice";
    let plain = sealer
        .seal(SealContext::Frame, payload, false)
        .expect("seal");
    let marked = sealer
        .seal(SealContext::Frame, payload, true)
        .expect("seal");

    assert_eq!(plain.len(), marked.len());
    assert_eq!(
        &plain[..2],
        &marked[..2],
        "only the version and context bytes are outside the seal"
    );
    assert_ne!(
        plain[2..HEADER_LEN],
        marked[2..HEADER_LEN],
        "the nonce commits to the flags byte"
    );
    assert_ne!(plain[HEADER_LEN..], marked[HEADER_LEN..]);
    // No single byte position is the flag: the two seals differ all over, not in one
    // bit of one byte the way a cleartext flags byte would.
    let differing = plain
        .iter()
        .zip(&marked)
        .filter(|(left, right)| left != right)
        .count();
    assert!(
        differing > 1,
        "a cleartext flag would show up as exactly one differing byte"
    );
}

#[test]
fn equal_payloads_seal_identically() {
    let sealer = Sealer::new(&key(1));
    let a = sealer
        .seal(SealContext::Frame, b"convergent", false)
        .expect("seal");
    let b = sealer
        .seal(SealContext::Frame, b"convergent", false)
        .expect("seal");
    assert_eq!(a, b, "convergent sealing must be byte-identical");
}

#[test]
fn a_different_key_seals_differently() {
    let a = Sealer::new(&key(1))
        .seal(SealContext::Frame, b"convergent", false)
        .expect("seal");
    let b = Sealer::new(&key(2))
        .seal(SealContext::Frame, b"convergent", false)
        .expect("seal");
    assert_ne!(a, b);
    // Distinct key domains must not even share a nonce.
    assert_ne!(a[2..HEADER_LEN], b[2..HEADER_LEN]);
}

#[test]
fn a_different_payload_derives_a_different_nonce() {
    let sealer = Sealer::new(&key(1));
    let a = sealer
        .seal(SealContext::Frame, b"payload a", false)
        .expect("seal");
    let b = sealer
        .seal(SealContext::Frame, b"payload b", false)
        .expect("seal");
    assert_ne!(a[2..HEADER_LEN], b[2..HEADER_LEN]);
}

/// A frame and a table of contents are different things sealed under the same key, and
/// neither may be read as the other — named plainly rather than as a wrong key, so a
/// `KeyRing` refuses immediately instead of walking every key it holds.
#[test]
fn a_seal_cannot_be_opened_under_the_other_context() {
    let sealer = Sealer::new(&key(4));
    let frame = sealer
        .seal(SealContext::Frame, b"a chunk", false)
        .expect("seal");
    let toc = sealer
        .seal(SealContext::Toc, b"a chunk", false)
        .expect("seal");
    assert_ne!(frame, toc, "the context must reach the sealed bytes");

    assert!(matches!(
        sealer.open(SealContext::Toc, &frame),
        Err(SealError::WrongContext {
            expected: 1,
            found: 0
        })
    ));
    assert!(matches!(
        sealer.open(SealContext::Frame, &toc),
        Err(SealError::WrongContext {
            expected: 0,
            found: 1
        })
    ));
    // And a ring refuses on the spot rather than trying every key.
    let ring = KeyRing::single("k", Arc::new(Sealer::new(&key(4))));
    assert!(matches!(
        ring.open(SealContext::Toc, &frame),
        Err(SealError::WrongContext { .. })
    ));
}

#[test]
fn a_flipped_context_byte_is_refused() {
    let sealer = Sealer::new(&key(5));
    let mut sealed = sealer
        .seal(SealContext::Frame, b"payload", false)
        .expect("seal");
    sealed[1] = SealContext::Toc.byte();
    assert!(matches!(
        sealer.open(SealContext::Frame, &sealed),
        Err(SealError::WrongContext { .. })
    ));
    // Asked for the context it now claims, the AAD is what refuses it.
    assert!(matches!(
        sealer.open(SealContext::Toc, &sealed),
        Err(SealError::Unauthentic)
    ));
}

#[test]
fn the_version_byte_is_rejected_before_the_tag() {
    let sealer = Sealer::new(&key(5));
    let mut sealed = sealer
        .seal(SealContext::Frame, b"payload", false)
        .expect("seal");
    sealed[0] = 3;
    assert!(matches!(
        sealer.open(SealContext::Frame, &sealed),
        Err(SealError::UnsupportedVersion(3)),
    ));
}

/// Version 1 put the flags byte in the clear and is not read.
#[test]
fn a_version_one_payload_is_refused() {
    let sealer = Sealer::new(&key(5));
    let mut sealed = sealer
        .seal(SealContext::Frame, b"payload", false)
        .expect("seal");
    sealed[0] = 1;
    assert!(matches!(
        sealer.open(SealContext::Frame, &sealed),
        Err(SealError::UnsupportedVersion(1)),
    ));
}

/// Reserved flag bits are inside the seal: only a holder of the key can set them.
#[test]
fn reserved_flag_bits_are_refused() {
    let sealer = Sealer::new(&key(5));
    let sealed = sealer
        .seal_with_flags(SealContext::Frame, 0b1000_0000, b"payload")
        .expect("seal");
    assert!(matches!(
        sealer.open(SealContext::Frame, &sealed),
        Err(SealError::UnknownFlags(0b1000_0000))
    ));
}

#[test]
fn any_tampered_byte_fails_to_open() {
    let sealer = Sealer::new(&key(9));
    let sealed = sealer
        .seal(SealContext::Frame, b"tamper me", false)
        .expect("seal");
    for index in 0..sealed.len() {
        let mut tampered = sealed.clone();
        tampered[index] ^= 0x01;
        let opened = sealer.open(SealContext::Frame, &tampered);
        assert!(
            opened.is_err(),
            "flipping byte {index} must not open cleanly"
        );
    }
}

#[test]
fn a_truncated_payload_is_refused() {
    let sealer = Sealer::new(&key(9));
    let sealed = sealer
        .seal(SealContext::Frame, b"payload", false)
        .expect("seal");
    assert!(matches!(
        sealer.open(SealContext::Frame, &sealed[..SEAL_OVERHEAD - 1]),
        Err(SealError::Truncated)
    ));
    // Truncating the tag is an authentication failure, not a length failure.
    assert!(matches!(
        sealer.open(SealContext::Frame, &sealed[..sealed.len() - 1]),
        Err(SealError::Unauthentic)
    ));
}

#[test]
fn the_wrong_key_fails_to_open() {
    let sealed = Sealer::new(&key(1))
        .seal(SealContext::Frame, b"secret", false)
        .expect("seal");
    assert!(matches!(
        Sealer::new(&key(2)).open(SealContext::Frame, &sealed),
        Err(SealError::Unauthentic)
    ));
}

#[test]
fn a_key_of_the_wrong_length_is_refused() {
    assert!(DataKey::from_slice(&[0u8; 31]).is_err());
    assert!(DataKey::from_slice(&[0u8; 32]).is_ok());
}

/// Golden vector: pins the byte-exact wire format (header layout, derived nonce, AAD
/// and ciphertext) for a fixed key and payload. A change here changes every cid in
/// every existing restore point.
#[test]
fn wire_format_is_pinned() {
    let sealer = Sealer::new(&DataKey::new([
        0x00, 0x01, 0x02, 0x03, 0x04, 0x05, 0x06, 0x07, 0x08, 0x09, 0x0a, 0x0b, 0x0c, 0x0d,
        0x0e, 0x0f, 0x10, 0x11, 0x12, 0x13, 0x14, 0x15, 0x16, 0x17, 0x18, 0x19, 0x1a, 0x1b,
        0x1c, 0x1d, 0x1e, 0x1f,
    ]));
    let sealed = sealer
        .seal(SealContext::Frame, b"orc8r appdata golden vector", false)
        .expect("seal");
    assert_eq!(
        hex(&sealed),
        "0200fa5950d4f8ed876e5a9a755937d1b1d8268a4d4ec009b80a4deb797931ce2c67344ed43e690f7ebc048bf4a2596dca981bcfbece431bd229"
    );

    // Same key and same payload, sealed as compressed: the nonce and the ciphertext differ.
    let marked = sealer
        .seal(SealContext::Frame, b"orc8r appdata golden vector", true)
        .expect("seal");
    assert_eq!(
        hex(&marked),
        "02007b1da9db1449d4219adb10d346b007888c56c3e79bb01e10cc3d9e83c5c50fc1803328294a5966e8e30f51e238db8e3f9f7d9c2ff2f65aa7"
    );
    assert_ne!(sealed[2..HEADER_LEN], marked[2..HEADER_LEN]);
    assert_ne!(sealed[HEADER_LEN..], marked[HEADER_LEN..]);
}

fn ring(seeds: &[u8]) -> KeyRing {
    KeyRing::new(
        seeds
            .iter()
            .map(|seed| (key_id(&key(*seed)), Arc::new(Sealer::new(&key(*seed)))))
            .collect(),
    )
}

/// A ring opens what any of its keys sealed, in whatever order it holds them.
#[test]
fn a_ring_opens_under_any_of_its_keys() {
    let sealed = Sealer::new(&key(2))
        .seal(SealContext::Frame, b"secret", true)
        .expect("seal");
    for seeds in [[1, 2, 3], [3, 2, 1], [2, 3, 1]] {
        assert_eq!(
            ring(&seeds).open(SealContext::Frame, &sealed).expect("open"),
            (b"secret".to_vec(), true)
        );
    }
    assert!(matches!(
        ring(&[1, 3]).open(SealContext::Frame, &sealed),
        Err(SealError::Unauthentic)
    ));
    // The key that opened a payload is the hint for the next one.
    let ring = ring(&[1, 2, 3]);
    for hint in [0, 1, 2, 9] {
        let (opened, next) = ring.open_with(hint, SealContext::Frame, &sealed);
        assert_eq!(opened.expect("open").0, b"secret");
        assert_eq!(next, 1);
    }
    let other = Sealer::new(&key(9)).seal(SealContext::Frame, b"x", false).expect("seal");
    let (refused, next) = ring.open_with(2, SealContext::Frame, &other);
    assert_eq!(refused, Err(SealError::Unauthentic));
    assert_eq!(next, 2, "a failed attempt leaves the hint as it was");
    let (refused, next) = ring.open_with(1, SealContext::Toc, &sealed);
    assert!(matches!(refused, Err(SealError::WrongContext { .. })));
    assert_eq!(next, 1);
    let sealer = Sealer::new(&key(2));
    assert_eq!(sealer.open_with(7, SealContext::Frame, &sealed), (Ok((b"secret".to_vec(), true)), 7));
}

#[test]
fn a_ring_prefers_the_key_it_is_told() {
    let ring = ring(&[1, 2, 3]);
    assert_eq!(ring.len(), 3);
    assert!(!ring.is_empty());
    let wanted = key_id(&key(3));
    assert!(ring.holds(&wanted));
    assert!(!ring.holds("ffff"));
    let preferring = ring.preferring(&wanted);
    assert_eq!(
        preferring.key_ids(),
        [wanted, key_id(&key(1)), key_id(&key(2))]
    );
    assert_eq!(ring.preferring("ffff").key_ids(), ring.key_ids());
    assert!(KeyRing::new(Vec::new()).is_empty());
}

#[test]
fn a_seal_error_says_what_is_wrong() {
    let sealer = Sealer::new(&key(1));
    let err = sealer.open(SealContext::Frame, &[]).expect_err("short");
    assert_eq!(err, SealError::Truncated);
    assert!(!err.message().is_empty());
    assert_ne!(SealError::Unauthentic.message(), err.message());
}
