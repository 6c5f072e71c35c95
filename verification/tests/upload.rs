//! Uploading layers and committing points.

use orc_app::error::CliError;
use orc_app::persist::pack::PlannedFile;
use orc_app::persist::seal::{DataKey, Sealer};
use orc_app::persist::stream::{encode_sealed_stream, SealedLayer};
use orc_app::persist::tree::LayerRef;
use orc_app::persist::upload::{
    abandoned, app_leaf, app_repository, asked_flags, check_converged, commit_outcome, layer_ref,
    next_batch, push_record, retries_with_fresh_token, skipped_bytes, Batcher, ChainStep,
    CommitAnswer, CommitError, CommitKind, CommitOutcome, CommitRequest, FileChain, Ladder, Reply,
    Rung, ABANDONED, MAX_RESUME,
};
use serde_json::Value;

fn sealer() -> Sealer {
    Sealer::new(&DataKey::new([9u8; 32]))
}

fn planned(path: &str, len: u64) -> PlannedFile {
    PlannedFile {
        path: path.to_owned(),
        source: path.to_owned(),
        offset: 0,
        len,
    }
}

/// The base repository and the app's own last segment under it.
#[test]
fn an_apps_repository_is_its_leaf_under_the_pools_base() {
    assert_eq!(
        app_repository("acme/prod/appdata-workers", "sys/sys/persist-probe"),
        "acme/prod/appdata-workers/persist-probe"
    );
    // An app id with no namespace is its own leaf.
    assert_eq!(
        app_repository("acme/prod/appdata-workers", "postgres"),
        "acme/prod/appdata-workers/postgres"
    );
    // Two apps of one pool are two repositories, never one.
    assert_ne!(
        app_repository("acme/prod/appdata-workers", "sys/sys/postgres"),
        app_repository("acme/prod/appdata-workers", "sys/sys/redis")
    );
}

/// No path with an empty segment comes out, whatever goes in.
#[test]
fn a_malformed_base_or_app_still_addresses_one_repository() {
    assert_eq!(
        app_repository("acme/prod/appdata-workers/", "sys/sys/postgres"),
        "acme/prod/appdata-workers/postgres"
    );
    assert_eq!(
        app_repository("acme/prod/appdata-workers", "sys/sys/postgres/"),
        "acme/prod/appdata-workers/postgres"
    );
    // No leaf at all leaves the base addressed rather than a trailing slash.
    assert_eq!(
        app_repository("acme/prod/appdata-workers", ""),
        "acme/prod/appdata-workers"
    );
    assert_eq!(
        app_repository("acme/prod/appdata-workers", "/"),
        "acme/prod/appdata-workers"
    );
    assert_eq!(
        app_repository("acme/prod/appdata-workers//", "///"),
        "acme/prod/appdata-workers"
    );
    assert_eq!(app_leaf("sys/sys/postgres"), "postgres");
    assert_eq!(app_leaf("postgres"), "postgres");
}

fn commit_request(kind: CommitKind) -> CommitRequest {
    CommitRequest {
        app: "postgres".to_owned(),
        key_id: "0123456789abcdef".to_owned(),
        created_at: 1_700_000_000,
        index: LayerRef {
            digest: "sha256:aa".to_owned(),
            size: 1,
        },
        layers: Vec::new(),
        files: 1,
        bytes: 2,
        kind,
    }
}

/// The server reads `kind` off the wire as a lowercase word.
#[test]
fn a_commit_body_spells_its_kind_the_way_the_server_reads_it() {
    assert_eq!(commit_request(CommitKind::default()).kind.word(), "periodic");
    assert_eq!(commit_request(CommitKind::Final).kind.word(), "final");
    assert!(CommitKind::Final.is_final());
    assert!(!CommitKind::Periodic.is_final());
}

/// Reads a chain over files in memory to its end.
fn read_chain(files: &[(&str, &[u8], u64)]) -> Result<Vec<u8>, String> {
    let mut chain = FileChain::new(
        files
            .iter()
            .map(|(path, _, len)| planned(path, *len))
            .collect(),
    );
    let mut out = Vec::new();
    let mut open: &[u8] = &[];
    loop {
        match chain.step(4) {
            ChainStep::Open(index) => {
                open = files[index].1;
                chain.opened();
            }
            ChainStep::Read(room) => {
                let n = room.min(open.len());
                out.extend_from_slice(&open[..n]);
                open = &open[n..];
                chain.read(n)?;
            }
            ChainStep::End => return Ok(out),
        }
    }
}

#[test]
fn a_file_chain_reads_exactly_what_the_plan_declares() {
    let body = read_chain(&[("a", b"hello ", 6), ("b", b"world", 5)]).expect("read");
    assert_eq!(body, b"hello world");
}

#[test]
fn a_file_chain_stops_at_the_planned_length_of_a_grown_file() {
    let body = read_chain(&[("a", b"planned+extra", 7)]).expect("read");
    assert_eq!(body, b"planned");
}

#[test]
fn a_file_chain_refuses_a_file_that_shrank() {
    let err = read_chain(&[("a", b"short", 50)]).expect_err("refused");
    assert!(err.contains("shorter than"), "{err}");
    assert_eq!(
        err,
        "a is shorter than the 45 bytes still planned for it; the capture view changed underneath the upload"
    );
}

fn body() -> Vec<u8> {
    // Compressible and incompressible runs, long enough to cross several chunks.
    let mut body = Vec::new();
    for index in 0..200_000u32 {
        body.extend_from_slice(&index.to_le_bytes());
        body.extend_from_slice(b"the quick brown fox ");
    }
    body
}

fn frames_of(wire: &[u8], layer: &SealedLayer) -> Vec<Vec<u8>> {
    layer
        .recipe_entries()
        .iter()
        .map(|entry| {
            let from = usize::try_from(entry.frame_offset).expect("offset");
            let len = usize::try_from(entry.frame_length).expect("length");
            wire[from..from + len].to_vec()
        })
        .collect()
}

/// The same bytes seal to the same layer, frame for frame, however often they are encoded.
#[test]
fn re_encoding_is_byte_identical() {
    let sealer = sealer();
    let body = body();
    let encode = || {
        let (wire, layer) = encode_sealed_stream(&body, &sealer).ok().expect("encode");
        let frames = frames_of(&wire, &layer);
        (layer.layer_digest, frames)
    };
    let (first_digest, first_frames) = encode();
    let (second_digest, second_frames) = encode();
    assert_eq!(first_digest, second_digest);
    assert_eq!(first_frames, second_frames);
    assert!(first_frames.len() > 2, "the body must cross frames");
    assert!(check_converged("a", &first_digest, &second_digest).is_ok());
    let err = check_converged("a", "sha256:x", "sha256:y").expect_err("diverged");
    assert_eq!(
        err.message(),
        "app data: re-encoding a produced sha256:x instead of sha256:y; the sealed codec must be deterministic and this layer is abandoned"
    );
}

fn answer(body: &[u8]) -> CommitAnswer {
    let value: Value = serde_json::from_slice(body).unwrap_or(Value::Null);
    let text = |key: &str| value[key].as_str().unwrap_or_default().to_owned();
    CommitAnswer {
        id: text("id"),
        error: text("error"),
        digest: text("digest"),
        stored: value["stored"].as_u64().unwrap_or(0),
        limit: value["limit"].as_u64().unwrap_or(0),
        app: text("app"),
        retry_after: value["retry_after"].as_i64().unwrap_or(0),
    }
}

#[test]
fn a_commit_answer_maps_to_the_contract_vocabulary() {
    let read = |status: u16, body: &[u8]| {
        commit_outcome(status, answer(body), body, "org/proj/appdata-pool")
    };
    let outcome = read(201, br#"{"id":"rp-7"}"#).expect("created");
    assert_eq!(
        outcome,
        CommitOutcome {
            id: "rp-7".to_owned(),
            created: true
        }
    );
    let outcome = read(200, br#"{"id":"rp-6"}"#).expect("idempotent");
    assert!(!outcome.created, "a matched point is not a new one");

    let cases: Vec<(u16, &[u8], &str)> = vec![
        (409, b"{\"error\":\"fenced\"}", "no longer occupies"),
        (403, b"{\"error\":\"scope\"}", "does not authorize"),
        (
            413,
            b"{\"error\":\"quota\",\"stored\":10,\"limit\":20}",
            "20-byte allowance",
        ),
        (
            422,
            b"{\"error\":\"unknown-blob\",\"digest\":\"sha256:aa\"}",
            "does not hold layer sha256:aa",
        ),
        (
            422,
            b"{\"error\":\"size-mismatch\",\"digest\":\"sha256:bb\"}",
            "different size",
        ),
        (
            422,
            b"{\"error\":\"unknown-app\",\"app\":\"ghost\"}",
            "not a persisting app",
        ),
        (429, b"{}", "committed moments ago"),
        (503, b"{\"error\":\"store\"}", "could not verify"),
        (500, b"boom", "commit returned 500"),
    ];
    for (status, body, expected) in cases {
        let err = read(status, body).expect_err("refused");
        assert!(
            err.message().contains(expected),
            "{status}: {err:?} does not mention {expected:?}"
        );
    }
    let err = read(500, b"\xffboom").expect_err("refused");
    assert!(matches!(err, CommitError::Unexpected { status: 500, ref body } if body == "\u{fffd}boom"));
}

/// The requests of a negotiation hold the missing frames in order, each once.
#[test]
fn requests_hold_the_missing_frames() {
    let frames = vec![vec![1u8; 3], vec![2u8; 2], vec![3u8; 1]];
    let (batch, next) = next_batch(&frames, &vec![2, 0], 0).expect("batch");
    assert_eq!(next, 2);
    assert_eq!(
        batch,
        [2, 0, 0, 0, 1, 0, 0, 0, 3, 0, 0, 0, 0, 3, 0, 0, 0, 1, 1, 1]
    );
    let err = next_batch(&frames, &vec![7], 0).expect_err("no such frame");
    assert_eq!(
        err.message(),
        "app data: the registry asked for frame 7, which this layer does not have"
    );
    // A full request is handed out at once.
    let big = vec![vec![0u8; 0x80_0000], vec![1u8; 1]];
    let (batch, next) = next_batch(&big, &vec![0, 1], 0).expect("batch");
    assert_eq!(next, 1);
    assert_eq!(batch.len(), 0x80_0000 + 8);

    assert_eq!(asked_flags(&vec![1, 5], 3), [false, true, false]);
    let mut batcher = Batcher::new(vec![true, false, true]);
    assert!(batcher.take(&[9]).is_none());
    assert!(batcher.take(&[8]).is_none());
    assert!(batcher.take(&[7]).is_none());
    let mut expected = Vec::new();
    push_record(&mut expected, 0, &[9]);
    push_record(&mut expected, 2, &[7]);
    assert_eq!(batcher.finish(), Some(expected));
    let mut closed = Batcher::new(vec![true]);
    closed.close();
    assert!(closed.take(&[1]).is_none());
    assert!(closed.finish().is_none());
}

/// A request goes out as soon as it is full, and the next one starts behind it.
#[test]
fn a_second_encoding_sends_the_wanted_frames_once() {
    let frames = [vec![1u8; 5], vec![2u8; 0x80_0000], vec![3u8; 4], vec![4u8; 2]];
    let mut batcher = Batcher::new(vec![true, true, false, true]);
    let mut sent = Vec::new();
    let mut requests = 0;
    for frame in &frames {
        if let Some(request) = batcher.take(frame) {
            requests += 1;
            sent.extend_from_slice(&request);
        }
    }
    assert_eq!(requests, 1);
    sent.extend_from_slice(&batcher.finish().expect("the rest"));
    let mut expected = Vec::new();
    push_record(&mut expected, 0, &frames[0]);
    push_record(&mut expected, 1, &frames[1]);
    push_record(&mut expected, 3, &frames[3]);
    assert!(sent == expected);
}

#[test]
fn a_stored_layer_is_as_long_as_its_stream() {
    let (wire, layer) = encode_sealed_stream(&body(), &sealer()).ok().expect("encode");
    let stored = layer_ref(&layer);
    assert_eq!(stored.digest, layer.layer_digest);
    assert_eq!(stored.size, wire.len() as u64);
    let frames = frames_of(&wire, &layer);
    let all: Vec<u32> = (0..u32::try_from(frames.len()).expect("count")).collect();
    assert_eq!(skipped_bytes(&layer, &all), 0);
    assert_eq!(skipped_bytes(&layer, &vec![]), wire.len() as u64);
    assert_eq!(
        skipped_bytes(&layer, &vec![0]),
        (wire.len() - frames[0].len()) as u64
    );
}

#[test]
fn an_upload_is_negotiated_a_limited_number_of_times() {
    let mut ladder = Ladder::new("repo", "sha256:d");
    for turn in 0..MAX_RESUME {
        assert_eq!(ladder.rung, Rung::Negotiate);
        ladder.negotiated(&format!("s{turn}"));
        assert_eq!(ladder.rung, Rung::Send);
        ladder.sent(Reply::Acknowledged);
        assert_eq!(ladder.rung, Rung::Send);
        ladder.all_sent();
        ladder.finalized(Reply::Retry);
    }
    assert_eq!(ladder.rung, Rung::Over);
    assert_eq!(
        ladder.failure.as_ref().map(|e| e.message()),
        Some("app data: uploading sha256:d to repo did not converge after 3 negotiations".to_owned())
    );
    assert_eq!(ladder.hand_back(false), Some("s2".to_owned()));
    assert_eq!(ladder.hand_back(true), None);
}

#[test]
fn a_stored_upload_leaves_no_session_behind() {
    let mut ladder = Ladder::new("repo", "sha256:d");
    ladder.negotiated("s");
    ladder.all_sent();
    ladder.finalized(Reply::Acknowledged);
    assert_eq!(ladder.rung, Rung::Over);
    assert!(ladder.failure.is_none());
    assert_eq!(ladder.hand_back(false), None);

    let mut ladder = Ladder::new("repo", "sha256:d");
    ladder.negotiated("s");
    ladder.sent(Reply::Fatal(CliError::Auth("no".to_owned())));
    assert_eq!(ladder.hand_back(false), None, "a rejected token keeps its session");
    assert!(retries_with_fresh_token(0, &ladder.failure));
    assert!(!retries_with_fresh_token(1, &ladder.failure));
    assert!(!retries_with_fresh_token(0, &None));

    let mut ladder = Ladder::new("repo", "sha256:d");
    ladder.negotiated("s");
    ladder.unsendable(CliError::Operational("x".to_owned()));
    assert_eq!(ladder.hand_back(false), Some("s".to_owned()));
    let mut ladder = Ladder::new("repo", "sha256:d");
    ladder.refused(CliError::Operational("x".to_owned()));
    assert_eq!(ladder.rung, Rung::Over);
    assert_eq!(ladder.hand_back(false), None);
    assert_eq!(abandoned().message(), ABANDONED);
}
