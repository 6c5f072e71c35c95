//! Talking to a registry: addresses, challenges, tokens, downloads and uploads.

use orc_app::app::{Descriptor, ImageIndex, ImageManifest, ManifestDocument};
use orc_app::chunked::{ChunkEntry, ChunkerParams, Toc, FORMAT_VERSION};
use orc_app::error::CliError;
use orc_app::persist::stream::digest_bytes;
use orc_app::persist::upload::Reply;
use orc_app::registry::address::{
    access_denied_message, chunk_boundaries, content_range, finalize_url, parse_chunk_size,
    registry_base_url, request_path, scope_hint, token_cache_keys, url_for_location, url_for_path,
    Method, UPLOAD_CHUNK_SIZE,
};
use orc_app::registry::auth::{
    choose_token, credential_of_login, exchange_query, first_auth, needs_preflight,
    preflight_auth, token_status, Attempts, AuthStep, RegistryCredential, RequestAuth, TokenCache,
};
use orc_app::registry::blob::{
    blob_path, stored_manifest, verify_digest, BlobUpload, Download, RegistryResponse,
    UploadAction,
};
use orc_app::registry::catalog::{
    add_referrer, config_place, filter_referrers, listed_config, referrers_tag, CatalogWalk,
    ConfigPlace, ReferrerDescriptor,
};
use orc_app::registry::challenge::{
    parse_www_authenticate, select_challenge, AuthChallenge, BearerChallenge,
};
use orc_app::registry::status::{
    blob_exists, check_ping, check_resource, lists_referrers, status_error, status_ok, Status,
};
use orc_app::registry::wire::{
    check_negotiated, chunked_recipe, finalize_reply, next_wire_batch, patch_reply, push_outcome,
    sealed_recipe, sessions_held, total_length, wire_frames, ChunkedPush, PushStage,
};

fn bearer(realm: &str, service: Option<&str>, scope: Option<&str>) -> AuthChallenge {
    AuthChallenge::Bearer(BearerChallenge {
        realm: realm.to_owned(),
        service: service.map(str::to_owned),
        scope: scope.map(str::to_owned),
    })
}

#[test]
fn parses_ghcr_bearer_challenge() {
    let parsed = parse_www_authenticate(
        "Bearer realm=\"https://ghcr.io/token\",service=\"ghcr.io\",scope=\"repository:acme/runner:pull\"",
    );
    assert_eq!(
        parsed,
        [bearer(
            "https://ghcr.io/token",
            Some("ghcr.io"),
            Some("repository:acme/runner:pull")
        )]
    );
}

#[test]
fn parses_bearer_challenge_without_scope() {
    let parsed = parse_www_authenticate(
        "Bearer realm=\"http://localhost:8080/api/auth/registry/token\",service=\"orc-registry\"",
    );
    assert_eq!(
        parsed,
        [bearer(
            "http://localhost:8080/api/auth/registry/token",
            Some("orc-registry"),
            None
        )]
    );
}

#[test]
fn quoted_scope_with_comma_is_one_param() {
    let parsed =
        parse_www_authenticate("Bearer realm=\"https://t/token\",scope=\"repository:a:pull,push\"");
    assert_eq!(
        parsed,
        [bearer(
            "https://t/token",
            None,
            Some("repository:a:pull,push")
        )]
    );
}

#[test]
fn parses_unquoted_param_values() {
    let parsed = parse_www_authenticate("Bearer realm=https://t/token,service=reg");
    assert_eq!(parsed, [bearer("https://t/token", Some("reg"), None)]);
}

#[test]
fn parses_escaped_quotes_in_quoted_string() {
    let parsed = parse_www_authenticate(r#"Bearer realm="https://t/\"quoted\"""#);
    assert_eq!(parsed, [bearer(r#"https://t/"quoted""#, None, None)]);
}

#[test]
fn recognizes_basic_challenge() {
    assert_eq!(
        parse_www_authenticate("Basic realm=\"orc-registry-token\""),
        [AuthChallenge::Basic]
    );
    assert_eq!(parse_www_authenticate("Basic"), [AuthChallenge::Basic]);
}

#[test]
fn mixed_challenges_parse_in_order() {
    let parsed =
        parse_www_authenticate("Basic realm=\"r\", Bearer realm=\"https://t\",service=\"s\"");
    assert_eq!(
        parsed,
        [AuthChallenge::Basic, bearer("https://t", Some("s"), None)]
    );
}

#[test]
fn select_challenge_prefers_bearer_over_basic() {
    assert_eq!(
        select_challenge(&vec![
            "Basic realm=\"r\", Bearer realm=\"https://t\"".to_owned()
        ]),
        Some(bearer("https://t", None, None))
    );
    assert_eq!(
        select_challenge(&vec!["Basic".to_owned(), "???".to_owned()]),
        Some(AuthChallenge::Basic)
    );
    assert_eq!(select_challenge(&vec![]), None);
}

#[test]
fn garbage_header_yields_nothing() {
    assert_eq!(parse_www_authenticate("???,,,==="), []);
    assert_eq!(parse_www_authenticate(""), []);
}

#[test]
fn bearer_without_realm_is_dropped() {
    assert_eq!(parse_www_authenticate("Bearer service=\"s\""), []);
}

#[test]
fn scope_hints_cover_catalog_manifests_blobs_and_tags() {
    let cases = [
        (
            Method::Get,
            "/v2/_catalog?n=100",
            Some("registry:catalog:*"),
        ),
        (
            Method::Get,
            "/v2/acme/runner/manifests/default",
            Some("repository:acme/runner:pull"),
        ),
        (
            Method::Head,
            "/v2/app/blobs/sha256:abc",
            Some("repository:app:pull"),
        ),
        (
            Method::Put,
            "/v2/acme/runner/manifests/1.0",
            Some("repository:acme/runner:push"),
        ),
        (
            Method::Post,
            "/v2/a/b/c/blobs/uploads/",
            Some("repository:a/b/c:push"),
        ),
        (
            Method::Put,
            "/v2/acme/runner/blobs/uploads/abc-123?digest=sha256:ff",
            Some("repository:acme/runner:push"),
        ),
        (
            Method::Get,
            "/v2/acme/app/tags/list",
            Some("repository:acme/app:pull"),
        ),
        (Method::Get, "/api/other", None),
        (Method::Get, "/v2/", None),
    ];
    for (method, path, expected) in cases {
        assert_eq!(
            scope_hint(method, path).as_deref(),
            expected,
            "{method:?} {path}"
        );
    }
}

/// A granted scope is filed under every action it covers.
#[test]
fn granted_scope_is_cached_under_each_action() {
    assert_eq!(
        token_cache_keys(Some("repository:acme/app:push")),
        ["repository:acme/app:push"]
    );
    assert_eq!(
        token_cache_keys(Some("repository:acme/app:pull,push")),
        ["repository:acme/app:pull", "repository:acme/app:push"]
    );
    assert_eq!(token_cache_keys(None), [""]);
    assert_eq!(
        token_cache_keys(Some("registry:catalog:*")),
        ["registry:catalog:*"]
    );
}

/// The key that a blob PUT looks up is one that the token exchange filed.
#[test]
fn blob_put_scope_hint_hits_tokens_cached_from_either_challenge() {
    let hint = scope_hint(Method::Put, "/v2/acme/app/blobs/uploads/s1?digest=sha256:ab")
        .expect("hint");
    for challenge in ["repository:acme/app:push", "repository:acme/app:pull,push"] {
        assert!(
            token_cache_keys(Some(challenge)).contains(&hint),
            "{challenge} must satisfy {hint}"
        );
    }
}

#[test]
fn chunk_boundaries_cover_edges_multiples_and_remainder() {
    assert!(
        chunk_boundaries(0, 4).is_empty(),
        "a zero-length body has no chunks"
    );
    assert_eq!(chunk_boundaries(8, 4), [(0, 4), (4, 8)], "exact multiple");
    assert_eq!(
        chunk_boundaries(10, 4),
        [(0, 4), (4, 8), (8, 10)],
        "trailing remainder"
    );
    assert_eq!(
        chunk_boundaries(3, 4),
        [(0, 3)],
        "body smaller than a chunk"
    );
    assert_eq!(chunk_boundaries(4, 4), [(0, 4)], "body exactly one chunk");
    assert_eq!(
        chunk_boundaries(2, 0),
        [(0, 1), (1, 2)],
        "a zero chunk size is floored to 1 so the walk terminates"
    );
}

#[test]
fn content_range_is_end_inclusive() {
    assert_eq!(content_range(0, 4), "0-3");
    assert_eq!(content_range(8, 10), "8-9");
    assert_eq!(content_range(5, 6), "5-5", "a single-byte slice");
}

#[test]
fn parse_chunk_size_defaults_and_floors() {
    assert_eq!(parse_chunk_size(None), UPLOAD_CHUNK_SIZE);
    assert_eq!(parse_chunk_size(Some(String::new())), UPLOAD_CHUNK_SIZE);
    assert_eq!(
        parse_chunk_size(Some("not-a-number".to_owned())),
        UPLOAD_CHUNK_SIZE
    );
    assert_eq!(
        parse_chunk_size(Some("1024".to_owned())),
        1024 * 1024,
        "sub-1-MiB values floor at 1 MiB"
    );
    assert_eq!(
        parse_chunk_size(Some((8 * 1024 * 1024).to_string())),
        8 * 1024 * 1024
    );
    assert_eq!(
        parse_chunk_size(Some("  4194304  ".to_owned())),
        4 * 1024 * 1024,
        "surrounding whitespace is trimmed"
    );
}

#[test]
fn request_path_strips_scheme_and_host() {
    assert_eq!(
        request_path("https://ghcr.io/v2/acme/app/manifests/default"),
        "/v2/acme/app/manifests/default"
    );
    assert_eq!(
        request_path("http://127.0.0.1:5000/v2/_catalog"),
        "/v2/_catalog"
    );
    assert_eq!(request_path("/already/a/path"), "/already/a/path");
}

fn status(code: u16, text: &str) -> Status {
    Status {
        code,
        text: text.to_owned(),
    }
}

fn basic() -> Option<RegistryCredential> {
    Some(RegistryCredential::Basic {
        username: "me".to_owned(),
        secret: "pat".to_owned(),
    })
}

fn minted() -> Option<RegistryCredential> {
    Some(RegistryCredential::Bearer {
        token: "t".to_owned(),
    })
}

/// A user name and a secret are exchanged when a challenge asks for it, never sent before.
#[test]
fn basic_credential_is_exchanged_via_challenge_not_pre_sent() {
    let credential = basic();
    assert_eq!(first_auth(None, &credential), RequestAuth::Anonymous);
    let mut attempts = Attempts::new();
    let step = attempts
        .answered(
            401,
            Some(bearer("https://t", Some("s"), Some("repository:a:pull"))),
            &credential,
            "https://r",
            "/v2/a/manifests/x",
        )
        .expect("challenge");
    let Some(AuthStep::Exchange(challenge)) = step else {
        panic!("an exchange is due")
    };
    assert_eq!(
        exchange_query(&challenge),
        [
            ("service".to_owned(), "s".to_owned()),
            ("scope".to_owned(), "repository:a:pull".to_owned())
        ]
    );
    assert!(token_status(&status(200, "200 OK"), "https://t", true).is_ok());
    let token = choose_token(None, Some("minted".to_owned()), "https://t").expect("token");
    assert_eq!(token, "minted");
    assert_eq!(
        attempts
            .answered(200, None, &credential, "https://r", "/v2/a/manifests/x")
            .expect("answer"),
        None
    );
    // A second challenge is an answer too: there is one more attempt and no other.
    let err = attempts
        .answered(401, None, &credential, "https://r", "/v2/a/manifests/x")
        .expect_err("denied");
    assert_eq!(
        err,
        CliError::Auth("registry access denied for /v2/a/manifests/x".to_owned())
    );
}

#[test]
fn bearer_credential_is_sent_as_is_up_front() {
    let credential = minted();
    assert_eq!(
        first_auth(None, &credential),
        RequestAuth::Bearer("t".to_owned())
    );
    assert_eq!(
        first_auth(Some("cached".to_owned()), &credential),
        RequestAuth::Bearer("cached".to_owned())
    );
    // Once it is rejected, the request fails.
    let mut attempts = Attempts::new();
    assert!(matches!(
        attempts.answered(
            401,
            Some(bearer("https://t", None, None)),
            &credential,
            "https://r",
            "/v2/a/manifests/x"
        ),
        Err(CliError::Auth(_))
    ));
    let mut attempts = Attempts::new();
    let err = attempts
        .answered(403, None, &credential, "https://r", "/v2/a/manifests/x")
        .expect_err("denied");
    assert_eq!(
        err.message(),
        access_denied_message("https://r", "/v2/a/manifests/x")
    );
}

/// A body never leaves without a credential that a challenge asked for.
#[test]
fn upload_without_a_credential_fails_before_sending_the_body() {
    assert!(needs_preflight(true, &RequestAuth::Anonymous));
    assert!(!needs_preflight(false, &RequestAuth::Anonymous));
    assert!(!needs_preflight(true, &RequestAuth::Basic));
    let err = preflight_auth(401, None, &None, Method::Put, "/v2/a/blobs/uploads/s")
        .expect_err("no credential");
    assert!(matches!(err, CliError::Auth(_)));
    assert_eq!(
        preflight_auth(200, None, &None, Method::Put, "/v2/a/blobs/uploads/s").expect("open"),
        AuthStep::Send(RequestAuth::Anonymous)
    );
    assert_eq!(
        preflight_auth(401, None, &basic(), Method::Put, "/v2/a/blobs/uploads/s").expect("basic"),
        AuthStep::Send(RequestAuth::Basic)
    );
    let step = preflight_auth(
        401,
        Some(bearer("https://t", None, Some("repository:a:pull"))),
        &basic(),
        Method::Put,
        "/v2/a/blobs/uploads/s",
    )
    .expect("exchange");
    assert_eq!(
        step,
        AuthStep::Exchange(BearerChallenge {
            realm: "https://t".to_owned(),
            service: None,
            scope: Some("repository:a:push".to_owned())
        }),
        "the scope that the body needs is asked for"
    );
}

#[test]
fn a_token_is_found_under_each_of_its_actions_until_it_expires() {
    let mut cache = TokenCache::new();
    cache.file(Some("repository:a:pull,push"), "both", Some(300), 0);
    let second: u128 = 1_000_000_000;
    assert_eq!(
        cache.cached_token(Method::Get, "/v2/a/manifests/x", second),
        Some("both".to_owned())
    );
    assert_eq!(
        cache.cached_token(Method::Put, "/v2/a/manifests/x", second),
        Some("both".to_owned())
    );
    assert_eq!(
        cache.cached_token(Method::Get, "/v2/b/manifests/x", second),
        None
    );
    assert_eq!(
        cache.cached_token(Method::Get, "/v2/a/manifests/x", 300 * second),
        None
    );
}

#[test]
fn a_token_service_may_refuse() {
    assert_eq!(
        token_status(&status(401, "401 Unauthorized"), "https://t", true).expect_err("rejected"),
        CliError::Auth("registry rejected the credentials at https://t".to_owned())
    );
    assert_eq!(
        token_status(&status(403, "403 Forbidden"), "https://t", false).expect_err("rejected"),
        CliError::Auth("authentication required for https://t; run orc login".to_owned())
    );
    assert_eq!(
        token_status(&status(500, "500 Oops"), "https://t", false).expect_err("broken"),
        CliError::Operational("registry token endpoint https://t returned 500 Oops".to_owned())
    );
    assert_eq!(
        choose_token(Some(String::new()), None, "https://t").expect_err("none"),
        CliError::Operational("token endpoint https://t returned no token".to_owned())
    );
    assert_eq!(
        choose_token(Some("a".to_owned()), Some("b".to_owned()), "https://t").ok(),
        Some("a".to_owned())
    );
}

#[test]
fn a_login_gives_a_credential_by_its_scheme() {
    assert_eq!(
        credential_of_login("bearer", "t".to_owned(), "me".to_owned()),
        minted()
    );
    assert_eq!(
        credential_of_login("basic", "pat".to_owned(), "me".to_owned()),
        basic()
    );
    assert_eq!(
        credential_of_login("other", "t".to_owned(), "me".to_owned()),
        None
    );
}

#[test]
fn addresses_are_put_together() {
    assert_eq!(
        registry_base_url("orc8r.com", false, None),
        "https://orc8r.com"
    );
    assert_eq!(
        registry_base_url("localhost:5000", false, None),
        "http://localhost:5000"
    );
    assert_eq!(
        registry_base_url("example.com", true, None),
        "http://example.com"
    );
    assert_eq!(
        url_for_path("https://r", "/v2/"),
        "https://r/v2/"
    );
    assert_eq!(
        url_for_location("https://r", "/v2/x"),
        "https://r/v2/x"
    );
    assert_eq!(
        url_for_location("https://r", "https://other/v2/x"),
        "https://other/v2/x"
    );
    assert_eq!(
        finalize_url("https://r", "/v2/x", "sha256:d"),
        "https://r/v2/x?digest=sha256:d"
    );
    assert_eq!(
        finalize_url("https://r", "/v2/x?a=b", "sha256:d"),
        "https://r/v2/x?a=b&digest=sha256:d"
    );
}

#[test]
fn statuses_are_read() {
    assert!(status_ok(204));
    assert!(!status_ok(302));
    assert!(check_resource("GET", "/p", &status(200, "200 OK")).is_ok());
    assert_eq!(
        check_resource("GET", "/p", &status(404, "404 Not Found")).expect_err("absent"),
        CliError::NotFound("registry resource not found: /p".to_owned())
    );
    assert_eq!(
        check_resource("GET", "/p", &status(500, "500 Oops")).expect_err("broken"),
        CliError::Operational("registry GET /p returned 500 Oops".to_owned())
    );
    assert_eq!(
        status_error("upload", "/p", &status(404, "404 Not Found")),
        CliError::NotFound("registry resource not found: /p".to_owned())
    );
    assert_eq!(
        status_error("upload", "/p", &status(500, "500 Oops")),
        CliError::Operational("upload returned 500 Oops".to_owned())
    );
    assert_eq!(blob_exists("/p", &status(404, "")), Ok(false));
    assert_eq!(blob_exists("/p", &status(200, "")), Ok(true));
    assert!(blob_exists("/p", &status(500, "")).is_err());
    assert!(check_ping(&status(200, "")).is_ok());
    assert_eq!(
        check_ping(&status(502, "502 Bad")).expect_err("down"),
        CliError::Operational("registry ping /v2/ returned 502 Bad".to_owned())
    );
}

#[test]
fn a_response_is_known_by_its_digest() {
    let response = RegistryResponse::of(b"body".to_vec(), "text/plain".to_owned());
    assert_eq!(response.digest, digest_bytes(b"body"));
    assert_eq!(
        response.digest,
        "sha256:230d8358dc8e8890b4c58deeb62912ee2f20357ae92a5cc861b98e68fe31acb5"
    );
    assert!(verify_digest(b"body", &response.digest).is_ok());
    assert!(verify_digest(b"other", &response.digest).is_err());
    let stored = stored_manifest(b"body", None, Some("sha256:s".to_owned()));
    assert_eq!(stored.digest, response.digest);
    assert_eq!(stored.oci_subject.as_deref(), Some("sha256:s"));
    let stored = stored_manifest(b"body", Some("sha256:told".to_owned()), None);
    assert_eq!(stored.digest, "sha256:told");
    assert_eq!(blob_path("a/b", "sha256:d"), "/v2/a/b/blobs/sha256:d");
}

/// A download is accepted only with the hash that was asked for.
#[test]
fn get_blob_to_file_streams_and_verifies() {
    let digest = digest_bytes(b"hello world");
    let start = || Download::start("acme/app", &digest, &status(200, "200 OK")).expect("start");
    let mut download = start();
    download.take(b"hello ");
    download.take(b"");
    download.take(b"world");
    assert_eq!(download.done, 11);
    assert_eq!(
        download.stalled(30).message(),
        format!("read registry blob /v2/acme/app/blobs/{digest}: stalled for 30s at byte 11")
    );
    assert_eq!(download.finish(), Ok(11));
    let mut whole = start();
    whole.take(b"hello world");
    assert_eq!(whole.end_of_stream(), Ok(()));
    let mut other = start();
    other.take(b"hello ");
    other.take(b"earth");
    assert_eq!(
        other.finish().expect_err("mismatch").message(),
        format!(
            "registry blob /v2/acme/app/blobs/{digest} hashed to {}, want {digest}",
            digest_bytes(b"hello earth")
        )
    );
    let mut short = start();
    short.take(b"hello ");
    assert_eq!(
        short.end_of_stream().expect_err("mismatch"),
        format!(
            "registry blob digest mismatch: expected {digest}, read {}",
            digest_bytes(b"hello ")
        )
    );
    assert!(matches!(
        Download::start("acme/app", "md5:x", &status(200, "200 OK")),
        Err(CliError::Usage(_))
    ));
    assert!(matches!(
        Download::start("acme/app", &digest, &status(404, "404 Not Found")),
        Err(CliError::NotFound(_))
    ));
}

/// A body longer than a chunk goes in chunks, each at the location that the last answer named.
#[test]
fn ensure_blob_chunked_uploads_body_in_patches() {
    let body = b"0123456789";
    let mut upload = BlobUpload::new("https://r", "acme/app", "sha256:d", body.len(), 4);
    assert_eq!(
        upload.action(),
        UploadAction::Start {
            url: "https://r/v2/acme/app/blobs/uploads/".to_owned()
        }
    );
    upload
        .started(&status(202, "202 Accepted"), Some("/up/1".to_owned()))
        .expect("started");
    let mut sent = Vec::new();
    let mut turn = 1;
    loop {
        match upload.action() {
            UploadAction::Chunk {
                url,
                start,
                end,
                range,
            } => {
                assert_eq!(url, format!("https://r/up/{turn}"));
                assert_eq!(range, format!("{start}-{}", end - 1));
                sent.extend_from_slice(&body[start..end]);
                turn += 1;
                let done = upload
                    .chunk_sent(&status(202, "202 Accepted"), Some(format!("/up/{turn}")))
                    .expect("chunk");
                assert_eq!(done, end);
            }
            UploadAction::Complete { url, whole } => {
                assert_eq!(url, "https://r/up/4?digest=sha256:d");
                assert!(!whole);
                break;
            }
            other => panic!("unexpected {other:?}"),
        }
    }
    assert_eq!(sent, body);
    upload.completed(&status(201, "201 Created")).expect("stored");
    assert_eq!(upload.action(), UploadAction::Nothing);
}

#[test]
fn ensure_blob_reports_upload_when_absent() {
    let mut upload = BlobUpload::new("https://r", "acme/app", "sha256:d", 4, 4);
    assert!(matches!(
        upload.started(&status(202, ""), None),
        Err(CliError::Operational(m)) if m == "registry upload omitted Location"
    ));
    assert!(upload.started(&status(500, "500 Oops"), None).is_err());
    upload
        .started(&status(202, ""), Some("/up/1".to_owned()))
        .expect("started");
    assert_eq!(
        upload.action(),
        UploadAction::Complete {
            url: "https://r/up/1?digest=sha256:d".to_owned(),
            whole: true
        }
    );
    assert_eq!(
        upload
            .completed(&status(500, "500 Oops"))
            .expect_err("refused")
            .message(),
        "registry upload complete returned 500 Oops"
    );
}

#[test]
fn a_catalog_is_walked_page_by_page() {
    let mut walk = CatalogWalk::new();
    assert_eq!(walk.path(), "/v2/_catalog?n=100");
    walk.page((0..100).map(|n| format!("ns/app{n:03}")).collect());
    assert!(!walk.done);
    assert_eq!(walk.path(), "/v2/_catalog?n=100&last=ns/app099");
    walk.page(vec!["other/x".to_owned()]);
    assert!(walk.done);
    let names = walk.names("ns");
    assert_eq!(names.len(), 100);
    assert_eq!(names[0], "app000");
    assert_eq!(walk.names("").len(), 101);

    let mut empty = CatalogWalk::new();
    empty.page(Vec::new());
    assert!(empty.done);
}

fn referrer(digest: &str, artifact_type: Option<&str>) -> ReferrerDescriptor {
    ReferrerDescriptor {
        media_type: "m".to_owned(),
        digest: digest.to_owned(),
        size: 1,
        artifact_type: artifact_type.map(str::to_owned),
        annotations: Vec::new(),
    }
}

#[test]
fn referrers_are_listed_once() {
    let list = add_referrer(vec![referrer("sha256:a", Some("t"))], referrer("sha256:b", None))
        .expect("added");
    assert_eq!(list.len(), 2);
    assert_eq!(filter_referrers(list, Some("t")).len(), 1);
    let list = vec![referrer("sha256:a", Some("t")), referrer("sha256:b", None)];
    assert!(add_referrer(list, referrer("sha256:b", Some("u"))).is_none());
    let list = vec![referrer("sha256:a", Some("t")), referrer("sha256:b", None)];
    assert_eq!(filter_referrers(list, None).len(), 2);
}

fn toc() -> Toc {
    let entry = |offset: u64, length: u64, raw: u32| ChunkEntry {
        frame_cid: [7; 32],
        frame_offset: offset,
        frame_length: length,
        raw_length: raw,
        compressed: true,
    };
    Toc {
        format_version: FORMAT_VERSION,
        chunker: ChunkerParams {
            min: 1,
            avg: 2,
            max: 3,
        },
        chunks: vec![entry(0, 3, 30), entry(3, 2, 20)],
    }
}

#[test]
fn a_layers_frames_are_sent_by_number() {
    let blob = b"aaabbTOC";
    let toc = toc();
    assert_eq!(total_length(&toc), 50);
    let frames = wire_frames(blob, &toc);
    assert_eq!(frames.len(), 3);
    assert_eq!((frames[2].offset, frames[2].length), (5, 3));
    assert_eq!(frames[2].raw_length, 0);
    assert_eq!(frames[2].cid, *blake3::hash(b"TOC").as_bytes());
    let (batch, next) = next_wire_batch(blob, &frames, &vec![2, 0], 0).expect("batch");
    assert_eq!(next, 2);
    assert_eq!(
        batch,
        [
            2, 0, 0, 0, 3, 0, 0, 0, b'T', b'O', b'C', 0, 0, 0, 0, 3, 0, 0, 0, b'a', b'a', b'a'
        ]
    );
    assert_eq!(
        next_wire_batch(blob, &frames, &vec![9], 0).expect_err("no frame").message(),
        "chunked recipe missing index 9 out of range"
    );
    assert_eq!(
        next_wire_batch(b"aa", &frames, &vec![0], 0).expect_err("short").message(),
        "chunked frame slice out of bounds of the assembled blob"
    );
    let recipe = chunked_recipe("sha256:d", total_length(&toc), "m", &frames);
    assert_eq!(recipe.digest, "sha256:d");
    assert_eq!(recipe.total_length, 50);
    assert_eq!(recipe.chunks.len(), 3);
    assert_eq!(recipe.chunks[0].frame_cid, format!("blake3:{}", "07".repeat(32)));
    assert!(recipe.chunks[0].compressed);
    let sealed = sealed_recipe("sha256:d", 9, "m", &vec![]);
    assert_eq!(sealed.total_length, 9);
    assert!(sealed.chunks.is_empty());
    assert!(push_outcome(Some(2), 3).negotiated);
    assert_eq!(push_outcome(Some(2), 3).frames_uploaded, 2);
    assert!(!push_outcome(None, 3).negotiated);
}

#[test]
fn a_chunked_push_settles_or_is_given_up() {
    let mut push = ChunkedPush::new();
    for turn in 0..3 {
        assert!(matches!(push.stage, PushStage::Negotiate));
        push.negotiated(&format!("s{turn}"), 4);
        assert!(matches!(push.stage, PushStage::Send(4)));
        push.sent(Reply::Retry);
    }
    assert!(matches!(push.stage, PushStage::GivenUp(_)));
    let mut push = ChunkedPush::new();
    push.negotiated("s", 4);
    push.sent(Reply::Acknowledged);
    assert!(matches!(push.stage, PushStage::Stored(4)));
    assert_eq!(push.open, None);
    let mut push = ChunkedPush::new();
    push.refused(CliError::Operational("no".to_owned()));
    assert!(matches!(push.stage, PushStage::GivenUp(CliError::Operational(ref m)) if m == "no"));
}

#[test]
fn answers_of_a_chunked_upload_are_read() {
    assert!(check_negotiated(&status(200, "200 OK")).is_ok());
    assert_eq!(
        check_negotiated(&status(501, "501 No")).expect_err("refused").message(),
        "chunked negotiate POST returned 501 No"
    );
    assert!(matches!(patch_reply(&status(202, "")), Reply::Acknowledged));
    assert!(matches!(patch_reply(&status(404, "")), Reply::Retry));
    assert!(matches!(patch_reply(&status(500, "")), Reply::Fatal(_)));
    assert!(matches!(finalize_reply(&status(201, "")), Reply::Acknowledged));
    assert!(matches!(finalize_reply(&status(404, "")), Reply::Retry));
    assert!(matches!(finalize_reply(&status(500, "")), Reply::Fatal(_)));
    assert!(sessions_held(" 3 ", "m").message().starts_with("the registry is holding 3 earlier"));
    assert!(sessions_held("x", "m").message().ends_with("retrying (m)"));
}

fn described(digest: &str) -> Descriptor {
    Descriptor {
        media_type: "application/json".to_owned(),
        digest: digest.to_owned(),
        size: 2,
        platform: None,
        annotations: Vec::new(),
    }
}

fn described_manifest(config: &str) -> ManifestDocument {
    ManifestDocument::Manifest(ImageManifest {
        schema_version: 2,
        artifact_type: String::new(),
        config: described(config),
        layers: Vec::new(),
        annotations: Vec::new(),
    })
}

#[test]
fn the_configuration_is_in_the_manifest_or_in_the_first_one_listed() {
    let manifest = described_manifest("sha256:config");
    assert_eq!(config_place(&manifest), ConfigPlace::Here("sha256:config".to_owned()));
    assert_eq!(listed_config(&manifest).as_deref(), Some("sha256:config"));
    let index = ManifestDocument::Index(ImageIndex {
        manifests: vec![described("sha256:one"), described("sha256:two")],
        annotations: Vec::new(),
    });
    assert_eq!(config_place(&index), ConfigPlace::Child("sha256:one".to_owned()));
    assert_eq!(listed_config(&index), None);
    let empty = ManifestDocument::Index(ImageIndex { manifests: Vec::new(), annotations: Vec::new() });
    assert_eq!(config_place(&empty), ConfigPlace::Missing);
}

#[test]
fn referrers_are_listed_by_the_registry_or_under_a_tag() {
    assert_eq!(referrers_tag("sha256:abc"), "sha256-abc");
    let status = |code: u16, text: &str| Status { code, text: text.to_owned() };
    assert!(lists_referrers("/v2/x/referrers/d", &status(200, "200 OK")).expect("served"));
    assert!(!lists_referrers("/v2/x/referrers/d", &status(404, "404 Not Found")).expect("absent"));
    let err = lists_referrers("/v2/x/referrers/d", &status(500, "500 Internal Server Error"))
        .expect_err("failed");
    assert_eq!(
        err.message(),
        "registry GET /v2/x/referrers/d returned 500 Internal Server Error"
    );
}
