//! What a reference names and which of its files go where.

use orc_app::app::{
    annotation, annotation_or_empty, Descriptor, ImageIndex, ImageManifest, ManifestDocument,
    Platform, APP_ARTIFACT_TYPE, APP_CONFIG_MEDIA_TYPE, RECIPE_MEDIA_TYPE,
};
use orc_app::encryption::{declared, plain_media_type, Encryption};
use orc_app::error::CliError;
use orc_app::persist::point::RESTORE_POINT_ARTIFACT_TYPE;
use orc_app::persist::stream::digest_bytes;
use orc_app::progress::{
    downloading, failed, file_event, manifest_event, ProgressEvent, ProgressKind, ProgressPhase,
};
use orc_app::pull::{
    check_app, check_child_digest, check_conflict, child_manifest, config_filename,
    covered_platforms, duplicate_title, executable, host_platform, layer_title, materialized,
    package_plan, payload_form, payload_plan, public_annotations, recipe_layer, resolve_manifest, retain_firsts, route,
    safe_relative_path, select_child, sorted_names, unique_places, validate_title,
    verified_events, CloneWalk, FetchedManifest, OutputSource, PayloadForm, PullTarget, Resolution,
    EXECUTABLE, TITLE,
};
use orc_app::registry::blob::RegistryResponse;

fn descriptor(media_type: &str, digest: &str) -> Descriptor {
    Descriptor {
        media_type: media_type.to_owned(),
        digest: digest.to_owned(),
        size: 6,
        platform: None,
        annotations: Vec::new(),
    }
}

fn child(digest: &str, os: &str, architecture: &str) -> Descriptor {
    Descriptor {
        platform: Some(Platform {
            os: os.to_owned(),
            architecture: architecture.to_owned(),
        }),
        ..descriptor("application/vnd.oci.image.manifest.v1+json", digest)
    }
}

fn titled(title: &str, digest: &str) -> Descriptor {
    Descriptor {
        annotations: vec![(TITLE.to_owned(), title.to_owned())],
        ..descriptor("text/plain", digest)
    }
}

fn manifest(layers: Vec<Descriptor>) -> ImageManifest {
    ImageManifest {
        schema_version: 2,
        artifact_type: APP_ARTIFACT_TYPE.to_owned(),
        config: descriptor(APP_CONFIG_MEDIA_TYPE, "sha256:config"),
        layers,
        annotations: vec![(
            "org.opencontainers.image.description".to_owned(),
            "demo".to_owned(),
        )],
    }
}

fn index(manifests: Vec<Descriptor>) -> ManifestDocument {
    ManifestDocument::Index(ImageIndex {
        manifests,
        annotations: Vec::new(),
    })
}

#[test]
fn config_filename_derives_from_media_type() {
    assert_eq!(
        config_filename("application/vnd.orc8r.kvm.image.config.v1+json").expect("filename"),
        "kvm.image.config.v1.json"
    );
    assert!(config_filename("application/json").is_err());
}

#[test]
fn public_annotations_drop_reserved_keys() {
    let annotations = vec![
        (
            "org.opencontainers.image.description".to_owned(),
            "demo".to_owned(),
        ),
        ("vnd.orc8r.chunker".to_owned(), "none".to_owned()),
    ];
    assert_eq!(
        public_annotations(&annotations),
        [(
            "org.opencontainers.image.description".to_owned(),
            "demo".to_owned()
        )]
    );
}

#[test]
fn manifest_resolution_reports_universal_platform() {
    let document = ManifestDocument::Manifest(manifest(Vec::new()));
    assert_eq!(
        resolve_manifest(&document, None, "linux/amd64").expect("resolved"),
        Resolution::Whole
    );
    assert_eq!(covered_platforms(&document), ["any"]);
    let ManifestDocument::Manifest(manifest) = document else {
        panic!("a manifest")
    };
    assert_eq!(
        annotation(
            &manifest.annotations,
            "org.opencontainers.image.description"
        )
        .as_deref(),
        Some("demo")
    );
    assert_eq!(annotation_or_empty(&manifest.annotations, "other"), "");
}

#[test]
fn safe_relative_path_rejects_traversal() {
    assert!(safe_relative_path("bin/run.sh").is_ok());
    assert!(safe_relative_path("../secret").is_err());
    assert!(safe_relative_path("bin//run.sh").is_err());
    assert!(safe_relative_path("/abs").is_err());
    assert!(validate_title("").is_err());
}

#[test]
fn write_output_refuses_conflict_without_force() {
    assert_eq!(
        check_conflict("file.txt", true, false),
        Err(CliError::Conflict(
            "file.txt already exists; use --force to overwrite".to_owned()
        ))
    );
    assert!(check_conflict("file.txt", true, true).is_ok());
    assert!(check_conflict("file.txt", false, false).is_ok());
}

#[test]
fn fetch_blob_cache_hit_skips_network_and_reports_cached() {
    let payload = b"already cached bytes";
    let (verdict, events) = verified_events(payload, &digest_bytes(payload), true);
    assert!(verdict.is_ok());
    let phases: Vec<ProgressPhase> = events.into_iter().map(|event| event.phase).collect();
    assert_eq!(phases, [ProgressPhase::Verifying, ProgressPhase::Cached]);
}

#[test]
fn fetch_blob_cache_miss_downloads_verifies_and_writes() {
    let payload = b"freshly downloaded bytes";
    let digest = digest_bytes(payload);
    let (verdict, events) = verified_events(payload, &digest, false);
    assert!(verdict.is_ok());
    assert_eq!(events[0].key, digest);
    assert_eq!(events[1].phase, ProgressPhase::Writing);
    let (verdict, events) = verified_events(b"other", &digest, false);
    let err = verdict.expect_err("mismatch");
    assert_eq!(
        events[1].phase,
        ProgressPhase::Failed {
            message: err.message()
        }
    );
}

#[test]
fn updates_name_what_they_are_about() {
    assert_eq!(
        downloading(),
        ProgressPhase::Downloading {
            done: 0,
            total: None
        }
    );
    let event = manifest_event("ref", failed(&CliError::Auth("no".to_owned())));
    assert_eq!(
        event,
        ProgressEvent::new(
            "ref".to_owned(),
            ProgressKind::Manifest,
            ProgressPhase::Failed {
                message: "no".to_owned()
            }
        )
    );
    assert_eq!(
        file_event("f", ProgressPhase::Done).kind,
        ProgressKind::File
    );
}

#[test]
fn a_platform_picks_its_manifest() {
    let children = vec![
        child("sha256:a", "linux", "amd64"),
        child("sha256:b", "linux", "arm64"),
    ];
    assert_eq!(select_child(&children, Some("linux/arm64"), "linux/amd64"), Some(1));
    assert_eq!(select_child(&children, None, "linux/amd64"), Some(0));
    assert_eq!(select_child(&children, None, "darwin/arm64"), None);
    let only = vec![child("sha256:a", "linux", "amd64")];
    assert_eq!(
        select_child(&only, None, "darwin/arm64"),
        Some(0),
        "a single manifest is taken whatever it is for"
    );
    let document = index(children);
    assert_eq!(
        resolve_manifest(&document, Some("linux/arm64"), "x").expect("child"),
        Resolution::Child {
            place: 1,
            platform: "linux/arm64".to_owned()
        }
    );
    assert_eq!(
        resolve_manifest(&document, Some("darwin/arm64"), "x").expect_err("none"),
        CliError::NotFound(
            "no matching platform; available: linux/amd64, linux/arm64".to_owned()
        )
    );
    assert_eq!(host_platform("macos", "aarch64"), "darwin/arm64");
    assert_eq!(host_platform("linux", "x86_64"), "linux/amd64");
    assert_eq!(host_platform("linux", "riscv64"), "linux/riscv64");
}

#[test]
fn what_is_fetched_must_be_what_the_index_names() {
    assert!(check_child_digest("sha256:a", "sha256:a").is_ok());
    assert_eq!(
        check_child_digest("sha256:a", "sha256:b").expect_err("mismatch"),
        CliError::Operational(
            "manifest digest mismatch: expected sha256:a, got sha256:b".to_owned()
        )
    );
    assert!(child_manifest(
        "sha256:a",
        "sha256:a",
        ManifestDocument::Manifest(manifest(Vec::new()))
    )
    .is_ok());
    assert_eq!(
        child_manifest("sha256:a", "sha256:a", index(Vec::new())).expect_err("index"),
        CliError::Operational("image index child resolved to another index".to_owned())
    );
}

#[test]
fn a_package_of_another_type_is_no_app() {
    assert!(check_app(&manifest(Vec::new()), "acme/app", "1.0").is_ok());
    let mut other = manifest(Vec::new());
    other.artifact_type = "other".to_owned();
    assert_eq!(
        check_app(&other, "acme/app", "1.0").expect_err("no app"),
        CliError::NotFound("acme/app:1.0 is not an ORC app artifact".to_owned())
    );
}

#[test]
fn a_recipe_is_the_first_layer_of_its_type() {
    let document = ManifestDocument::Manifest(manifest(vec![
        descriptor("other", "sha256:a"),
        descriptor(RECIPE_MEDIA_TYPE, "sha256:b"),
    ]));
    assert_eq!(recipe_layer(&document).expect("recipe"), 1);
    let document = ManifestDocument::Manifest(manifest(vec![descriptor("other", "sha256:a")]));
    assert_eq!(recipe_layer(&document).expect("first"), 0);
    let empty = ManifestDocument::Manifest(manifest(Vec::new()));
    assert_eq!(
        recipe_layer(&empty).expect_err("empty").message(),
        "recipe manifest carries no layer"
    );
    assert_eq!(
        recipe_layer(&index(Vec::new())).expect_err("index").message(),
        "recipe referrer is not an image manifest"
    );
}

#[test]
fn every_platform_is_fetched_once() {
    let document = index(vec![
        child("sha256:a", "linux", "arm64"),
        child("sha256:b", "linux", "amd64"),
        child("sha256:a", "darwin", "arm64"),
    ]);
    assert_eq!(
        covered_platforms(&document),
        ["darwin/arm64", "linux/amd64", "linux/arm64"]
    );
    let mut walk = CloneWalk::new(document);
    let mut fetched = Vec::new();
    while let Some(digest) = walk.wanted() {
        let digest = digest.to_owned();
        let layers = vec![titled(&digest, &digest), titled("shared", "sha256:shared")];
        walk.took(&digest, ManifestDocument::Manifest(manifest(layers)))
            .expect("took");
        fetched.push(digest);
    }
    assert_eq!(fetched, ["sha256:a", "sha256:b"]);
    let layers: Vec<String> = walk.finish().into_iter().map(|layer| layer.digest).collect();
    assert_eq!(layers, ["sha256:a", "sha256:shared", "sha256:b"]);

    let mut walk = CloneWalk::new(index(vec![child("sha256:a", "linux", "arm64")]));
    assert!(walk
        .took("sha256:x", ManifestDocument::Manifest(manifest(Vec::new())))
        .is_err());
    assert_eq!(walk.wanted(), Some("sha256:a"));
    let walk = CloneWalk::new(ManifestDocument::Manifest(manifest(vec![titled(
        "x", "sha256:x",
    )])));
    assert_eq!(walk.wanted(), None);
    assert_eq!(walk.finish().len(), 1);
}

#[test]
fn shared_blobs_are_kept_once_and_names_are_sorted() {
    let all = || {
        vec![
            titled("a", "sha256:1"),
            titled("b", "sha256:2"),
            titled("c", "sha256:1"),
        ]
    };
    assert_eq!(unique_places(&all()), [0, 1]);
    let kept: Vec<String> = retain_firsts(all()).into_iter().map(|d| d.digest).collect();
    assert_eq!(kept, ["sha256:1", "sha256:2"]);
    assert_eq!(
        sorted_names(vec!["b".to_owned(), "a".to_owned(), "b".to_owned()]),
        ["a", "b"]
    );
}

#[test]
fn payloads_are_fetched_in_the_order_of_their_titles() {
    let plan = payload_plan(&vec![
        titled("b", "sha256:1"),
        titled("a", "sha256:2"),
        titled("c", "sha256:3"),
    ])
    .expect("plan");
    let order: Vec<(String, usize)> = plan
        .files
        .into_iter()
        .map(|file| (file.title, file.layer))
        .collect();
    assert_eq!(
        order,
        [("a".to_owned(), 1), ("b".to_owned(), 0), ("c".to_owned(), 2)]
    );
    assert_eq!(plan.duplicate, None);
    let plan = payload_plan(&vec![
        titled("b", "sha256:1"),
        titled("a", "sha256:2"),
        titled("b", "sha256:3"),
    ])
    .expect("plan");
    assert_eq!(plan.files.len(), 1, "what comes before the shared title");
    assert_eq!(plan.duplicate.as_deref(), Some("b"));
    assert_eq!(
        duplicate_title("b").message(),
        "duplicate payload title \"b\""
    );
    assert!(payload_plan(&vec![descriptor("text/plain", "sha256:1")]).is_err());
    assert_eq!(
        payload_plan(&vec![titled("../x", "sha256:1")])
            .expect_err("unsafe")
            .message(),
        "invalid payload title \"../x\""
    );
    assert_eq!(layer_title(&titled("x", "d")).ok(), Some("x".to_owned()));
}

#[test]
fn a_payload_that_cannot_be_decoded_is_refused() {
    let chunked = descriptor("application/vnd.orc8r.payload.v1+zstd-chunked", "sha256:1");
    assert_eq!(payload_form(&chunked, "x"), Ok(PayloadForm::Chunked));
    assert_eq!(
        payload_form(&descriptor("text/plain", "sha256:1"), "x"),
        Ok(PayloadForm::Plain)
    );
    assert_eq!(
        payload_form(&descriptor("application/vnd.orc8r.payload.v1", "sha256:1"), "x")
            .expect_err("unknown")
            .message(),
        "payload \"x\" uses unsupported media type \"application/vnd.orc8r.payload.v1\"; this client cannot decode it (re-push the artifact in the current format)"
    );
    let mut run = titled("run.sh", "sha256:1");
    assert!(!executable(&run));
    run.annotations
        .push((EXECUTABLE.to_owned(), "true".to_owned()));
    assert!(executable(&run));
}

#[test]
fn a_restore_point_is_never_taken_for_an_app() {
    let fetched = |manifest: ImageManifest| FetchedManifest {
        response: RegistryResponse::of(b"body".to_vec(), "t".to_owned()),
        document: ManifestDocument::Manifest(manifest),
    };
    assert!(matches!(
        route(fetched(manifest(Vec::new())), "ref"),
        Ok(PullTarget::App(_))
    ));
    let mut point = manifest(Vec::new());
    point.artifact_type = RESTORE_POINT_ARTIFACT_TYPE.to_owned();
    assert!(route(fetched(point), "ref").is_err());
}

#[test]
fn encrypted_content_declares_its_key() {
    assert_eq!(plain_media_type("a+encrypted"), "a");
    assert_eq!(plain_media_type("a"), "a");
    assert_eq!(
        declared(&vec![], &vec!["a".to_owned()]).ok(),
        Some(Encryption::Plain)
    );
    assert!(declared(&vec![], &vec!["a+encrypted".to_owned()]).is_err());
}

#[test]
fn a_package_is_its_configuration_its_annotations_and_its_payloads() {
    let mut run = titled("bin/run", "sha256:run");
    run.annotations.push((EXECUTABLE.to_owned(), "true".to_owned()));
    let package = manifest(vec![run, titled("a.txt", "sha256:a")]);
    let plan = package_plan(&package, &package.annotations).expect("plan");
    let listed: Vec<(&str, bool, OutputSource)> = plan
        .outputs
        .iter()
        .map(|output| (output.title.as_str(), output.executable, output.source))
        .collect();
    assert_eq!(
        listed,
        vec![
            ("app.config.v1.json", false, OutputSource::Config),
            ("annotations.json", false, OutputSource::Annotations),
            ("a.txt", false, OutputSource::Layer(1)),
            ("bin/run", true, OutputSource::Layer(0)),
        ]
    );
    assert_eq!(plan.duplicate, None);
    let done = materialized(
        &plan,
        &package,
        "sha256:top".to_owned(),
        "linux/amd64".to_owned(),
        b"{}".to_vec(),
    );
    assert_eq!(done.digest, "sha256:top");
    assert_eq!(done.files, 4);
    assert_eq!(done.platform, "linux/amd64");
    assert_eq!(done.config_media_type, APP_CONFIG_MEDIA_TYPE);
    assert_eq!(done.config_bytes, b"{}".to_vec());
    assert_eq!(done.blob_digests, vec!["sha256:config", "sha256:a", "sha256:run"]);
}

#[test]
fn reserved_annotations_alone_make_no_file() {
    let package = manifest(vec![titled("a.txt", "sha256:a")]);
    let reserved = vec![("vnd.orc8r.internal".to_owned(), "x".to_owned())];
    let plan = package_plan(&package, &reserved).expect("plan");
    let titles: Vec<&str> = plan.outputs.iter().map(|output| output.title.as_str()).collect();
    assert_eq!(titles, vec!["app.config.v1.json", "a.txt"]);
}

#[test]
fn a_package_stops_at_a_shared_title() {
    let package = manifest(vec![
        titled("b", "sha256:one"),
        titled("a", "sha256:two"),
        titled("b", "sha256:three"),
    ]);
    let plan = package_plan(&package, &Vec::new()).expect("plan");
    let titles: Vec<&str> = plan.outputs.iter().map(|output| output.title.as_str()).collect();
    assert_eq!(titles, vec!["app.config.v1.json", "a"]);
    assert_eq!(plan.duplicate.as_deref(), Some("b"));
}

#[test]
fn a_package_without_a_readable_configuration_type_is_refused() {
    let mut package = manifest(Vec::new());
    package.config.media_type = "application/json".to_owned();
    match package_plan(&package, &Vec::new()) {
        Err(CliError::Operational(message)) => {
            assert_eq!(message, "unsupported config media type application/json");
        }
        other => panic!("unexpected {other:?}"),
    }
}

#[test]
fn a_payload_stays_below_its_directory() {
    assert_eq!(safe_relative_path("a/./b").expect("below"), "a/b");
    assert_eq!(safe_relative_path("a/b/.").expect("below"), "a/b");
    assert_eq!(safe_relative_path("a/..b/c").expect("below"), "a/..b/c");
    for title in ["..", "a/..", "a/../b", "./a", ".", "a/"] {
        assert_eq!(
            safe_relative_path(title),
            Err(CliError::Operational(format!("invalid payload title {title:?}")))
        );
    }
}
