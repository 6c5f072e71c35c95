//! Reading a restore point out of its manifest, and naming what it is written to.

use orc_app::app::{Descriptor, ImageIndex, ImageManifest, ManifestDocument};
use orc_app::encryption::{Encryption, ANNOTATION_KEY_ID, ANNOTATION_SCHEME, SCHEME_SEALED_STREAM};
use orc_app::persist::point::{
    claim_destination, claims_point, days_from_civil, epoch_seconds, parent_path, parse,
    partial_path, resolve, safe_segment, staging_name, Clearing, ANNOTATION_APP, ANNOTATION_BYTES,
    ANNOTATION_CREATED, ANNOTATION_FILES, ANNOTATION_KIND, ANNOTATION_NODE, ANNOTATION_POINT,
    ANNOTATION_POOL, ANNOTATION_REF_NAME, ANNOTATION_SLOT, APPDATA_LAYER_MEDIA_TYPE,
    RESTORE_POINT_ARTIFACT_TYPE, RESTORE_POINT_CONFIG_MEDIA_TYPE,
};
use orc_app::persist::restore::RestorePoint;
use orc_app::persist::tree::LayerRef;

const ENCRYPTED_LAYER: &str = "application/vnd.orc.appdata.layer.v1+zstd+encrypted";
const ENCRYPTED_CONFIG: &str = "application/vnd.orc.appdata.restore-point.config.v1+json+encrypted";
const TAG: &str = "20260906T081105Z-s1-sys.sys.postgres";

fn manifest(annotations: &[(&str, &str)], config: &str, layer: &str) -> ImageManifest {
    ImageManifest {
        schema_version: 2,
        artifact_type: RESTORE_POINT_ARTIFACT_TYPE.to_owned(),
        config: Descriptor {
            media_type: config.to_owned(),
            digest: "sha256:index".to_owned(),
            size: 120,
            platform: None,
            annotations: Vec::new(),
        },
        layers: vec![Descriptor {
            media_type: layer.to_owned(),
            digest: "sha256:layer".to_owned(),
            size: 4096,
            platform: None,
            annotations: Vec::new(),
        }],
        annotations: annotations
            .iter()
            .map(|(key, value)| ((*key).to_owned(), (*value).to_owned()))
            .collect(),
    }
}

fn complete() -> Vec<(&'static str, &'static str)> {
    vec![
        (ANNOTATION_POINT, "rp-986165"),
        (ANNOTATION_POOL, "workers"),
        (ANNOTATION_SLOT, "1"),
        (ANNOTATION_NODE, "n_a0"),
        (ANNOTATION_APP, "sys/sys/postgres"),
        (ANNOTATION_KIND, "periodic"),
        (ANNOTATION_FILES, "2004"),
        (ANNOTATION_BYTES, "9437184"),
        (ANNOTATION_CREATED, "2026-09-06T08:11:05Z"),
        (ANNOTATION_REF_NAME, TAG),
        (ANNOTATION_SCHEME, SCHEME_SEALED_STREAM),
        (ANNOTATION_KEY_ID, "0123456789abcdef"),
    ]
}

#[test]
fn a_manifest_becomes_the_point_the_decoders_want() {
    let resolved = parse(
        &manifest(&complete(), ENCRYPTED_CONFIG, ENCRYPTED_LAYER),
        "sha256:manifest".to_owned(),
        TAG,
    )
    .expect("parsed");
    assert_eq!(resolved.point.id, "rp-986165");
    assert_eq!(resolved.point.app, "sys/sys/postgres");
    assert_eq!(resolved.point.key_id, "0123456789abcdef");
    assert_eq!(resolved.point.index.digest, "sha256:index");
    assert_eq!(resolved.point.index.size, 120);
    assert_eq!(resolved.point.files, 2004);
    assert_eq!(resolved.point.bytes, 9_437_184);
    assert_eq!(resolved.slot, Some(1));
    assert_eq!(resolved.pool, "workers");
    assert_eq!(resolved.kind, "periodic");
    assert_eq!(resolved.layers.len(), 1);
    assert_eq!(resolved.transfer_bytes(), 4096 + 120);
    assert_eq!(resolved.point.created_at, 1_788_682_265);
    assert_eq!(
        resolved.encryption,
        Encryption::Sealed {
            key_id: "0123456789abcdef".to_owned()
        }
    );
}

/// The canonical time tag names the output, whatever alias was pulled.
#[test]
fn the_output_is_named_after_the_canonical_tag() {
    let resolved = parse(
        &manifest(&complete(), ENCRYPTED_CONFIG, ENCRYPTED_LAYER),
        "sha256:manifest".to_owned(),
        "rp-986165",
    )
    .expect("parsed");
    assert_eq!(resolved.ref_name, TAG);
    assert_eq!(resolved.output_name(), TAG);

    // No canonical tag: the reference the caller pulled, made safe.
    let mut annotations = complete();
    annotations.retain(|(key, _)| *key != ANNOTATION_REF_NAME);
    let resolved = parse(
        &manifest(&annotations, ENCRYPTED_CONFIG, ENCRYPTED_LAYER),
        "sha256:manifest".to_owned(),
        "rp-986165",
    )
    .expect("parsed");
    assert_eq!(resolved.output_name(), "rp-986165");
}

#[test]
fn a_point_that_names_no_key_is_refused_rather_than_downloaded() {
    let mut annotations = complete();
    annotations.retain(|(key, _)| *key != ANNOTATION_KEY_ID);
    let err = parse(
        &manifest(&annotations, ENCRYPTED_CONFIG, ENCRYPTED_LAYER),
        "sha256:manifest".to_owned(),
        TAG,
    )
    .expect_err("no key id");
    assert!(err.message().contains(ANNOTATION_KEY_ID), "{err:?}");
}

/// A layer this client cannot decode must stop the pull, never be written as bytes.
#[test]
fn an_unreadable_layer_type_is_refused() {
    let err = parse(
        &manifest(
            &complete(),
            ENCRYPTED_CONFIG,
            "application/vnd.orc.appdata.layer.v99+aes+encrypted",
        ),
        "sha256:manifest".to_owned(),
        TAG,
    )
    .expect_err("unknown layer type");
    assert!(err.message().contains("can only read"), "{err:?}");
}

/// App-data layers are sealed frames; there is no plaintext form of one.
#[test]
fn a_point_declaring_plaintext_content_is_refused() {
    let err = parse(
        &manifest(
            &complete(),
            RESTORE_POINT_CONFIG_MEDIA_TYPE,
            APPDATA_LAYER_MEDIA_TYPE,
        ),
        "sha256:manifest".to_owned(),
        TAG,
    )
    .expect_err("not encrypted");
    assert!(err.message().contains("always sealed"), "{err:?}");
}

#[test]
fn a_point_without_an_app_or_with_another_index_type_is_refused() {
    let mut annotations = complete();
    annotations.retain(|(key, _)| *key != ANNOTATION_APP);
    let err = parse(
        &manifest(&annotations, ENCRYPTED_CONFIG, ENCRYPTED_LAYER),
        "sha256:manifest".to_owned(),
        TAG,
    )
    .expect_err("no app");
    assert!(err.message().contains(ANNOTATION_APP), "{err:?}");

    let err = parse(
        &manifest(&complete(), "text/plain+encrypted", ENCRYPTED_LAYER),
        "sha256:manifest".to_owned(),
        TAG,
    )
    .expect_err("no index");
    assert_eq!(
        err.message(),
        format!(
            "restore point {TAG} carries its index as \"text/plain+encrypted\", not {RESTORE_POINT_CONFIG_MEDIA_TYPE}"
        )
    );
}

#[test]
fn a_point_is_told_by_its_artifact_type() {
    let mut point = manifest(&complete(), ENCRYPTED_CONFIG, ENCRYPTED_LAYER);
    assert!(claims_point(&point));
    point.artifact_type = "application/vnd.other".to_owned();
    assert!(!claims_point(&point));
}

#[test]
fn a_staging_name_cannot_leave_the_output_directory() {
    let point = RestorePoint {
        app: "../../etc/passwd".to_owned(),
        id: "rp-1/../..".to_owned(),
        key_id: String::new(),
        created_at: 0,
        index: LayerRef {
            digest: String::new(),
            size: 0,
        },
        files: 0,
        bytes: 0,
    };
    let name = staging_name(&point);
    assert!(!name.contains('/'), "{name}");
    assert!(!name.contains(".."), "{name}");
    assert!(!name.starts_with('.'), "{name}");
    assert!(!name.ends_with('.'), "{name}");
    assert_eq!(name, "etcpasswd-rp-1");
}

#[test]
fn an_output_name_is_one_safe_path_segment() {
    assert_eq!(safe_segment(TAG), TAG);
    assert_eq!(safe_segment("../../etc/passwd"), "etcpasswd");
    assert_eq!(safe_segment("..."), "");
    assert_eq!(safe_segment(".hidden."), "hidden");
    assert_eq!(safe_segment("a..b"), "a.b");
    assert_eq!(safe_segment("rp-1"), "rp-1");
    assert!(!safe_segment(&"a/".repeat(200)).contains('/'));
    assert!(safe_segment(&"a".repeat(200)).len() <= 96);
}

/// Making a name safe twice is making it safe once.
#[test]
fn a_safe_segment_stays_as_it_is() {
    for name in ["../../etc/passwd", ".a..b.", "a b", "rp-1", "..", TAG, &"x.".repeat(80)] {
        let safe = safe_segment(name);
        assert_eq!(safe_segment(&safe), safe, "{name}");
    }
}

#[test]
fn an_existing_destination_is_refused_without_force() {
    let err = claim_destination(TAG, true, true, false).expect_err("exists");
    assert!(err.message().contains("already exists"), "{err:?}");

    assert_eq!(
        claim_destination(TAG, true, true, true).expect("force"),
        Clearing::RemoveTree,
        "force clears the way"
    );
    assert_eq!(
        claim_destination(TAG, true, false, true).expect("force"),
        Clearing::RemoveFile
    );
    assert_eq!(
        claim_destination(TAG, false, false, false).expect("free"),
        Clearing::Nothing
    );
}

#[test]
fn a_missing_output_directory_is_created() {
    assert_eq!(
        claim_destination("/tmp/a/b/rp-1", false, false, false).expect("claim"),
        Clearing::Nothing
    );
    assert_eq!(parent_path("/tmp/a/b/rp-1"), "/tmp/a/b");
}

#[test]
fn the_partial_name_sits_next_to_the_archive() {
    assert_eq!(
        partial_path("/tmp/out/point.tar.zst"),
        "/tmp/out/point.tar.zst.partial"
    );
    assert_eq!(partial_path("point.tar.zst"), "point.tar.zst.partial");
}

#[test]
fn created_timestamps_parse_and_junk_does_not() {
    assert_eq!(epoch_seconds("1970-01-01T00:00:00Z"), Some(0));
    assert_eq!(epoch_seconds("2026-09-06T08:11:05Z"), Some(1_788_682_265));
    assert_eq!(
        epoch_seconds("2026-09-06T08:11:05.123456Z"),
        Some(1_788_682_265)
    );
    assert_eq!(epoch_seconds(""), None);
    assert_eq!(epoch_seconds("1970-01-01T02:00:00+02:00"), Some(0));
    assert_eq!(epoch_seconds("1969-12-31T22:00:00-02:00"), Some(0));
    assert_eq!(epoch_seconds("1970-01-01T00:00:00.5-00:30"), Some(1_800));
    assert_eq!(epoch_seconds("1970-01-01T00:00:00+02"), None);
    assert_eq!(epoch_seconds("1970-01-01T00:00:00+24:00"), None);
    assert_eq!(epoch_seconds("yesterday"), None);
    assert_eq!(epoch_seconds("2026-13-05T00:00:00Z"), None);
}

#[test]
fn days_are_counted_from_the_epoch() {
    assert_eq!(days_from_civil(1970, 1, 1), 0);
    assert_eq!(days_from_civil(1969, 12, 31), -1);
    assert_eq!(days_from_civil(2000, 3, 1), 11017);
    // A leap year is one day longer than another.
    assert_eq!(days_from_civil(2025, 1, 1) - days_from_civil(2024, 1, 1), 366);
    assert_eq!(days_from_civil(1901, 1, 1) - days_from_civil(1900, 1, 1), 365);
}

#[test]
fn only_a_fetched_manifest_that_says_so_is_a_point() {
    let point = ManifestDocument::Manifest(manifest(&complete(), ENCRYPTED_CONFIG, ENCRYPTED_LAYER));
    let found = resolve(Some(&point), "sha256:top".to_owned(), TAG).expect("readable");
    assert_eq!(found.expect("a point").digest, "sha256:top");

    assert!(resolve(None, String::new(), TAG).expect("not fetched").is_none());
    let index = ManifestDocument::Index(ImageIndex { manifests: Vec::new(), annotations: Vec::new() });
    assert!(resolve(Some(&index), String::new(), TAG).expect("an index").is_none());

    let mut app = manifest(&complete(), ENCRYPTED_CONFIG, ENCRYPTED_LAYER);
    app.artifact_type = "application/vnd.orc8r.app.v1".to_owned();
    let app = ManifestDocument::Manifest(app);
    assert!(resolve(Some(&app), String::new(), TAG).expect("an app").is_none());

    let broken = ManifestDocument::Manifest(manifest(&[], ENCRYPTED_CONFIG, ENCRYPTED_LAYER));
    assert!(resolve(Some(&broken), String::new(), TAG).is_err());
}
