//! Spelling and resolving references.

use orc_app::reference::{
    is_valid_tag, resolve_app_reference, resolve_prefix, BUILTIN_DEFAULT_PREFIX,
};

#[test]
fn resolves_bare_ref_to_builtin_default() {
    let resolved =
        resolve_app_reference("jenkins-agent", BUILTIN_DEFAULT_PREFIX, None).expect("resolved");
    assert_eq!(resolved.registry, "orc8r.com");
    assert_eq!(resolved.repository, "jenkins-agent");
    assert_eq!(resolved.tag, "default");
    assert_eq!(resolved.full, "orc8r.com/jenkins-agent:default");
}

#[test]
fn explicit_registry_bypasses_default_prefix() {
    let resolved = resolve_app_reference(
        "acme.example.com/ci/runner:3.46",
        BUILTIN_DEFAULT_PREFIX,
        None,
    )
    .expect("resolved");
    assert_eq!(resolved.registry, "acme.example.com");
    assert_eq!(resolved.repository, "ci/runner");
    assert_eq!(resolved.tag, "3.46");
}

#[test]
fn registry_override_applies_to_relative_refs() {
    let resolved = resolve_app_reference(
        "ci/runner",
        BUILTIN_DEFAULT_PREFIX,
        Some("localhost:5000/dev"),
    )
    .expect("resolved");
    assert_eq!(resolved.full, "localhost:5000/dev/ci/runner:default");
}

#[test]
fn with_tag_respells_the_reference_at_another_version() {
    let resolved = resolve_app_reference("uv:1.5", BUILTIN_DEFAULT_PREFIX, None).expect("resolved");
    assert_eq!(resolved.full, "orc8r.com/uv:1.5");
    assert_eq!(resolved.with_tag("1.5.7"), "orc8r.com/uv:1.5.7");
    // Its own tag gives the reference back.
    assert_eq!(resolved.with_tag("1.5"), resolved.full);
}

#[test]
fn prefix_defaults_to_builtin() {
    let prefix = resolve_prefix(None, None).expect("prefix");
    assert_eq!(prefix.registry, "orc8r.com");
    assert!(prefix.namespace.is_empty());
}

#[test]
fn a_tag_is_one_short_word() {
    assert!(is_valid_tag("1.5.7"));
    assert!(is_valid_tag("_x-Y.z"));
    assert!(!is_valid_tag(""));
    assert!(!is_valid_tag(".x"));
    assert!(!is_valid_tag("-x"));
    assert!(!is_valid_tag("a/b"));
    assert!(is_valid_tag(&"a".repeat(128)));
    assert!(!is_valid_tag(&"a".repeat(129)));
}

#[test]
fn a_malformed_reference_is_refused() {
    assert!(resolve_app_reference("", BUILTIN_DEFAULT_PREFIX, None).is_err());
    assert!(resolve_app_reference("uv:", BUILTIN_DEFAULT_PREFIX, None).is_err());
    assert_eq!(
        resolve_app_reference("a//b", BUILTIN_DEFAULT_PREFIX, None)
            .expect_err("empty segment")
            .message(),
        "invalid repository \"a//b\""
    );
    assert_eq!(
        resolve_prefix(Some(" "), None).expect_err("empty").message(),
        "registry prefix cannot be empty"
    );
}

#[test]
fn a_qualified_reference_ignores_the_prefix() {
    let first = resolve_app_reference("acme.example.com/ci/runner:3.46", "orc8r.com", None);
    let second = resolve_app_reference(
        "acme.example.com/ci/runner:3.46",
        "other.example.com/space",
        Some("localhost:5000/dev"),
    );
    assert_eq!(first.expect("resolved"), second.expect("resolved"));
}

#[test]
fn a_resolved_reference_resolves_to_itself() {
    let resolved = resolve_app_reference(" tools/uv:1.2 ", "orc8r.com/acme/", None).expect("resolved");
    assert_eq!(resolved.full, "orc8r.com/acme/tools/uv:1.2");
    let again =
        resolve_app_reference(&resolved.full, "localhost:5000/dev", None).expect("resolved again");
    assert_eq!(again, resolved);
}

#[test]
fn a_legal_tag_is_read_as_written() {
    for tag in ["1.2.3", "_x", "v1-rc.2"] {
        assert!(is_valid_tag(tag));
        let resolved = resolve_app_reference(&format!("tools/uv:{tag}"), BUILTIN_DEFAULT_PREFIX, None)
            .expect("resolved");
        assert_eq!(resolved.tag, tag);
        assert_eq!(resolved.repository, "tools/uv");
    }
}
