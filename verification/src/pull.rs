//! Deciding what a reference names and which of its files go where.

use crate::app::{
    annotation, platform_label, value_of, Descriptor, ImageManifest, ManifestDocument,
    APP_ARTIFACT_TYPE, APP_CONFIG_MEDIA_TYPE, RECIPE_MEDIA_TYPE,
};
use crate::error::{absent, conflicting, operational, CliError};
use crate::persist::point::{
    claims_point, is_point_of, parse, point_fault, ResolvedPoint, RESTORE_POINT_ARTIFACT_TYPE,
};
use crate::persist::stream::digest_text;
use crate::progress::{blob_event, failed, is_event, ProgressEvent, ProgressKind, ProgressPhase};
use crate::registry::blob::{digest_mismatch, verify_digest, RegistryResponse};
use crate::text::{
    cat2, cat3, cat4, cat5, char_views, chars_of, debug_quoted, ends_with, find_text, join, joined,
    less, owned, pieces, quoted, same, slice_string, split, starts_with, string_of, text_position,
    views,
};
use vstd::prelude::*;

verus! {

/// The file that a package's annotations are written to.
pub const ANNOTATIONS_FILE: &'static str = "annotations.json";

/// The namespace of media types that a reader must understand.
pub const ORC_PAYLOAD_NAMESPACE: &'static str = "application/vnd.orc8r.";

/// The annotation that names a payload's file.
pub const TITLE: &'static str = "org.opencontainers.image.title";

/// The annotation that says whether a payload's file can be run.
pub const EXECUTABLE: &'static str = "vnd.orc8r.file.executable";

/// What the media type of a payload in compressed frames ends with.
pub const CHUNKED_SUFFIX: &'static str = "+zstd-chunked";

/// A reference's manifest: what the registry answered, and what it says.
#[derive(Debug, PartialEq, Eq)]
pub struct FetchedManifest {
    pub response: RegistryResponse,
    pub document: ManifestDocument,
}

/// What a reference names.
#[derive(Debug, PartialEq, Eq)]
pub enum PullTarget {
    /// An app package, or an index of them.
    App(Box<FetchedManifest>),
    /// A restore point.
    RestorePoint(Box<ResolvedPoint>),
}

/// What was put on disk of a package.
#[derive(Debug, PartialEq, Eq)]
pub struct MaterializedPackage {
    pub digest: String,
    pub files: usize,
    pub platform: String,
    pub config_media_type: String,
    pub config_bytes: Vec<u8>,
    pub blob_digests: Vec<String>,
}

/// What a package says of itself.
#[derive(Debug, PartialEq, Eq)]
pub struct PackageMetadata {
    pub digest: String,
    pub config_bytes: Vec<u8>,
}

/// What was put on disk of every platform of a package.
#[derive(Debug, PartialEq, Eq)]
pub struct ClonedPackage {
    pub digest: String,
    pub files: usize,
    pub platforms: Vec<String>,
}

/// Decides what a reference names, from its manifest. One that says it is a restore point and is
/// none is an error: it is never taken for an app.
pub fn route(fetched: FetchedManifest, reference: &str) -> (r: Result<PullTarget, CliError>)
    ensures
        match fetched.document {
            ManifestDocument::Manifest(manifest) => if manifest.artifact_type@
                == RESTORE_POINT_ARTIFACT_TYPE@ {
                match point_fault(manifest, reference@) {
                    None => r matches Ok(PullTarget::RestorePoint(point)) && is_point_of(
                        *point,
                        manifest,
                        fetched.response.digest@,
                        reference@,
                    ),
                    Some(m) => r matches Err(e) && e@ == operational(m),
                }
            } else {
                r matches Ok(PullTarget::App(same)) && *same == fetched
            },
            ManifestDocument::Index(_) => r matches Ok(PullTarget::App(same)) && *same == fetched,
        },
{
    let is_point: bool = match &fetched.document {
        ManifestDocument::Manifest(manifest) => claims_point(manifest),
        ManifestDocument::Index(_) => false,
    };
    if is_point {
        match &fetched.document {
            ManifestDocument::Manifest(manifest) => {
                return match parse(manifest, fetched.response.digest.clone(), reference) {
                    Ok(point) => Ok(PullTarget::RestorePoint(Box::new(point))),
                    Err(e) => Err(e),
                };
            },
            ManifestDocument::Index(_) => {},
        }
    }
    Ok(PullTarget::App(Box::new(fetched)))
}

// ---------------------------------------------------------------------------
// Platforms
// ---------------------------------------------------------------------------

/// The name of an operating system in a platform's name.
pub open spec fn os_name(os: Seq<char>) -> Seq<char> {
    if os == "macos"@ {
        "darwin"@
    } else {
        os
    }
}

/// The name of an architecture in a platform's name.
pub open spec fn arch_name(arch: Seq<char>) -> Seq<char> {
    if arch == "x86_64"@ {
        "amd64"@
    } else if arch == "aarch64"@ {
        "arm64"@
    } else {
        arch
    }
}

/// The name of the platform of this machine.
pub fn host_platform(os: &str, arch: &str) -> (r: String)
    ensures
        r@ == os_name(os@) + "/"@ + arch_name(arch@),
{
    let os: &str = if same(os, "macos") {
        "darwin"
    } else {
        os
    };
    let arch: &str = if same(arch, "x86_64") {
        "amd64"
    } else if same(arch, "aarch64") {
        "arm64"
    } else {
        arch
    };
    cat3(os, "/", arch)
}

/// Whether a manifest is for a platform.
pub open spec fn is_for(child: Descriptor, label: Seq<char>) -> bool {
    child.platform matches Some(p) && platform_label(p) == label
}

/// The first manifest for a platform, from number `i` on.
pub open spec fn first_for(children: Seq<Descriptor>, label: Seq<char>, i: int) -> Option<int>
    decreases children.len() - i,
{
    if i < 0 || i >= children.len() {
        None
    } else if is_for(children[i], label) {
        Some(i)
    } else {
        first_for(children, label, i + 1)
    }
}

/// The manifest to take of an index: the one for the platform that was asked for; else the only
/// one; else the one for this machine.
pub open spec fn chosen_child(
    children: Seq<Descriptor>,
    platform: Option<&str>,
    host: Seq<char>,
) -> Option<int> {
    match platform {
        Some(p) => first_for(children, p@, 0),
        None => if children.len() == 1 {
            Some(0)
        } else {
            first_for(children, host, 0)
        },
    }
}

fn find_for(children: &Vec<Descriptor>, label: &str) -> (r: Option<usize>)
    ensures
        match r {
            Some(i) => i < children@.len() && first_for(children@, label@, 0) == Some(i as int),
            None => first_for(children@, label@, 0) is None,
        },
{
    for i in 0..children.len()
        invariant
            first_for(children@, label@, 0) == first_for(children@, label@, i as int),
    {
        match &children[i].platform {
            Some(p) => {
                if same(p.label().as_str(), label) {
                    return Some(i);
                }
            },
            None => {},
        }
    }
    None
}

/// The manifest to take of an index.
pub fn select_child(children: &Vec<Descriptor>, platform: Option<&str>, host: &str) -> (r: Option<
    usize,
>)
    ensures
        match r {
            Some(i) => i < children@.len() && chosen_child(children@, platform, host@) == Some(
                i as int,
            ),
            None => chosen_child(children@, platform, host@) is None,
        },
{
    match platform {
        Some(p) => find_for(children, p),
        None => {
            if children.len() == 1 {
                Some(0)
            } else {
                find_for(children, host)
            }
        },
    }
}

/// The names of the platforms of some manifests.
pub open spec fn labels(children: Seq<Descriptor>) -> Seq<Seq<char>>
    decreases children.len(),
{
    if children.len() == 0 {
        Seq::empty()
    } else {
        match children.last().platform {
            Some(p) => labels(children.drop_last()).push(platform_label(p)),
            None => labels(children.drop_last()),
        }
    }
}

fn labels_of(children: &Vec<Descriptor>) -> (r: Vec<String>)
    ensures
        views(r@) == labels(children@),
{
    let mut out: Vec<String> = Vec::new();
    assert(children@.take(0) =~= Seq::<Descriptor>::empty());
    assert(views(out@) =~= Seq::<Seq<char>>::empty());
    for i in 0..children.len()
        invariant
            views(out@) == labels(children@.take(i as int)),
    {
        let ghost before = out@;
        proof {
            assert(children@.take(i + 1).drop_last() =~= children@.take(i as int));
            assert(children@.take(i + 1).last() == children@[i as int]);
        }
        match &children[i].platform {
            Some(p) => {
                out.push(p.label());
                assert(views(out@) =~= views(before).push(platform_label(*p)));
            },
            None => {},
        }
    }
    assert(children@.take(children@.len() as int) =~= children@);
    out
}

// ---------------------------------------------------------------------------
// Manifests
// ---------------------------------------------------------------------------

/// What a manifest document comes to.
#[derive(Debug, PartialEq, Eq)]
pub enum Resolution {
    /// The document is the manifest to take, for any platform.
    Whole,
    /// The manifest at that place of the index has to be fetched; it is for this platform.
    Child { place: usize, platform: String },
}

/// The name of a manifest's platform; one without is for any.
pub open spec fn label_or_any(child: Descriptor) -> Seq<char> {
    match child.platform {
        Some(p) => platform_label(p),
        None => "any"@,
    }
}

/// Decides which manifest of a document to take.
pub fn resolve_manifest(document: &ManifestDocument, platform: Option<&str>, host: &str) -> (r: Result<
    Resolution,
    CliError,
>)
    ensures
        match *document {
            ManifestDocument::Manifest(_) => r matches Ok(Resolution::Whole),
            ManifestDocument::Index(index) => match chosen_child(
                index.manifests@,
                platform,
                host@,
            ) {
                Some(i) => r matches Ok(Resolution::Child { place, platform: label }) && place == i
                    && place < index.manifests@.len() && label@ == label_or_any(
                    index.manifests@[i],
                ),
                None => r matches Err(e) && e@ == absent(
                    "no matching platform; available: "@ + join(
                        labels(index.manifests@),
                        ", "@,
                    ),
                ),
            },
        },
{
    match document {
        ManifestDocument::Manifest(_) => Ok(Resolution::Whole),
        ManifestDocument::Index(index) => match select_child(&index.manifests, platform, host) {
            Some(place) => {
                let label: String = match &index.manifests[place].platform {
                    Some(p) => p.label(),
                    None => owned("any"),
                };
                Ok(Resolution::Child { place, platform: label })
            },
            None => {
                let names = labels_of(&index.manifests);
                Err(
                    CliError::NotFound(
                        cat2(
                            "no matching platform; available: ",
                            joined(&names, ", ").as_str(),
                        ),
                    ),
                )
            },
        },
    }
}

/// What is wrong with a manifest that an index names.
pub open spec fn child_fault(expected: Seq<char>, actual: Seq<char>, is_manifest: bool) -> Option<
    Seq<char>,
> {
    if expected != actual {
        Some("manifest digest mismatch: expected "@ + expected + ", got "@ + actual)
    } else if !is_manifest {
        Some("image index child resolved to another index"@)
    } else {
        None
    }
}

/// Checks that what was fetched for a manifest of an index has its digest.
pub fn check_child_digest(expected: &str, actual: &str) -> (r: Result<(), CliError>)
    ensures
        match r {
            Ok(()) => expected@ == actual@,
            Err(e) => expected@ != actual@ && e@ == operational(
                child_fault(expected@, actual@, true)->0,
            ),
        },
{
    if same(expected, actual) {
        Ok(())
    } else {
        Err(
            CliError::Operational(
                cat4("manifest digest mismatch: expected ", expected, ", got ", actual),
            ),
        )
    }
}

/// The manifest that an index names: what was fetched must have its digest, and be no index.
pub fn child_manifest(expected: &str, actual: &str, document: ManifestDocument) -> (r: Result<
    ImageManifest,
    CliError,
>)
    ensures
        match child_fault(expected@, actual@, document is Manifest) {
            Some(m) => r matches Err(e) && e@ == operational(m),
            None => r matches Ok(manifest) && document == ManifestDocument::Manifest(manifest),
        },
{
    match check_child_digest(expected, actual) {
        Err(e) => {
            return Err(e);
        },
        Ok(()) => {},
    }
    match document {
        ManifestDocument::Manifest(manifest) => Ok(manifest),
        ManifestDocument::Index(_) => Err(
            CliError::Operational(owned("image index child resolved to another index")),
        ),
    }
}

/// Whether a manifest is that of an app package.
pub open spec fn is_app(manifest: ImageManifest) -> bool {
    &&& manifest.schema_version == 2
    &&& manifest.artifact_type@ == APP_ARTIFACT_TYPE@
    &&& manifest.config.media_type@ == APP_CONFIG_MEDIA_TYPE@
}

/// Checks that a manifest is that of an app package.
pub fn check_app(manifest: &ImageManifest, repository: &str, reference: &str) -> (r: Result<
    (),
    CliError,
>)
    ensures
        match r {
            Ok(()) => is_app(*manifest),
            Err(e) => !is_app(*manifest) && e@ == absent(
                repository@ + ":"@ + reference@ + " is not an ORC app artifact"@,
            ),
        },
{
    if manifest.schema_version == 2 && same(manifest.artifact_type.as_str(), APP_ARTIFACT_TYPE)
        && same(manifest.config.media_type.as_str(), APP_CONFIG_MEDIA_TYPE) {
        Ok(())
    } else {
        Err(
            CliError::NotFound(
                cat4(repository, ":", reference, " is not an ORC app artifact"),
            ),
        )
    }
}

/// The first layer of a media type, from number `i` on.
pub open spec fn first_of_type(layers: Seq<Descriptor>, media_type: Seq<char>, i: int) -> Option<int>
    decreases layers.len() - i,
{
    if i < 0 || i >= layers.len() {
        None
    } else if layers[i].media_type@ == media_type {
        Some(i)
    } else {
        first_of_type(layers, media_type, i + 1)
    }
}

/// The layer that holds a recipe: the first of its type, or else the first.
pub fn recipe_layer(document: &ManifestDocument) -> (r: Result<usize, CliError>)
    ensures
        match *document {
            ManifestDocument::Index(_) => r matches Err(e) && e@ == operational(
                "recipe referrer is not an image manifest"@,
            ),
            ManifestDocument::Manifest(manifest) => if manifest.layers@.len() == 0 {
                r matches Err(e) && e@ == operational("recipe manifest carries no layer"@)
            } else {
                r matches Ok(i) && i < manifest.layers@.len() && i == match first_of_type(
                    manifest.layers@,
                    RECIPE_MEDIA_TYPE@,
                    0,
                ) {
                    Some(k) => k,
                    None => 0,
                }
            },
        },
{
    match document {
        ManifestDocument::Index(_) => Err(
            CliError::Operational(owned("recipe referrer is not an image manifest")),
        ),
        ManifestDocument::Manifest(manifest) => {
            let layers = &manifest.layers;
            if layers.len() == 0 {
                return Err(CliError::Operational(owned("recipe manifest carries no layer")));
            }
            for i in 0..layers.len()
                invariant
                    *document == ManifestDocument::Manifest(*manifest),
                    layers@ == manifest.layers@,
                    layers@.len() > 0,
                    first_of_type(layers@, RECIPE_MEDIA_TYPE@, 0) == first_of_type(
                        layers@,
                        RECIPE_MEDIA_TYPE@,
                        i as int,
                    ),
            {
                if same(layers[i].media_type.as_str(), RECIPE_MEDIA_TYPE) {
                    return Ok(i);
                }
            }
            Ok(0)
        },
    }
}

// ---------------------------------------------------------------------------
// Every platform
// ---------------------------------------------------------------------------

/// Whether no descriptor before number `i` has the digest of number `i`.
pub open spec fn is_first(all: Seq<Descriptor>, i: int) -> bool {
    forall|k: int| 0 <= k < i ==> (#[trigger] all[k]).digest@ != all[i].digest@
}

/// The places of the descriptors among the first `n` that are the first of their digest.
pub open spec fn firsts(all: Seq<Descriptor>, n: int) -> Seq<usize>
    decreases n,
{
    if n <= 0 {
        Seq::empty()
    } else if is_first(all, n - 1) {
        firsts(all, n - 1).push((n - 1) as usize)
    } else {
        firsts(all, n - 1)
    }
}

/// The places of the descriptors that are the first of their digest: what several platforms share
/// is taken once.
pub fn unique_places(all: &Vec<Descriptor>) -> (r: Vec<usize>)
    ensures
        r@ == firsts(all@, all@.len() as int),
{
    let mut seen: vstd::hash_map::StringHashMap<usize> = vstd::hash_map::StringHashMap::new();
    let mut out: Vec<usize> = Vec::new();
    for i in 0..all.len()
        invariant
            out@ == firsts(all@, i as int),
            forall|d: Seq<char>| #[trigger]
                seen@.contains_key(d) <==> exists|k: int|
                    0 <= k < i && (#[trigger] all@[k]).digest@ == d,
    {
        let digest = &all[i].digest;
        let ghost before = seen@;
        if seen.contains_key(digest.as_str()) {
            proof {
                let k = choose|k: int| 0 <= k < i && (#[trigger] all@[k]).digest@ == digest@;
                assert(all@[k].digest@ == all@[i as int].digest@);
                assert(!is_first(all@, i as int));
            }
        } else {
            assert(is_first(all@, i as int));
            out.push(i);
            seen.insert(digest.clone(), i);
        }
        proof {
            assert forall|d: Seq<char>| #[trigger] seen@.contains_key(d) <==> exists|k: int|
                0 <= k < i + 1 && (#[trigger] all@[k]).digest@ == d by {
                if before.contains_key(d) {
                    let k = choose|k: int| 0 <= k < i && (#[trigger] all@[k]).digest@ == d;
                    assert(all@[k].digest@ == d);
                }
                if d == digest@ {
                    assert(all@[i as int].digest@ == d);
                }
                if exists|k: int| 0 <= k < i + 1 && (#[trigger] all@[k]).digest@ == d {
                    let k = choose|k: int| 0 <= k < i + 1 && (#[trigger] all@[k]).digest@ == d;
                    if k < i {
                        assert(before.contains_key(d));
                    }
                }
            }
        }
    }
    out
}

/// Every digest is taken exactly once: there is one place for it, and it is the first.
pub proof fn law_each_digest_is_taken_once(all: Seq<Descriptor>, n: int, i: int)
    requires
        0 <= i < n <= all.len() <= usize::MAX,
    ensures
        exists|k: int|
            0 <= k < firsts(all, n).len() && all[#[trigger] firsts(all, n)[k] as int].digest@
                == all[i].digest@,
        forall|j: int, k: int|
            0 <= j < k < firsts(all, n).len() ==> all[#[trigger] firsts(all, n)[j] as int].digest@
                != all[#[trigger] firsts(all, n)[k] as int].digest@,
        forall|k: int| 0 <= k < firsts(all, n).len() ==> #[trigger] firsts(all, n)[k] < n,
    decreases n,
{
    let here = firsts(all, n);
    let before = firsts(all, n - 1);
    if n > 1 {
        law_each_digest_is_taken_once(
            all,
            n - 1,
            if i < n - 1 {
                i
            } else {
                0
            },
        );
    }
    assert forall|k: int| 0 <= k < here.len() implies #[trigger] here[k] < n by {
        if k < before.len() {
            assert(here[k] == before[k]);
        }
    }
    if is_first(all, n - 1) {
        assert(here[here.len() - 1] == n - 1);
        assert forall|j: int, k: int| 0 <= j < k < here.len() implies all[#[trigger] here[j] as int].digest@
            != all[#[trigger] here[k] as int].digest@ by {
            assert(here[j] == before[j]);
            if k < before.len() {
                assert(here[k] == before[k]);
            } else {
                assert(before[j] < n - 1);
            }
        }
    }
    if i == n - 1 {
        if is_first(all, n - 1) {
            assert(all[here[here.len() - 1] as int].digest@ == all[i].digest@);
        } else {
            let m = choose|m: int| 0 <= m < n - 1 && (#[trigger] all[m]).digest@ == all[n - 1].digest@;
            law_each_digest_is_taken_once(all, n - 1, m);
            let k = choose|k: int|
                0 <= k < before.len() && all[#[trigger] before[k] as int].digest@ == all[m].digest@;
            assert(all[here[k] as int].digest@ == all[i].digest@);
        }
    } else {
        let k = choose|k: int|
            0 <= k < before.len() && all[#[trigger] before[k] as int].digest@ == all[i].digest@;
        assert(here[k] == before[k]);
        assert(all[here[k] as int].digest@ == all[i].digest@);
    }
}

/// The descriptors among the first `n` that are the first of their digest.
pub open spec fn kept(all: Seq<Descriptor>, n: int) -> Seq<Descriptor>
    decreases n,
{
    if n <= 0 {
        Seq::empty()
    } else if is_first(all, n - 1) {
        kept(all, n - 1).push(all[n - 1])
    } else {
        kept(all, n - 1)
    }
}

proof fn lemma_firsts_below(all: Seq<Descriptor>, n: int)
    requires
        0 <= n <= all.len() <= usize::MAX,
    ensures
        forall|k: int| 0 <= k < firsts(all, n).len() ==> #[trigger] firsts(all, n)[k] < n,
    decreases n,
{
    if n > 0 {
        lemma_firsts_below(all, n - 1);
        let before = firsts(all, n - 1);
        assert forall|k: int| 0 <= k < firsts(all, n).len() implies #[trigger] firsts(all, n)[k]
            < n by {
            if k < before.len() {
                assert(firsts(all, n)[k] == before[k]);
            }
        }
    }
}

/// Keeps the descriptors that are the first of their digest.
pub fn retain_firsts(all: Vec<Descriptor>) -> (r: Vec<Descriptor>)
    ensures
        r@ == kept(all@, all@.len() as int),
{
    let places = unique_places(&all);
    let ghost given = all@;
    let mut rest = all;
    let mut left: usize = places.len();
    let mut back: Vec<Descriptor> = Vec::new();
    assert(places@.take(left as int) =~= places@);
    assert(kept(given, given.len() as int) =~= kept(given, given.len() as int) + back@.reverse());
    assert(given.len() <= usize::MAX) by {
        assert(rest@.len() == rest.len());
    }
    while rest.len() > 0
        invariant
            given.len() <= usize::MAX,
            rest@.len() <= given.len(),
            rest@ == given.take(rest@.len() as int),
            left <= places.len(),
            firsts(given, rest@.len() as int) == places@.take(left as int),
            kept(given, given.len() as int) == kept(given, rest@.len() as int) + back@.reverse(),
        decreases rest.len(),
    {
        let i: usize = rest.len() - 1;
        let ghost before = back@;
        let ghost marks = places@.take(left as int);
        proof {
            lemma_firsts_below(given, i as int);
            assert(given.take(i + 1).drop_last() =~= given.take(i as int));
            assert(given.take(i + 1).last() == given[i as int]);
            if is_first(given, i as int) {
                assert(marks.last() == i);
                assert(marks.drop_last() =~= firsts(given, i as int));
                assert(marks.drop_last() =~= places@.take(left - 1));
            } else if left > 0 {
                assert(marks[left - 1] == firsts(given, i as int)[left - 1]);
                assert(marks[left - 1] < i);
            }
        }
        match rest.pop() {
            Some(descriptor) => {
                if left > 0 && places[left - 1] == i {
                    back.push(descriptor);
                    left = left - 1;
                    assert(kept(given, i + 1) + before.reverse() =~= kept(given, i as int)
                        + back@.reverse());
                }
            },
            None => {},
        }
    }
    let ghost tail = back@;
    let mut out: Vec<Descriptor> = Vec::new();
    assert(tail.take(tail.len() as int) =~= tail);
    assert(out@ + tail.reverse() =~= tail.reverse());
    while back.len() > 0
        invariant
            back@.len() <= tail.len(),
            back@ == tail.take(back@.len() as int),
            tail.reverse() == out@ + back@.reverse(),
        decreases back.len(),
    {
        let ghost before = back@;
        let ghost done = out@;
        match back.pop() {
            Some(descriptor) => {
                out.push(descriptor);
                assert(done + before.reverse() =~= out@ + back@.reverse());
            },
            None => {},
        }
    }
    assert(out@ =~= tail.reverse());
    assert(kept(given, 0) + tail.reverse() =~= out@);
    out
}

/// Going through every manifest of a reference: each manifest that an index names is fetched once,
/// and the layers of all of them are gathered.
pub struct CloneWalk {
    digests: Vec<String>,
    next: usize,
    layers: Vec<Descriptor>,
}

/// The digests of some descriptors.
pub open spec fn digests_of(all: Seq<Descriptor>) -> Seq<Seq<char>> {
    all.map_values(|d: Descriptor| d.digest@)
}

/// The manifests that a document makes the walk fetch.
pub open spec fn children_of(document: ManifestDocument) -> Seq<Seq<char>> {
    match document {
        ManifestDocument::Manifest(_) => Seq::empty(),
        ManifestDocument::Index(index) => digests_of(
            kept(index.manifests@, index.manifests@.len() as int),
        ),
    }
}

impl CloneWalk {
    /// The manifests that are fetched, in order.
    pub closed spec fn children(&self) -> Seq<Seq<char>> {
        views(self.digests@)
    }

    /// How many of them are at hand.
    pub closed spec fn taken(&self) -> nat {
        self.next as nat
    }

    /// The layers gathered so far.
    pub closed spec fn gathered(&self) -> Seq<Descriptor> {
        self.layers@
    }

    /// No more manifests are at hand than are fetched.
    pub open spec fn wf(&self) -> bool {
        self.taken() <= self.children().len()
    }

    /// Starts at the document of a reference.
    pub fn new(document: ManifestDocument) -> (r: CloneWalk)
        ensures
            r.wf(),
            r.children() == children_of(document),
            r.taken() == 0,
            r.gathered() == (match document {
                ManifestDocument::Manifest(manifest) => manifest.layers@,
                ManifestDocument::Index(_) => Seq::empty(),
            }),
    {
        match document {
            ManifestDocument::Manifest(manifest) => {
                let digests: Vec<String> = Vec::new();
                assert(views(digests@) =~= Seq::<Seq<char>>::empty());
                CloneWalk { digests, next: 0, layers: manifest.layers }
            },
            ManifestDocument::Index(index) => {
                let unique = retain_firsts(index.manifests);
                let mut digests: Vec<String> = Vec::new();
                for i in 0..unique.len()
                    invariant
                        digests.len() == i,
                        forall|k: int| 0 <= k < i ==> (#[trigger] digests@[k])@ == unique@[k].digest@,
                {
                    digests.push(unique[i].digest.clone());
                }
                assert(views(digests@) =~= digests_of(unique@));
                CloneWalk { digests, next: 0, layers: Vec::new() }
            },
        }
    }

    /// The digest of the manifest to fetch next.
    pub fn wanted(&self) -> (r: Option<&str>)
        requires
            self.wf(),
        ensures
            match r {
                Some(digest) => self.taken() < self.children().len() && digest@
                    == self.children()[self.taken() as int],
                None => self.taken() == self.children().len(),
            },
    {
        if self.next < self.digests.len() {
            Some(self.digests[self.next].as_str())
        } else {
            None
        }
    }

    /// Takes in what was fetched: its digest as the registry gave it, and what it says. Where it
    /// is refused, the walk is over.
    pub fn took(&mut self, actual: &str, document: ManifestDocument) -> (r: Result<(), CliError>)
        requires
            old(self).wf(),
            old(self).taken() < old(self).children().len(),
        ensures
            final(self).wf(),
            final(self).children() == old(self).children(),
            match child_fault(
                old(self).children()[old(self).taken() as int],
                actual@,
                document is Manifest,
            ) {
                Some(m) => {
                    &&& r matches Err(e) && e@ == operational(m)
                    &&& final(self).taken() == old(self).taken()
                    &&& final(self).gathered() == old(self).gathered()
                },
                None => {
                    &&& r is Ok
                    &&& final(self).taken() == old(self).taken() + 1
                    &&& document matches ManifestDocument::Manifest(manifest)
                    &&& final(self).gathered() == old(self).gathered() + manifest.layers@
                },
            },
    {
        let at: usize = self.next;
        assert(at < self.digests.len());
        match child_manifest(self.digests[at].as_str(), actual, document) {
            Err(e) => Err(e),
            Ok(manifest) => {
                let mut more = manifest.layers;
                self.layers.append(&mut more);
                self.next = at + 1;
                Ok(())
            },
        }
    }

    /// The layers of all manifests, each digest once.
    pub fn finish(self) -> (r: Vec<Descriptor>)
        requires
            self.wf(),
            self.taken() == self.children().len(),
        ensures
            r@ == kept(self.gathered(), self.gathered().len() as int),
    {
        retain_firsts(self.layers)
    }
}

/// What is kept of some descriptors has every digest among them, and none of them twice.
pub proof fn law_kept_digests_are_all_and_once(all: Seq<Descriptor>, n: int)
    requires
        0 <= n <= all.len(),
    ensures
        digests_of(kept(all, n)).no_duplicates(),
        forall|d: Seq<char>| #[trigger]
            digests_of(kept(all, n)).contains(d) <==> digests_of(all.take(n)).contains(d),
    decreases n,
{
    if n > 0 {
        law_kept_digests_are_all_and_once(all, n - 1);
        let before = digests_of(kept(all, n - 1));
        let now = digests_of(kept(all, n));
        let seen = digests_of(all.take(n - 1));
        let given = digests_of(all.take(n));
        let last = all[n - 1].digest@;
        assert(given =~= seen.push(last));
        assert(seen.contains(last) <==> !is_first(all, n - 1)) by {
            if seen.contains(last) {
                let k = seen.index_of(last);
                assert(all[k].digest@ == last);
            }
            if !is_first(all, n - 1) {
                let k = choose|k: int| 0 <= k < n - 1 && (#[trigger] all[k]).digest@ == last;
                assert(seen[k] == last);
            }
        }
        if is_first(all, n - 1) {
            assert(now =~= before.push(last));
            assert(!before.contains(last));
        }
        assert forall|d: Seq<char>| #[trigger] now.contains(d) <==> given.contains(d) by {
            lemma_pushed(seen, last, d);
            lemma_pushed(before, last, d);
        }
    } else {
        assert(digests_of(kept(all, n)) =~= Seq::<Seq<char>>::empty());
        assert(digests_of(all.take(n)) =~= Seq::<Seq<char>>::empty());
    }
}

proof fn lemma_pushed(s: Seq<Seq<char>>, x: Seq<char>, d: Seq<char>)
    ensures
        s.push(x).contains(d) <==> s.contains(d) || d == x,
{
    if s.contains(d) {
        assert(s.push(x)[s.index_of(d)] == d);
    }
    assert(s.push(x)[s.len() as int] == x);
    if s.push(x).contains(d) && d != x {
        let k = s.push(x).index_of(d);
        assert(s[k] == d);
    }
}

/// `slice::sort` on strings: the same strings, in the order of their bytes.
#[verifier::external_body]
fn sort_strings(v: &mut Vec<String>)
    ensures
        final(v)@.to_multiset() == old(v)@.to_multiset(),
        forall|i: int, j: int|
            0 <= i < j < final(v)@.len() ==> !less(
                (#[trigger] final(v)@[j])@,
                (#[trigger] final(v)@[i])@,
            ),
{
    v.sort();
}

/// Whether some names strictly ascend.
pub open spec fn ascend(names: Seq<Seq<char>>) -> bool {
    forall|i: int, j: int|
        0 <= i < j < names.len() ==> less(#[trigger] names[i], #[trigger] names[j])
}

/// The names without repetition, in their order.
pub fn sorted_names(names: Vec<String>) -> (r: Vec<String>)
    ensures
        ascend(views(r@)),
        forall|s: Seq<char>| #[trigger] views(r@).contains(s) <==> views(names@).contains(s),
{
    let ghost given = names@;
    let mut sorted = names;
    sort_strings(&mut sorted);
    let ghost all = views(sorted@);
    let mut out: Vec<String> = Vec::new();
    for i in 0..sorted.len()
        invariant
            all == views(sorted@),
            forall|a: int, b: int|
                0 <= a < b < sorted@.len() ==> !less(
                    (#[trigger] sorted@[b])@,
                    (#[trigger] sorted@[a])@,
                ),
            ascend(views(out@)),
            out@.len() == 0 <==> i == 0,
            i > 0 ==> out@.last()@ == sorted@[i - 1]@,
            forall|s: Seq<char>| #[trigger]
                views(out@).contains(s) <==> exists|k: int| 0 <= k < i && #[trigger] all[k] == s,
    {
        let ghost before = out@;
        let fresh: bool = if out.len() == 0 {
            true
        } else {
            !same(out[out.len() - 1].as_str(), sorted[i].as_str())
        };
        if fresh {
            out.push(sorted[i].clone());
        }
        proof {
            let x = sorted@[i as int]@;
            assert(all[i as int] == x);
            if fresh {
                assert(views(out@) =~= views(before).push(x));
                assert forall|a: int, b: int| 0 <= a < b < views(out@).len() implies less(
                    #[trigger] views(out@)[a],
                    #[trigger] views(out@)[b],
                ) by {
                    assert(views(out@)[a] == views(before)[a]);
                    if b < before.len() {
                        assert(views(out@)[b] == views(before)[b]);
                    } else {
                        let prev = sorted@[i - 1]@;
                        crate::text::lemma_less_total(prev, x);
                        assert(!less(sorted@[i as int]@, sorted@[i - 1]@));
                        if a < before.len() - 1 {
                            assert(less(views(before)[a], views(before)[before.len() - 1]));
                            crate::text::lemma_less_trans(views(before)[a], prev, x);
                        }
                    }
                }
            }
            assert forall|s: Seq<char>| #[trigger] views(out@).contains(s) <==> exists|k: int|
                0 <= k < i + 1 && #[trigger] all[k] == s by {
                if views(out@).contains(s) {
                    let k = views(out@).index_of(s);
                    if k < before.len() {
                        assert(views(before)[k] == s);
                        assert(views(before).contains(s));
                    }
                }
                if exists|k: int| 0 <= k < i + 1 && #[trigger] all[k] == s {
                    let k = choose|k: int| 0 <= k < i + 1 && #[trigger] all[k] == s;
                    if k < i {
                        assert(views(before).contains(s));
                        let m = views(before).index_of(s);
                        assert(views(out@)[m] == s);
                    } else {
                        let m = out@.len() - 1;
                        assert(views(out@)[m] == s);
                    }
                }
            }
        }
    }
    proof {
        assert forall|s: Seq<char>| #[trigger] views(out@).contains(s) <==> views(given).contains(
            s,
        ) by {
            lemma_same_texts(given, sorted@, s);
            if all.contains(s) {
                let k = all.index_of(s);
                assert(all[k] == s);
            }
        }
    }
    out
}

proof fn lemma_same_texts(a: Seq<String>, b: Seq<String>, s: Seq<char>)
    requires
        a.to_multiset() == b.to_multiset(),
    ensures
        views(a).contains(s) <==> views(b).contains(s),
{
    a.to_multiset_ensures();
    b.to_multiset_ensures();
    if views(a).contains(s) {
        let k = views(a).index_of(s);
        assert(a.contains(a[k]));
        assert(b.to_multiset().count(a[k]) > 0);
        let m = b.index_of(a[k]);
        assert(views(b)[m] == s);
    }
    if views(b).contains(s) {
        let k = views(b).index_of(s);
        assert(b.contains(b[k]));
        assert(a.to_multiset().count(b[k]) > 0);
        let m = a.index_of(b[k]);
        assert(views(a)[m] == s);
    }
}

/// The platforms that a document covers: those of an index, each once and in order, or any.
pub fn covered_platforms(document: &ManifestDocument) -> (r: Vec<String>)
    ensures
        match *document {
            ManifestDocument::Manifest(_) => views(r@) == seq!["any"@],
            ManifestDocument::Index(index) => ascend(views(r@)) && forall|s: Seq<char>| #[trigger]
                views(r@).contains(s) <==> labels(index.manifests@).contains(s),
        },
{
    match document {
        ManifestDocument::Manifest(_) => {
            let mut out: Vec<String> = Vec::new();
            out.push(owned("any"));
            assert(views(out@) =~= seq!["any"@]);
            out
        },
        ManifestDocument::Index(index) => sorted_names(labels_of(&index.manifests)),
    }
}

// ---------------------------------------------------------------------------
// Payloads
// ---------------------------------------------------------------------------

/// Whether a title names a file inside the directory that it is written to.
pub open spec fn valid_title(title: Seq<char>) -> bool {
    &&& title.len() > 0
    &&& title[0] != '/'
    &&& forall|i: int|
        0 <= i < split(title, '/').len() ==> (#[trigger] split(title, '/')[i]).len() > 0 && split(
            title,
            '/',
        )[i] != ".."@
}

/// The message about a title that is not valid.
pub open spec fn title_message(title: Seq<char>) -> Seq<char> {
    "invalid payload title "@ + debug_quoted(title)
}

fn bad_title(title: &str) -> (r: CliError)
    ensures
        r@ == operational(title_message(title@)),
{
    CliError::Operational(cat2("invalid payload title ", quoted(title).as_str()))
}

/// Checks a title.
pub fn validate_title(title: &str) -> (r: Result<(), CliError>)
    ensures
        match r {
            Ok(()) => valid_title(title@),
            Err(e) => !valid_title(title@) && e@ == operational(title_message(title@)),
        },
{
    let chars = chars_of(title);
    if chars.len() == 0 || chars[0] == '/' {
        return Err(bad_title(title));
    }
    let parts = pieces(&chars, '/');
    let ghost all = split(title@, '/');
    for i in 0..parts.len()
        invariant
            all == split(title@, '/'),
            all == char_views(parts@),
            forall|k: int| 0 <= k < i ==> (#[trigger] all[k]).len() > 0 && all[k] != ".."@,
    {
        assert(all[i as int] == parts@[i as int]@);
        if parts[i].len() == 0 || same(string_of(&parts[i]).as_str(), "..") {
            assert(!valid_title(title@));
            return Err(bad_title(title));
        }
    }
    Ok(())
}

/// The pieces without the single dots.
pub open spec fn without_dots(parts: Seq<Seq<char>>) -> Seq<Seq<char>>
    decreases parts.len(),
{
    if parts.len() == 0 {
        Seq::empty()
    } else if parts.last() == "."@ {
        without_dots(parts.drop_last())
    } else {
        without_dots(parts.drop_last()).push(parts.last())
    }
}

/// The path that a title names below a directory. One that begins with a single dot is refused.
pub fn safe_relative_path(title: &str) -> (r: Result<String, CliError>)
    ensures
        if valid_title(title@) && split(title@, '/')[0] != "."@ {
            r matches Ok(path) && path@ == join(without_dots(split(title@, '/')), "/"@)
        } else {
            r matches Err(e) && e@ == operational(title_message(title@))
        },
{
    match validate_title(title) {
        Err(e) => {
            return Err(e);
        },
        Ok(()) => {},
    }
    let parts = pieces(&chars_of(title), '/');
    let ghost all = split(title@, '/');
    assert(all == char_views(parts@));
    assert(all[0] == parts@[0]@);
    if same(string_of(&parts[0]).as_str(), ".") {
        return Err(bad_title(title));
    }
    let mut out: Vec<String> = Vec::new();
    assert(all.take(0) =~= Seq::<Seq<char>>::empty());
    assert(views(out@) =~= Seq::<Seq<char>>::empty());
    for i in 0..parts.len()
        invariant
            all == char_views(parts@),
            views(out@) == without_dots(all.take(i as int)),
    {
        let part = string_of(&parts[i]);
        let ghost before = out@;
        proof {
            assert(all.take(i + 1).drop_last() =~= all.take(i as int));
            assert(all.take(i + 1).last() == part@);
        }
        if !same(part.as_str(), ".") {
            out.push(part);
            assert(views(out@) =~= views(before).push(part@));
        }
    }
    assert(all.take(all.len() as int) =~= all);
    Ok(joined(&out, "/"))
}

proof fn lemma_without_dots(parts: Seq<Seq<char>>, k: int)
    requires
        0 <= k < without_dots(parts).len(),
    ensures
        without_dots(parts)[k] != "."@,
        parts.contains(without_dots(parts)[k]),
    decreases parts.len(),
{
    let before = without_dots(parts.drop_last());
    if parts.last() == "."@ || k < before.len() {
        lemma_without_dots(parts.drop_last(), k);
        let i = choose|i: int|
            0 <= i < parts.drop_last().len() && parts.drop_last()[i] == without_dots(parts)[k];
        assert(parts[i] == without_dots(parts)[k]);
    } else {
        assert(parts[parts.len() - 1] == without_dots(parts)[k]);
    }
}

/// A payload stays below the directory that it is written to: each part of its path is the name
/// of something inside the part before it.
pub proof fn law_a_payload_stays_below_its_directory(title: Seq<char>, k: int)
    requires
        valid_title(title),
        0 <= k < without_dots(split(title, '/')).len(),
    ensures
        without_dots(split(title, '/'))[k].len() > 0,
        without_dots(split(title, '/'))[k] != "."@,
        without_dots(split(title, '/'))[k] != ".."@,
        !without_dots(split(title, '/'))[k].contains('/'),
{
    let parts = split(title, '/');
    lemma_without_dots(parts, k);
    crate::text::lemma_split_from(title, '/', 0);
    let i = choose|i: int| 0 <= i < parts.len() && parts[i] == without_dots(parts)[k];
    assert(parts[i].len() > 0);
}

/// What is wrong with the title of a layer.
pub open spec fn layer_title_fault(layer: Descriptor) -> Option<Seq<char>> {
    match value_of(layer.annotations@, TITLE@) {
        None => Some("payload layer is missing title"@),
        Some(title) => if valid_title(title) {
            None
        } else {
            Some(title_message(title))
        },
    }
}

/// The title of a layer.
pub open spec fn title_of(layer: Descriptor) -> Seq<char> {
    value_of(layer.annotations@, TITLE@)->0
}

/// The title of a layer.
pub fn layer_title(layer: &Descriptor) -> (r: Result<String, CliError>)
    ensures
        match layer_title_fault(*layer) {
            None => r matches Ok(title) && title@ == title_of(*layer),
            Some(m) => r matches Err(e) && e@ == operational(m),
        },
{
    match annotation(&layer.annotations, TITLE) {
        None => Err(CliError::Operational(owned("payload layer is missing title"))),
        Some(title) => match validate_title(title.as_str()) {
            Ok(()) => Ok(title),
            Err(e) => Err(e),
        },
    }
}

/// Whether a layer's file can be run.
pub open spec fn is_executable(layer: Descriptor) -> bool {
    value_of(layer.annotations@, EXECUTABLE@) == Some("true"@)
}

/// Whether a layer's file can be run.
pub fn executable(layer: &Descriptor) -> (r: bool)
    ensures
        r == is_executable(*layer),
{
    match annotation(&layer.annotations, EXECUTABLE) {
        Some(value) => same(value.as_str(), "true"),
        None => false,
    }
}

/// What is wrong with the title of the first layer that has none or a bad one, from number `i` on.
pub open spec fn titles_fault(layers: Seq<Descriptor>, i: int) -> Option<Seq<char>>
    decreases layers.len() - i,
{
    if i < 0 || i >= layers.len() {
        None
    } else if layer_title_fault(layers[i]) is Some {
        layer_title_fault(layers[i])
    } else {
        titles_fault(layers, i + 1)
    }
}

/// One file to fetch: its title and the layer that holds it.
#[derive(Debug, PartialEq, Eq)]
pub struct Payload {
    pub title: String,
    pub layer: usize,
}

/// The files to fetch, in the order of their titles; and the title that two layers share, at which
/// fetching stops.
#[derive(Debug, PartialEq, Eq)]
pub struct PayloadPlan {
    pub files: Vec<Payload>,
    pub duplicate: Option<String>,
}

/// Whether a plan fetches a layer.
pub open spec fn fetches(files: Seq<Payload>, layer: int) -> bool {
    exists|k: int| 0 <= k < files.len() && (#[trigger] files[k]).layer == layer
}

/// Whether two layers share a title.
pub open spec fn shared(layers: Seq<Descriptor>, title: Seq<char>) -> bool {
    exists|i: int, j: int|
        0 <= i < j < layers.len() && #[trigger] title_of(layers[i]) == title && #[trigger] title_of(
            layers[j],
        ) == title
}

/// Whether this is the plan for some layers: each title in order, up to the first that two layers
/// share.
pub open spec fn is_plan(plan: PayloadPlan, layers: Seq<Descriptor>) -> bool {
    let files = plan.files@;
    &&& forall|k: int|
        0 <= k < files.len() ==> (#[trigger] files[k]).layer < layers.len() && files[k].title@
            == title_of(layers[files[k].layer as int]) && !shared(layers, files[k].title@)
    &&& forall|j: int, k: int|
        0 <= j < k < files.len() ==> less(
            (#[trigger] files[j]).title@,
            (#[trigger] files[k]).title@,
        )
    &&& match plan.duplicate {
        None => forall|i: int| 0 <= i < layers.len() ==> #[trigger] fetches(files, i),
        Some(title) => shared(layers, title@) && forall|i: int|
            0 <= i < layers.len() && less(title_of(layers[i]), title@) ==> #[trigger] fetches(
                files,
                i,
            ),
    }
    &&& plan.duplicate matches Some(title) ==> forall|k: int|
        0 <= k < files.len() ==> less((#[trigger] files[k]).title@, title@)
}

/// Whether one titled layer comes before another or is the same: by the title, then by the place.
pub open spec fn title_le(a: (String, usize), b: (String, usize)) -> bool {
    less(a.0@, b.0@) || (a.0@ == b.0@ && a.1 <= b.1)
}

/// `slice::sort` on pairs of a string and a number: the same pairs, in the order of the strings'
/// bytes and, where those are equal, of the numbers.
#[verifier::external_body]
fn sort_titles(v: &mut Vec<(String, usize)>)
    ensures
        final(v)@.to_multiset() == old(v)@.to_multiset(),
        forall|i: int, j: int|
            0 <= i < j < final(v)@.len() ==> title_le(
                #[trigger] final(v)@[i],
                #[trigger] final(v)@[j],
            ),
{
    v.sort();
}

/// Whether some pairs are the titles of some layers with their places, in order.
spec fn is_sorting(layers: Seq<Descriptor>, sorted: Seq<(String, usize)>) -> bool {
    &&& forall|k: int|
        0 <= k < sorted.len() ==> (#[trigger] sorted[k]).1 < layers.len() && sorted[k].0@
            == title_of(layers[sorted[k].1 as int])
    &&& forall|i: int| 0 <= i < layers.len() ==> #[trigger] stands(sorted, i)
    &&& forall|j: int, k: int|
        0 <= j < k < sorted.len() ==> title_le(#[trigger] sorted[j], #[trigger] sorted[k])
            && sorted[j].1 != sorted[k].1
}

spec fn stands(sorted: Seq<(String, usize)>, i: int) -> bool {
    exists|k: int| 0 <= k < sorted.len() && (#[trigger] sorted[k]).1 == i
}

proof fn lemma_sorting(
    layers: Seq<Descriptor>,
    gathered: Seq<(String, usize)>,
    sorted: Seq<(String, usize)>,
)
    requires
        gathered.to_multiset() == sorted.to_multiset(),
        gathered.len() == layers.len() <= usize::MAX,
        forall|i: int|
            0 <= i < gathered.len() ==> (#[trigger] gathered[i]).1 == i && gathered[i].0@
                == title_of(layers[i]),
        forall|j: int, k: int|
            0 <= j < k < sorted.len() ==> title_le(#[trigger] sorted[j], #[trigger] sorted[k]),
    ensures
        is_sorting(layers, sorted),
{
    assert(gathered.no_duplicates());
    gathered.lemma_multiset_has_no_duplicates();
    sorted.lemma_multiset_has_no_duplicates_conv();
    gathered.to_multiset_ensures();
    sorted.to_multiset_ensures();
    assert forall|k: int| 0 <= k < sorted.len() implies (#[trigger] sorted[k]).1 < layers.len()
        && sorted[k].0@ == title_of(layers[sorted[k].1 as int]) && gathered[sorted[k].1 as int]
        == sorted[k] by {
        assert(sorted.contains(sorted[k]));
        assert(gathered.to_multiset().count(sorted[k]) > 0);
        let i = gathered.index_of(sorted[k]);
        assert(gathered[i] == sorted[k]);
    }
    assert forall|i: int| 0 <= i < layers.len() implies #[trigger] stands(sorted, i) by {
        assert(gathered.contains(gathered[i]));
        assert(sorted.to_multiset().count(gathered[i]) > 0);
        let k = sorted.index_of(gathered[i]);
        assert(sorted[k].1 == i);
    }
    assert forall|j: int, k: int| 0 <= j < k < sorted.len() implies title_le(
        #[trigger] sorted[j],
        #[trigger] sorted[k],
    ) && sorted[j].1 != sorted[k].1 by {
        assert(sorted[j] != sorted[k]);
        assert(gathered[sorted[j].1 as int] == sorted[j]);
        assert(gathered[sorted[k].1 as int] == sorted[k]);
    }
}

/// A title that stands at one place of the order only is not shared.
proof fn lemma_not_shared(layers: Seq<Descriptor>, sorted: Seq<(String, usize)>, k: int)
    requires
        is_sorting(layers, sorted),
        0 <= k < sorted.len(),
        k > 0 ==> sorted[k - 1].0@ != sorted[k].0@,
        k + 1 < sorted.len() ==> sorted[k + 1].0@ != sorted[k].0@,
    ensures
        !shared(layers, sorted[k].0@),
        forall|j: int| 0 <= j < k ==> less((#[trigger] sorted[j]).0@, sorted[k].0@),
        forall|j: int| k < j < sorted.len() ==> less(sorted[k].0@, (#[trigger] sorted[j]).0@),
{
    let t = sorted[k].0@;
    assert forall|j: int| 0 <= j < k implies less((#[trigger] sorted[j]).0@, t) by {
        assert(title_le(sorted[k - 1], sorted[k]));
        if j < k - 1 {
            assert(title_le(sorted[j], sorted[k - 1]));
            if less(sorted[j].0@, sorted[k - 1].0@) {
                crate::text::lemma_less_trans(sorted[j].0@, sorted[k - 1].0@, t);
            }
        }
    }
    assert forall|j: int| k < j < sorted.len() implies less(t, (#[trigger] sorted[j]).0@) by {
        assert(title_le(sorted[k], sorted[k + 1]));
        if j > k + 1 {
            assert(title_le(sorted[k + 1], sorted[j]));
            if less(sorted[k + 1].0@, sorted[j].0@) {
                crate::text::lemma_less_trans(t, sorted[k + 1].0@, sorted[j].0@);
            }
        }
    }
    if shared(layers, t) {
        let (a, b) = choose|i: int, j: int|
            0 <= i < j < layers.len() && #[trigger] title_of(layers[i]) == t && #[trigger] title_of(
                layers[j],
            ) == t;
        assert(stands(sorted, a) && stands(sorted, b));
        let p = choose|p: int| 0 <= p < sorted.len() && (#[trigger] sorted[p]).1 == a;
        let q = choose|q: int| 0 <= q < sorted.len() && (#[trigger] sorted[q]).1 == b;
        crate::text::lemma_less_total(t, t);
        assert(sorted[p].0@ == t && sorted[q].0@ == t);
        assert(p == k && q == k);
    }
}

/// Plans the files to fetch of some layers.
pub fn payload_plan(layers: &Vec<Descriptor>) -> (r: Result<PayloadPlan, CliError>)
    ensures
        match titles_fault(layers@, 0) {
            Some(m) => r matches Err(e) && e@ == operational(m),
            None => r matches Ok(plan) && is_plan(plan, layers@),
        },
{
    let mut order: Vec<(String, usize)> = Vec::new();
    for i in 0..layers.len()
        invariant
            titles_fault(layers@, 0) == titles_fault(layers@, i as int),
            order@.len() == i,
            forall|k: int|
                0 <= k < i ==> (#[trigger] order@[k]).1 == k && order@[k].0@ == title_of(
                    layers@[k],
                ),
    {
        match layer_title(&layers[i]) {
            Err(e) => {
                return Err(e);
            },
            Ok(title) => {
                order.push((title, i));
            },
        }
    }
    let ghost gathered = order@;
    sort_titles(&mut order);
    proof {
        assert(layers@.len() == layers.len());
        lemma_sorting(layers@, gathered, order@);
    }
    let mut files: Vec<Payload> = Vec::new();
    for k in 0..order.len()
        invariant
            is_sorting(layers@, order@),
            titles_fault(layers@, 0) is None,
            files@.len() == k,
            forall|j: int|
                0 <= j < k ==> (#[trigger] files@[j]).title@ == order@[j].0@ && files@[j].layer
                    == order@[j].1 && !shared(layers@, order@[j].0@),
            forall|i: int, j: int|
                0 <= i < j < k ==> less(
                    (#[trigger] files@[i]).title@,
                    (#[trigger] files@[j]).title@,
                ),
            k > 0 && k < order@.len() ==> order@[k - 1].0@ != order@[k as int].0@,
    {
        if k + 1 < order.len() && same(order[k].0.as_str(), order[k + 1].0.as_str()) {
            let title = order[k].0.clone();
            proof {
                lemma_duplicate(layers@, order@, files@, k as int);
            }
            return Ok(PayloadPlan { files, duplicate: Some(title) });
        }
        proof {
            lemma_not_shared(layers@, order@, k as int);
        }
        files.push(Payload { title: order[k].0.clone(), layer: order[k].1 });
    }
    proof {
        assert forall|i: int| 0 <= i < layers@.len() implies #[trigger] fetches(files@, i) by {
            assert(stands(order@, i));
            let k = choose|k: int| 0 <= k < order@.len() && (#[trigger] order@[k]).1 == i;
            assert(files@[k].layer == i);
        }
    }
    Ok(PayloadPlan { files, duplicate: None })
}

proof fn lemma_duplicate(
    layers: Seq<Descriptor>,
    sorted: Seq<(String, usize)>,
    files: Seq<Payload>,
    k: int,
)
    requires
        is_sorting(layers, sorted),
        0 <= k < sorted.len() - 1,
        sorted[k].0@ == sorted[k + 1].0@,
        k > 0 ==> sorted[k - 1].0@ != sorted[k].0@,
        files.len() == k,
        forall|j: int|
            0 <= j < k ==> (#[trigger] files[j]).title@ == sorted[j].0@ && files[j].layer
                == sorted[j].1,
    ensures
        shared(layers, sorted[k].0@),
        forall|i: int|
            0 <= i < layers.len() && less(title_of(layers[i]), sorted[k].0@)
                ==> #[trigger] fetches(files, i),
        forall|j: int| 0 <= j < k ==> less((#[trigger] files[j]).title@, sorted[k].0@),
{
    let t = sorted[k].0@;
    assert(sorted[k].1 != sorted[k + 1].1) by {
        assert(title_le(sorted[k], sorted[k + 1]));
    }
    let a = sorted[k].1 as int;
    let b = sorted[k + 1].1 as int;
    assert(title_of(layers[a]) == t && title_of(layers[b]) == t);
    if a < b {
        assert(shared(layers, t));
    } else {
        assert(shared(layers, t));
    }
    assert forall|j: int| 0 <= j < k implies less((#[trigger] files[j]).title@, t) by {
        assert(title_le(sorted[k - 1], sorted[k]));
        if j < k - 1 {
            assert(title_le(sorted[j], sorted[k - 1]));
            if less(sorted[j].0@, sorted[k - 1].0@) {
                crate::text::lemma_less_trans(sorted[j].0@, sorted[k - 1].0@, t);
            }
        }
    }
    assert forall|i: int|
        0 <= i < layers.len() && less(title_of(layers[i]), t) implies #[trigger] fetches(
        files,
        i,
    ) by {
        assert(stands(sorted, i));
        let p = choose|p: int| 0 <= p < sorted.len() && (#[trigger] sorted[p]).1 == i;
        assert(sorted[p].0@ == title_of(layers[i]));
        crate::text::lemma_less_total(sorted[p].0@, t);
        if p >= k {
            crate::text::lemma_less_total(t, t);
            if p > k {
                assert(title_le(sorted[k], sorted[p]));
            }
        }
        assert(files[p].layer == i);
    }
}

/// The error about a title that two layers share.
pub fn duplicate_title(title: &str) -> (r: CliError)
    ensures
        r@ == operational("duplicate payload title "@ + debug_quoted(title@)),
{
    CliError::Operational(cat2("duplicate payload title ", quoted(title).as_str()))
}

/// How a payload is stored.
#[derive(Debug, Clone, Copy, PartialEq, Eq, Structural)]
pub enum PayloadForm {
    /// In compressed frames.
    Chunked,
    /// As it is.
    Plain,
}

/// How a payload of a media type is read, if it can be.
pub open spec fn form_of(media_type: Seq<char>) -> Option<PayloadForm> {
    if CHUNKED_SUFFIX@.is_suffix_of(media_type) {
        Some(PayloadForm::Chunked)
    } else if ORC_PAYLOAD_NAMESPACE@.is_prefix_of(media_type) {
        None
    } else {
        Some(PayloadForm::Plain)
    }
}

/// Decides how a payload is read. One of a type that the reader should understand and does not is
/// refused: bytes that were not decoded are never written.
pub fn payload_form(layer: &Descriptor, title: &str) -> (r: Result<PayloadForm, CliError>)
    ensures
        match form_of(layer.media_type@) {
            Some(form) => r == Ok::<PayloadForm, CliError>(form),
            None => r matches Err(e) && e@ == operational(
                "payload "@ + debug_quoted(title@) + " uses unsupported media type "@
                    + debug_quoted(layer.media_type@)
                    + "; this client cannot decode it (re-push the artifact in the current format)"@,
            ),
        },
{
    let chars = chars_of(layer.media_type.as_str());
    if ends_with(&chars, CHUNKED_SUFFIX) {
        return Ok(PayloadForm::Chunked);
    }
    if starts_with(&chars, ORC_PAYLOAD_NAMESPACE) {
        return Err(
            CliError::Operational(
                cat5(
                    "payload ",
                    quoted(title).as_str(),
                    " uses unsupported media type ",
                    quoted(layer.media_type.as_str()).as_str(),
                    "; this client cannot decode it (re-push the artifact in the current format)",
                ),
            ),
        );
    }
    Ok(PayloadForm::Plain)
}

/// The name and the version that the media type of a configuration writes.
pub open spec fn config_parts(media_type: Seq<char>) -> Option<(Seq<char>, Seq<char>)> {
    let tail = media_type.skip(22);
    let rest = tail.take(tail.len() - 5);
    let at = find_text(rest, ".config.v"@);
    if !"application/vnd.orc8r."@.is_prefix_of(media_type) || !"+json"@.is_suffix_of(tail) {
        None
    } else if at < 0 || at == 0 || at + 9 >= rest.len() {
        None
    } else {
        Some((rest.take(at), rest.skip(at + 9)))
    }
}

/// The file that a configuration is written to.
pub fn config_filename(media_type: &str) -> (r: Result<String, CliError>)
    ensures
        match config_parts(media_type@) {
            Some((name, version)) => r matches Ok(s) && s@ == name + ".config.v"@ + version
                + ".json"@,
            None => r matches Err(e) && e@ == operational(
                "unsupported config media type "@ + media_type@,
            ),
        },
{
    proof {
        reveal_strlit("application/vnd.orc8r.");
        reveal_strlit("+json");
        reveal_strlit(".config.v");
    }
    let chars = chars_of(media_type);
    if starts_with(&chars, "application/vnd.orc8r.") {
        let tail = crate::text::slice_of(&chars, 22, chars.len());
        assert(tail@ =~= media_type@.skip(22));
        if ends_with(&tail, "+json") {
            let rest = crate::text::slice_of(&tail, 0, tail.len() - 5);
            assert(rest@ =~= tail@.take(tail@.len() - 5));
            match text_position(&rest, ".config.v") {
                Some(at) => {
                    if at > 0 && at + 9 < rest.len() {
                        let name = slice_string(&rest, 0, at);
                        let version = slice_string(&rest, at + 9, rest.len());
                        assert(name@ =~= rest@.take(at as int));
                        assert(version@ =~= rest@.skip(at + 9));
                        return Ok(
                            cat4(name.as_str(), ".config.v", version.as_str(), ".json"),
                        );
                    }
                },
                None => {},
            }
        }
    }
    Err(CliError::Operational(cat2("unsupported config media type ", media_type)))
}

/// The annotations that are not reserved, in their order.
pub open spec fn public_ones(annotations: Seq<(String, String)>) -> Seq<(String, String)>
    decreases annotations.len(),
{
    if annotations.len() == 0 {
        Seq::empty()
    } else if "vnd.orc8r."@.is_prefix_of(annotations.last().0@) {
        public_ones(annotations.drop_last())
    } else {
        public_ones(annotations.drop_last()).push(annotations.last())
    }
}

/// The annotations that are not reserved.
pub fn public_annotations(annotations: &Vec<(String, String)>) -> (r: Vec<(String, String)>)
    ensures
        r@ == public_ones(annotations@),
{
    let mut out: Vec<(String, String)> = Vec::new();
    assert(annotations@.take(0) =~= Seq::<(String, String)>::empty());
    for i in 0..annotations.len()
        invariant
            out@ == public_ones(annotations@.take(i as int)),
    {
        proof {
            assert(annotations@.take(i + 1).drop_last() =~= annotations@.take(i as int));
            assert(annotations@.take(i + 1).last() == annotations@[i as int]);
        }
        if !starts_with(&chars_of(annotations[i].0.as_str()), "vnd.orc8r.") {
            out.push((annotations[i].0.clone(), annotations[i].1.clone()));
        }
    }
    assert(annotations@.take(annotations@.len() as int) =~= annotations@);
    out
}

// ---------------------------------------------------------------------------
// The files of a package
// ---------------------------------------------------------------------------

/// Where the bytes of a file come from.
#[derive(Debug, Clone, Copy, PartialEq, Eq, Structural)]
pub enum OutputSource {
    /// The package's configuration.
    Config,
    /// Its annotations, as far as they are public.
    Annotations,
    /// The layer at that place.
    Layer(usize),
}

/// A file that a package is materialized into.
#[derive(Debug, PartialEq, Eq)]
pub struct Output {
    pub title: String,
    pub executable: bool,
    pub source: OutputSource,
}

/// The files that a package is materialized into, in the order in which they are fetched; and the
/// title that two layers share, at which fetching stops.
#[derive(Debug, PartialEq, Eq)]
pub struct PackagePlan {
    pub outputs: Vec<Output>,
    pub duplicate: Option<String>,
}

/// Whether a file is the one of a planned payload.
pub open spec fn is_payload(o: Output, file: Payload, layers: Seq<Descriptor>) -> bool {
    &&& o.title@ == file.title@
    &&& o.executable == is_executable(layers[file.layer as int])
    &&& o.source == OutputSource::Layer(file.layer)
}

/// Whether the files of a package are its configuration, its annotations where some are public,
/// and then its payloads.
pub open spec fn is_package(
    outputs: Seq<Output>,
    config: Seq<char>,
    annotated: bool,
    files: Seq<Payload>,
    layers: Seq<Descriptor>,
) -> bool {
    let head: int = if annotated {
        2
    } else {
        1
    };
    &&& outputs.len() == head + files.len()
    &&& outputs[0].title@ == config && !outputs[0].executable && outputs[0].source
        == OutputSource::Config
    &&& annotated ==> outputs[1].title@ == ANNOTATIONS_FILE@ && !outputs[1].executable
        && outputs[1].source == OutputSource::Annotations
    &&& forall|k: int|
        0 <= k < files.len() ==> is_payload(outputs[head + k], #[trigger] files[k], layers)
}

/// The name of the file for a configuration.
pub open spec fn config_name(media_type: Seq<char>) -> Option<Seq<char>> {
    match config_parts(media_type) {
        Some((name, version)) => Some(name + ".config.v"@ + version + ".json"@),
        None => None,
    }
}

/// Plans the files of a package.
pub fn package_plan(manifest: &ImageManifest, annotations: &Vec<(String, String)>) -> (r: Result<
    PackagePlan,
    CliError,
>)
    ensures
        match config_name(manifest.config.media_type@) {
            None => r matches Err(e) && e@ == operational(
                "unsupported config media type "@ + manifest.config.media_type@,
            ),
            Some(config) => match titles_fault(manifest.layers@, 0) {
                Some(m) => r matches Err(e) && e@ == operational(m),
                None => r matches Ok(plan) && exists|files: PayloadPlan|
                    files.duplicate == plan.duplicate && #[trigger] is_plan(files, manifest.layers@)
                        && is_package(
                        plan.outputs@,
                        config,
                        public_ones(annotations@).len() > 0,
                        files.files@,
                        manifest.layers@,
                    ),
            },
        },
{
    let config = match config_filename(manifest.config.media_type.as_str()) {
        Err(e) => {
            return Err(e);
        },
        Ok(config) => config,
    };
    let payloads = match payload_plan(&manifest.layers) {
        Err(e) => {
            return Err(e);
        },
        Ok(payloads) => payloads,
    };
    let ghost plan = payloads;
    let mut outputs: Vec<Output> = Vec::new();
    outputs.push(Output { title: config, executable: false, source: OutputSource::Config });
    let annotated: bool = public_annotations(annotations).len() > 0;
    if annotated {
        outputs.push(
            Output {
                title: owned(ANNOTATIONS_FILE),
                executable: false,
                source: OutputSource::Annotations,
            },
        );
    }
    let ghost head = outputs@;
    for k in 0..payloads.files.len()
        invariant
            payloads == plan,
            is_plan(plan, manifest.layers@),
            outputs@.len() == head.len() + k,
            forall|j: int| 0 <= j < head.len() ==> #[trigger] outputs@[j] == head[j],
            forall|j: int|
                0 <= j < k ==> is_payload(
                    #[trigger] outputs@[head.len() + j],
                    plan.files@[j],
                    manifest.layers@,
                ),
    {
        let file = &payloads.files[k];
        assert(plan.files@[k as int].layer < manifest.layers@.len());
        outputs.push(
            Output {
                title: file.title.clone(),
                executable: executable(&manifest.layers[file.layer]),
                source: OutputSource::Layer(file.layer),
            },
        );
    }
    proof {
        assert(outputs@[0] == head[0]);
        if annotated {
            assert(outputs@[1] == head[1]);
        }
        assert(is_plan(plan, manifest.layers@));
    }
    Ok(PackagePlan { outputs, duplicate: payloads.duplicate })
}

/// The digests of the blobs that some files were fetched from.
pub open spec fn fetched_from(outputs: Seq<Output>, manifest: ImageManifest) -> Seq<Seq<char>>
    decreases outputs.len(),
{
    if outputs.len() == 0 {
        Seq::empty()
    } else {
        let more = fetched_from(outputs.drop_last(), manifest);
        match outputs.last().source {
            OutputSource::Config => more.push(manifest.config.digest@),
            OutputSource::Annotations => more,
            OutputSource::Layer(i) => more.push(manifest.layers@[i as int].digest@),
        }
    }
}

/// What was put on disk of a package, once all its files are written.
pub fn materialized(
    plan: &PackagePlan,
    manifest: &ImageManifest,
    digest: String,
    platform: String,
    config_bytes: Vec<u8>,
) -> (r: MaterializedPackage)
    requires
        forall|k: int|
            0 <= k < plan.outputs@.len() ==> ((#[trigger] plan.outputs@[k]).source matches OutputSource::Layer(
                i,
            ) ==> i < manifest.layers@.len()),
    ensures
        r.digest == digest,
        r.platform == platform,
        r.config_bytes == config_bytes,
        r.config_media_type == manifest.config.media_type,
        r.files == plan.outputs@.len(),
        views(r.blob_digests@) == fetched_from(plan.outputs@, *manifest),
{
    let outputs = &plan.outputs;
    let mut blob_digests: Vec<String> = Vec::new();
    assert(outputs@.take(0) =~= Seq::<Output>::empty());
    assert(views(blob_digests@) =~= Seq::<Seq<char>>::empty());
    for k in 0..outputs.len()
        invariant
            outputs@ == plan.outputs@,
            forall|j: int|
                0 <= j < plan.outputs@.len() ==> ((
                #[trigger] plan.outputs@[j]).source matches OutputSource::Layer(i) ==> i
                    < manifest.layers@.len()),
            views(blob_digests@) == fetched_from(outputs@.take(k as int), *manifest),
    {
        let ghost before = blob_digests@;
        proof {
            assert(outputs@.take(k + 1).drop_last() =~= outputs@.take(k as int));
            assert(outputs@.take(k + 1).last() == outputs@[k as int]);
        }
        match outputs[k].source {
            OutputSource::Config => {
                blob_digests.push(manifest.config.digest.clone());
                assert(views(blob_digests@) =~= views(before).push(manifest.config.digest@));
            },
            OutputSource::Annotations => {},
            OutputSource::Layer(i) => {
                blob_digests.push(manifest.layers[i].digest.clone());
                assert(views(blob_digests@) =~= views(before).push(
                    manifest.layers@[i as int].digest@,
                ));
            },
        }
    }
    assert(outputs@.take(outputs@.len() as int) =~= outputs@);
    MaterializedPackage {
        digest,
        files: outputs.len(),
        platform,
        config_media_type: manifest.config.media_type.clone(),
        config_bytes,
        blob_digests,
    }
}

/// Refuses to write over a file, unless that is asked for.
pub fn check_conflict(path: &str, present: bool, force: bool) -> (r: Result<(), CliError>)
    ensures
        match r {
            Ok(()) => !present || force,
            Err(e) => present && !force && e@ == conflicting(
                path@ + " already exists; use --force to overwrite"@,
            ),
        },
{
    if present && !force {
        Err(CliError::Conflict(cat2(path, " already exists; use --force to overwrite")))
    } else {
        Ok(())
    }
}

/// The updates about a blob whose bytes are at hand, from the cache or from the registry.
pub fn verified_events(body: &[u8], digest: &str, cached: bool) -> (r: (
    Result<(), CliError>,
    Vec<ProgressEvent>,
))
    ensures
        r.1@.len() == 2,
        is_event(r.1@[0], digest@, ProgressKind::Blob, ProgressPhase::Verifying),
        match r.0 {
            Ok(()) => digest_text(body@) == digest@ && is_event(
                r.1@[1],
                digest@,
                ProgressKind::Blob,
                if cached {
                    ProgressPhase::Cached
                } else {
                    ProgressPhase::Writing
                },
            ),
            Err(e) => digest_text(body@) != digest@ && e@ == operational(
                digest_mismatch(digest@, digest_text(body@)),
            ) && r.1@[1].key@ == digest@ && r.1@[1].kind == ProgressKind::Blob && (
            r.1@[1].phase matches ProgressPhase::Failed { message }
                && message@ == e@.message),
        },
{
    let mut events: Vec<ProgressEvent> = Vec::new();
    events.push(blob_event(digest, ProgressPhase::Verifying));
    match verify_digest(body, digest) {
        Ok(()) => {
            let next = if cached {
                ProgressPhase::Cached
            } else {
                ProgressPhase::Writing
            };
            events.push(blob_event(digest, next));
            (Ok(()), events)
        },
        Err(e) => {
            let phase = failed(&e);
            events.push(blob_event(digest, phase));
            (Err(e), events)
        },
    }
}

/// The one of several that is taken is the first for the platform that is asked for. With none
/// asked for it is the only one there is, or the first for this machine.
pub proof fn law_the_platform_decides(
    children: Seq<Descriptor>,
    platform: Option<&str>,
    host: Seq<char>,
)
    ensures
        ({
            let wanted = match platform {
                Some(p) => p@,
                None => host,
            };
            &&& platform is None && children.len() == 1 ==> chosen_child(children, platform, host)
                == Some(0int)
            &&& !(platform is None && children.len() == 1) ==> match chosen_child(
                children,
                platform,
                host,
            ) {
                Some(i) => {
                    &&& 0 <= i < children.len()
                    &&& runs_on(children[i], wanted)
                    &&& forall|k: int| 0 <= k < i ==> !runs_on(#[trigger] children[k], wanted)
                },
                None => forall|k: int|
                    0 <= k < children.len() ==> !runs_on(#[trigger] children[k], wanted),
            }
        }),
{
    let wanted = match platform {
        Some(p) => p@,
        None => host,
    };
    lemma_first_for(children, wanted, 0);
}

/// Whether something is for a platform: its system and its processor with a slash between them.
pub open spec fn runs_on(child: Descriptor, label: Seq<char>) -> bool {
    child.platform matches Some(p) && label == p.os@ + seq!['/'] + p.architecture@
}

proof fn lemma_first_for(children: Seq<Descriptor>, label: Seq<char>, i: int)
    requires
        0 <= i <= children.len(),
    ensures
        match first_for(children, label, i) {
            Some(k) => {
                &&& i <= k < children.len()
                &&& runs_on(children[k], label)
                &&& forall|j: int| i <= j < k ==> !runs_on(#[trigger] children[j], label)
            },
            None => forall|j: int| i <= j < children.len() ==> !runs_on(#[trigger] children[j], label),
        },
    decreases children.len() - i,
{
    reveal_strlit("/");
    assert("/"@ =~= seq!['/']);
    if i < children.len() {
        assert(is_for(children[i], label) <==> runs_on(children[i], label));
        if !is_for(children[i], label) {
            lemma_first_for(children, label, i + 1);
        }
    }
}

/// A machine is named as registries name it.
pub proof fn law_a_machine_is_named_as_registries_do(name: Seq<char>)
    ensures
        os_name("macos"@) == "darwin"@,
        name != "macos"@ ==> os_name(name) == name,
        arch_name("x86_64"@) == "amd64"@,
        arch_name("aarch64"@) == "arm64"@,
        name != "x86_64"@ && name != "aarch64"@ ==> arch_name(name) == name,
{
    reveal_strlit("x86_64");
    reveal_strlit("aarch64");
    assert("x86_64"@.len() != "aarch64"@.len());
}

/// The platforms that are told are those of all that have one.
pub proof fn law_every_platform_is_told(children: Seq<Descriptor>, label: Seq<char>)
    ensures
        labels(children).contains(label) <==> exists|i: int|
            0 <= i < children.len() && runs_on(#[trigger] children[i], label),
    decreases children.len(),
{
    reveal_strlit("/");
    assert("/"@ =~= seq!['/']);
    if children.len() > 0 {
        let front = children.drop_last();
        let n = children.len() - 1;
        law_every_platform_is_told(front, label);
        let before = labels(front);
        let all = labels(children);
        assert(children.last() == children[n]);
        if before.contains(label) {
            let k = before.index_of(label);
            assert(all[k] == label);
            let i = choose|i: int| 0 <= i < front.len() && runs_on(#[trigger] front[i], label);
            assert(children[i] == front[i]);
        }
        if runs_on(children[n], label) {
            assert(all.last() == label);
            assert(all.contains(label));
        }
        if all.contains(label) && !before.contains(label) {
            let k = all.index_of(label);
            if k < before.len() {
                assert(before[k] == label);
            }
            assert(runs_on(children[n], label));
        }
        if exists|i: int| 0 <= i < children.len() && runs_on(#[trigger] children[i], label) {
            let i = choose|i: int| 0 <= i < children.len() && runs_on(#[trigger] children[i], label);
            if i < n {
                assert(front[i] == children[i]);
            }
        }
    }
}

/// What an index leads to is taken if it has the digest that the index gives and is a manifest.
pub proof fn law_a_child_has_its_digest(expected: Seq<char>, actual: Seq<char>, is_manifest: bool)
    ensures
        child_fault(expected, actual, is_manifest) is None <==> expected == actual && is_manifest,
{
}

/// An app is told by its artifact type and by the media type of its configuration.
pub proof fn law_an_app_is_told_by_its_types(manifest: ImageManifest)
    ensures
        is_app(manifest) <==> manifest.schema_version == 2 && manifest.artifact_type@
            == "application/vnd.orc8r.app.v1"@ && manifest.config.media_type@
            == "application/vnd.orc8r.app.config.v1+json"@,
{
}

/// The first layer of a type is taken, if any is of it.
pub proof fn law_the_first_of_a_type_is_taken(
    layers: Seq<Descriptor>,
    media_type: Seq<char>,
    i: int,
)
    requires
        0 <= i <= layers.len(),
    ensures
        match first_of_type(layers, media_type, i) {
            Some(k) => {
                &&& i <= k < layers.len()
                &&& layers[k].media_type@ == media_type
                &&& forall|j: int| i <= j < k ==> (#[trigger] layers[j]).media_type@ != media_type
            },
            None => forall|j: int|
                i <= j < layers.len() ==> (#[trigger] layers[j]).media_type@ != media_type,
        },
    decreases layers.len() - i,
{
    if i < layers.len() && layers[i].media_type@ != media_type {
        law_the_first_of_a_type_is_taken(layers, media_type, i + 1);
    }
}

/// A title is a path that goes down only: two titles with a slash between them are one, and a name
/// is one that is not the directory above.
pub proof fn law_a_title_is_valid_segment_by_segment(a: Seq<char>, b: Seq<char>)
    ensures
        valid_title(a + seq!['/'] + b) <==> valid_title(a) && valid_title(b),
        !a.contains('/') ==> (valid_title(a) <==> a.len() > 0 && a != seq!['.', '.']),
        !valid_title(Seq::empty()),
{
    reveal_strlit("..");
    assert(".."@ =~= seq!['.', '.']);
    let whole = a + seq!['/'] + b;
    crate::text::law_pieces_add_up(a, '/', b);
    let (x, y, z) = (split(a, '/'), split(b, '/'), split(whole, '/'));
    let none = Seq::<char>::empty();
    assert(!none.contains('/'));
    crate::text::law_a_text_is_split_at_each_separator(none, '/', none);
    lemma_rooted(a);
    lemma_rooted(b);
    lemma_rooted(whole);
    if valid_title(whole) {
        assert forall|i: int| 0 <= i < x.len() implies (#[trigger] x[i]).len() > 0 && x[i] != ".."@ by {
            assert(z[i] == x[i]);
        }
        assert forall|i: int| 0 <= i < y.len() implies (#[trigger] y[i]).len() > 0 && y[i] != ".."@ by {
            assert(z[x.len() + i] == y[i]);
        }
        if a.len() == 0 {
            assert(a =~= none);
            assert(x[0] == none);
        }
        if b.len() == 0 {
            assert(b =~= none);
            assert(y[0] == none);
        }
    }
    if valid_title(a) && valid_title(b) {
        assert(whole[0] == a[0]);
        assert forall|i: int| 0 <= i < z.len() implies (#[trigger] z[i]).len() > 0 && z[i] != ".."@ by {
            if i < x.len() {
                assert(z[i] == x[i]);
            } else {
                assert(z[i] == y[i - x.len()]);
            }
        }
    }
    if !a.contains('/') {
        crate::text::law_a_text_is_split_at_each_separator(a, '/', none);
        assert(x == seq![a]);
        if a.len() > 0 {
            assert(a.contains(a[0]));
        }
        if valid_title(a) {
            assert(x[0] != ".."@);
        }
    }
}

proof fn lemma_rooted(s: Seq<char>)
    ensures
        s.len() > 0 && s[0] == '/' ==> split(s, '/')[0].len() == 0,
{
    if s.len() > 0 && s[0] == '/' {
        let none = Seq::<char>::empty();
        assert(!none.contains('/'));
        crate::text::law_a_text_is_split_at_each_separator(none, '/', s.skip(1));
        assert(s =~= none + seq!['/'] + s.skip(1));
        assert(split(s, '/')[0] == none);
    }
}

/// A payload has its title and is made executable by its annotations, each under its own key.
pub proof fn law_a_payload_is_told_by_its_annotations(layer: Descriptor)
    ensures
        layer_title_fault(layer) is None <==> (value_of(
            layer.annotations@,
            "org.opencontainers.image.title"@,
        ) matches Some(title) && valid_title(title)),
        layer_title_fault(layer) is None ==> Some(title_of(layer)) == value_of(
            layer.annotations@,
            "org.opencontainers.image.title"@,
        ),
        is_executable(layer) <==> value_of(layer.annotations@, "vnd.orc8r.file.executable"@) == Some(
            "true"@,
        ),
{
}

/// A configuration is named by its media type: by what stands between the namespace and its
/// version.
pub proof fn law_a_configuration_is_named_by_its_type(name: Seq<char>, version: Seq<char>)
    requires
        name.len() > 0,
        !name.contains('.'),
        version.len() > 0,
    ensures
        config_parts("application/vnd.orc8r."@ + name + ".config.v"@ + version + "+json"@) == Some(
            (name, version),
        ),
{
    reveal_strlit("application/vnd.orc8r.");
    reveal_strlit(".config.v");
    reveal_strlit("+json");
    let media_type = "application/vnd.orc8r."@ + name + ".config.v"@ + version + "+json"@;
    let tail = media_type.skip(22);
    assert(tail =~= name + ".config.v"@ + version + "+json"@);
    let rest = tail.take(tail.len() - 5);
    assert(rest =~= name + ".config.v"@ + version);
    assert("application/vnd.orc8r."@.is_prefix_of(media_type));
    assert(tail.skip(tail.len() - 5) =~= "+json"@);
    assert("+json"@.is_suffix_of(tail));
    let n = name.len() as int;
    assert(rest.subrange(n, n + 9) =~= ".config.v"@);
    assert(crate::text::stands_at(rest, ".config.v"@, n));
    crate::text::law_the_nearest_text_is_found(rest, ".config.v"@, n);
    let at = find_text(rest, ".config.v"@);
    if at < n {
        assert(rest.subrange(at, at + 9)[0] == '.');
        assert(name[at] == '.');
    }
    assert(rest.take(n) =~= name);
    assert(rest.skip(n + 9) =~= version);
}

/// Annotations are passed on but for those of the platform's own, all of them and in their order.
pub proof fn law_only_its_own_annotations_are_held_back(annotations: Seq<(String, String)>)
    ensures
        public_ones(annotations) == annotations.filter(
            |a: (String, String)| !"vnd.orc8r."@.is_prefix_of(a.0@),
        ),
    decreases annotations.len(),
{
    reveal(Seq::filter);
    if annotations.len() > 0 {
        law_only_its_own_annotations_are_held_back(annotations.drop_last());
    }
}

/// Every layer of a package is written, under its title and executable if it says so, unless two
/// share a title.
pub proof fn law_every_layer_is_written(
    plan: PayloadPlan,
    outputs: Seq<Output>,
    config: Seq<char>,
    annotated: bool,
    layers: Seq<Descriptor>,
    i: int,
)
    requires
        is_plan(plan, layers),
        is_package(outputs, config, annotated, plan.files@, layers),
        plan.duplicate is None,
        0 <= i < layers.len() <= usize::MAX,
    ensures
        exists|k: int|
            0 <= k < outputs.len() && (#[trigger] outputs[k]).source == OutputSource::Layer(i as usize)
                && outputs[k].title@ == title_of(layers[i]) && (outputs[k].executable <==> value_of(
                layers[i].annotations@,
                "vnd.orc8r.file.executable"@,
            ) == Some("true"@)),
{
    let files = plan.files@;
    assert(fetches(files, i));
    let k = choose|k: int| 0 <= k < files.len() && (#[trigger] files[k]).layer == i;
    let head: int = if annotated {
        2
    } else {
        1
    };
    assert(is_payload(outputs[head + k], files[k], layers));
}

/// What is fetched for a package is its configuration and the layers that are written, each by its
/// own digest, and nothing else.
pub proof fn law_what_is_written_is_fetched(
    outputs: Seq<Output>,
    manifest: ImageManifest,
    digest: Seq<char>,
)
    ensures
        fetched_from(outputs, manifest).contains(digest) <==> exists|k: int|
            0 <= k < outputs.len() && match (#[trigger] outputs[k]).source {
                OutputSource::Config => manifest.config.digest@ == digest,
                OutputSource::Annotations => false,
                OutputSource::Layer(i) => manifest.layers@[i as int].digest@ == digest,
            },
    decreases outputs.len(),
{
    if outputs.len() > 0 {
        let front = outputs.drop_last();
        let n = outputs.len() - 1;
        law_what_is_written_is_fetched(front, manifest, digest);
        let before = fetched_from(front, manifest);
        let all = fetched_from(outputs, manifest);
        assert(outputs.last() == outputs[n]);
        if before.contains(digest) {
            let k = before.index_of(digest);
            assert(all[k] == digest);
        }
        if all.contains(digest) {
            let k = all.index_of(digest);
            if k < before.len() {
                assert(before[k] == digest);
                assert(before.contains(digest));
                let j = choose|k: int|
                    0 <= k < front.len() && match (#[trigger] front[k]).source {
                        OutputSource::Config => manifest.config.digest@ == digest,
                        OutputSource::Annotations => false,
                        OutputSource::Layer(i) => manifest.layers@[i as int].digest@ == digest,
                    };
                assert(outputs[j] == front[j]);
            }
        }
        if exists|k: int|
            0 <= k < outputs.len() && match (#[trigger] outputs[k]).source {
                OutputSource::Config => manifest.config.digest@ == digest,
                OutputSource::Annotations => false,
                OutputSource::Layer(i) => manifest.layers@[i as int].digest@ == digest,
            } {
            let k = choose|k: int|
                0 <= k < outputs.len() && match (#[trigger] outputs[k]).source {
                    OutputSource::Config => manifest.config.digest@ == digest,
                    OutputSource::Annotations => false,
                    OutputSource::Layer(i) => manifest.layers@[i as int].digest@ == digest,
                };
            if k < n {
                assert(front[k] == outputs[k]);
            } else {
                assert(all.last() == digest);
                assert(all.contains(digest));
            }
        }
    }
}

/// What an index leads to is every digest that it lists, once, and a manifest leads to nothing.
pub proof fn law_an_index_leads_to_each_digest_once(document: ManifestDocument, digest: Seq<char>)
    ensures
        children_of(document).no_duplicates(),
        document is Manifest ==> children_of(document).len() == 0,
        document matches ManifestDocument::Index(index) ==> (children_of(document).contains(digest)
            <==> exists|i: int|
            0 <= i < index.manifests@.len() && (#[trigger] index.manifests@[i]).digest@ == digest),
{
    match document {
        ManifestDocument::Manifest(_) => {},
        ManifestDocument::Index(index) => {
            let all = index.manifests@;
            law_kept_digests_are_all_and_once(all, all.len() as int);
            assert(all.take(all.len() as int) =~= all);
            let ds = digests_of(all);
            if ds.contains(digest) {
                let i = ds.index_of(digest);
                assert(all[i].digest@ == digest);
            }
            if exists|i: int| 0 <= i < all.len() && (#[trigger] all[i]).digest@ == digest {
                let i = choose|i: int| 0 <= i < all.len() && (#[trigger] all[i]).digest@ == digest;
                assert(ds[i] == digest);
            }
        },
    }
}

/// Something for no platform in particular is for any.
pub proof fn law_what_has_no_platform_is_for_any(child: Descriptor)
    ensures
        child.platform is None ==> label_or_any(child) == "any"@,
        child.platform is Some ==> runs_on(child, label_or_any(child)),
{
    reveal_strlit("/");
    assert("/"@ =~= seq!['/']);
}

/// A package is planned if every layer has a title that is valid.
pub proof fn law_every_layer_needs_its_title(layers: Seq<Descriptor>, i: int)
    requires
        0 <= i <= layers.len(),
    ensures
        titles_fault(layers, i) is None <==> forall|k: int|
            i <= k < layers.len() ==> (value_of(
                (#[trigger] layers[k]).annotations@,
                "org.opencontainers.image.title"@,
            ) matches Some(title) && valid_title(title)),
    decreases layers.len() - i,
{
    if i < layers.len() {
        law_every_layer_needs_its_title(layers, i + 1);
        law_a_payload_is_told_by_its_annotations(layers[i]);
        if titles_fault(layers, i) is None {
            assert forall|k: int| i <= k < layers.len() implies (value_of(
                (#[trigger] layers[k]).annotations@,
                "org.opencontainers.image.title"@,
            ) matches Some(title) && valid_title(title)) by {
                if k == i {
                    assert(layer_title_fault(layers[i]) is None);
                }
            }
        }
    }
}

/// A configuration is written under the name that its media type gives it.
pub proof fn law_a_configuration_is_written_under_its_name(name: Seq<char>, version: Seq<char>)
    requires
        name.len() > 0,
        !name.contains('.'),
        version.len() > 0,
    ensures
        config_name("application/vnd.orc8r."@ + name + ".config.v"@ + version + "+json"@) == Some(
            name + ".config.v"@ + version + ".json"@,
        ),
{
    law_a_configuration_is_named_by_its_type(name, version);
}

/// A package whose layers share a title is refused, and no other is.
pub proof fn law_a_shared_title_is_found(plan: PayloadPlan, layers: Seq<Descriptor>)
    requires
        is_plan(plan, layers),
        layers.len() <= usize::MAX,
    ensures
        plan.duplicate is Some <==> exists|i: int, j: int|
            0 <= i < j < layers.len() && #[trigger] title_of(layers[i]) == #[trigger] title_of(
                layers[j],
            ),
        plan.duplicate matches Some(title) ==> exists|i: int, j: int|
            0 <= i < j < layers.len() && #[trigger] title_of(layers[i]) == title@
                && #[trigger] title_of(layers[j]) == title@,
{
    let files = plan.files@;
    if plan.duplicate is None && exists|i: int, j: int|
        0 <= i < j < layers.len() && #[trigger] title_of(layers[i]) == #[trigger] title_of(
            layers[j],
        ) {
        let (i, j) = choose|i: int, j: int|
            0 <= i < j < layers.len() && #[trigger] title_of(layers[i]) == #[trigger] title_of(
                layers[j],
            );
        assert(fetches(files, i));
        let k = choose|k: int| 0 <= k < files.len() && (#[trigger] files[k]).layer == i;
        assert(!shared(layers, files[k].title@));
        assert(title_of(layers[i]) == files[k].title@ && title_of(layers[j]) == files[k].title@);
    }
    if plan.duplicate is Some {
        let title = plan.duplicate->Some_0;
        assert(shared(layers, title@));
        let (i, j) = choose|i: int, j: int|
            0 <= i < j < layers.len() && #[trigger] title_of(layers[i]) == title@
                && #[trigger] title_of(layers[j]) == title@;
        assert(title_of(layers[i]) == title_of(layers[j]));
    }
}

/// A package is its configuration, its annotations if any are passed on, and its layers; the first
/// two are not executable.
pub proof fn law_a_package_begins_with_its_configuration(
    outputs: Seq<Output>,
    config: Seq<char>,
    annotated: bool,
    files: Seq<Payload>,
    layers: Seq<Descriptor>,
)
    requires
        is_package(outputs, config, annotated, files, layers),
    ensures
        outputs[0].source == OutputSource::Config,
        outputs[0].title@ == config,
        !outputs[0].executable,
        annotated ==> outputs[1].source == OutputSource::Annotations && outputs[1].title@
            == "annotations.json"@ && !outputs[1].executable,
        annotated ==> outputs.len() == 2 + files.len(),
        !annotated ==> outputs.len() == 1 + files.len(),
{
}

/// A payload is read in frames if its media type says so. Of the other types those of the
/// platform's own are refused, and all others are read as they are.
pub proof fn law_an_unknown_form_is_refused(media_type: Seq<char>)
    ensures
        form_of(media_type + "+zstd-chunked"@) == Some(PayloadForm::Chunked),
        form_of(media_type) is None <==> "application/vnd.orc8r."@.is_prefix_of(media_type)
            && !"+zstd-chunked"@.is_suffix_of(media_type),
        form_of(media_type) == Some(PayloadForm::Chunked) <==> "+zstd-chunked"@.is_suffix_of(
            media_type,
        ),
{
    reveal_strlit("+zstd-chunked");
    let framed = media_type + "+zstd-chunked"@;
    assert(framed.skip(framed.len() - "+zstd-chunked"@.len()) =~= "+zstd-chunked"@);
}

/// Only the segments that stand for the directory itself are left out of a title.
pub proof fn law_only_dots_are_left_out(parts: Seq<Seq<char>>)
    ensures
        without_dots(parts) == parts.filter(|part: Seq<char>| part != "."@),
    decreases parts.len(),
{
    reveal(Seq::filter);
    if parts.len() > 0 {
        law_only_dots_are_left_out(parts.drop_last());
    }
}

} // verus!
