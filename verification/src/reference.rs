//! References to apps: registry, repository and tag.

use crate::error::{is_usage, CliError};
use crate::text::{
    alnum, back_white, cat2, cat3, cat4, cat5, chars_of, contains_char, debug_quoted, find,
    find_text, is_alnum, is_white, lemma_find_contains, lemma_find_from, lemma_rfind_below, owned,
    position, quoted, rfind, rposition, same, skip_white, string_of, strip_end, stripped_end,
    text_position, trim, trimmed,
};
use vstd::prelude::*;

verus! {

/// The registry that a bare app reference resolves against.
pub const BUILTIN_DEFAULT_PREFIX: &'static str = "orc8r.com";

/// A registry, and the namespace that relative references go below.
#[derive(Debug, PartialEq, Eq)]
pub struct ResolvedPrefix {
    pub registry: String,
    pub namespace: String,
    pub value: String,
}

/// A reference with every part spelled out.
#[derive(Debug, PartialEq, Eq)]
pub struct ResolvedReference {
    pub registry: String,
    pub repository: String,
    pub tag: String,
    pub full: String,
}

/// Whether a path has no empty segment.
pub open spec fn valid_path(value: Seq<char>) -> bool {
    &&& value.len() > 0
    &&& find_text(value, "//"@) == -1
    &&& value.first() != '/'
    &&& value.last() != '/'
}

/// The message about a path that is not valid.
pub open spec fn invalid_path(label: Seq<char>, value: Seq<char>) -> Seq<char> {
    "invalid "@ + label + " "@ + debug_quoted(value)
}

fn validate_path(value: &[char], label: &str) -> (r: Result<(), CliError>)
    ensures
        match r {
            Ok(()) => valid_path(value@),
            Err(e) => !valid_path(value@) && is_usage(e, invalid_path(label@, value@)),
        },
{
    if value.len() == 0 || text_position(value, "//").is_some() || value[0] == '/'
        || value[value.len() - 1] == '/' {
        return Err(
            CliError::Usage(
                cat4("invalid ", label, " ", quoted(string_of(value).as_str()).as_str()),
            ),
        );
    }
    Ok(())
}

/// The two sides of the first slash; without one, everything and nothing.
pub open spec fn at_first_slash(s: Seq<char>) -> (Seq<char>, Seq<char>) {
    let i = find(s, '/');
    if 0 <= i < s.len() {
        (s.take(i), s.skip(i + 1))
    } else {
        (s, Seq::empty())
    }
}

fn cut_at_slash(s: &[char]) -> (r: (Vec<char>, Vec<char>))
    ensures
        (r.0@, r.1@) == at_first_slash(s@),
{
    match position(s, '/') {
        Some(i) => {
            let head = crate::text::slice_of(s, 0, i);
            let tail = crate::text::slice_of(s, i + 1, s.len());
            assert(head@ =~= s@.take(i as int));
            assert(tail@ =~= s@.skip(i + 1));
            (head, tail)
        },
        None => {
            let head = crate::text::slice_of(s, 0, s.len());
            assert(head@ =~= s@);
            (head, Vec::new())
        },
    }
}

/// The registry and the namespace of a prefix, or what is wrong with it.
pub open spec fn prefix_parts(prefix: Seq<char>) -> Result<(Seq<char>, Seq<char>), Seq<char>> {
    let (registry, namespace) = at_first_slash(strip_end(trim(prefix), '/'));
    if !valid_path(registry) {
        Err(invalid_path("registry"@, registry))
    } else if namespace.len() > 0 && !valid_path(namespace) {
        Err(invalid_path("namespace"@, namespace))
    } else {
        Ok((registry, namespace))
    }
}

fn split_prefix(prefix: &[char]) -> (r: Result<(Vec<char>, Vec<char>), CliError>)
    ensures
        match prefix_parts(prefix@) {
            Ok((registry, namespace)) => r matches Ok((a, b)) && a@ == registry && b@ == namespace,
            Err(m) => r matches Err(e) && is_usage(e, m),
        },
{
    let (registry, namespace) = cut_at_slash(&stripped_end(&trimmed(prefix), '/'));
    match validate_path(&registry, "registry") {
        Err(e) => {
            return Err(e);
        },
        Ok(()) => {},
    }
    if namespace.len() > 0 {
        match validate_path(&namespace, "namespace") {
            Err(e) => {
                return Err(e);
            },
            Ok(()) => {},
        }
    }
    Ok((registry, namespace))
}

/// The prefix that is meant: the one given, else the override, else the built-in one.
pub open spec fn chosen_prefix(input: Option<&str>, override_prefix: Option<&str>) -> Seq<char> {
    match input {
        Some(s) => s@,
        None => match override_prefix {
            Some(s) => s@,
            None => BUILTIN_DEFAULT_PREFIX@,
        },
    }
}

/// Resolves a registry prefix.
pub fn resolve_prefix(input: Option<&str>, override_prefix: Option<&str>) -> (r: Result<
    ResolvedPrefix,
    CliError,
>)
    ensures
        ({
            let raw = trim(chosen_prefix(input, override_prefix));
            if raw.len() == 0 {
                r matches Err(e) && is_usage(e, "registry prefix cannot be empty"@)
            } else {
                match prefix_parts(raw) {
                    Ok((registry, namespace)) => r matches Ok(p) && p.registry@ == registry
                        && p.namespace@ == namespace && p.value@ == strip_end(raw, '/'),
                    Err(m) => r matches Err(e) && is_usage(e, m),
                }
            }
        }),
{
    let chosen: &str = match input {
        Some(s) => s,
        None => match override_prefix {
            Some(s) => s,
            None => BUILTIN_DEFAULT_PREFIX,
        },
    };
    let raw = trimmed(&chars_of(chosen));
    if raw.len() == 0 {
        return Err(CliError::Usage(owned("registry prefix cannot be empty")));
    }
    match split_prefix(&raw) {
        Err(e) => Err(e),
        Ok((registry, namespace)) => Ok(
            ResolvedPrefix {
                registry: string_of(&registry),
                namespace: string_of(&namespace),
                value: string_of(&stripped_end(&raw, '/')),
            },
        ),
    }
}

/// The path and the tag of a reference: the tag follows a colon behind the last slash.
pub open spec fn path_and_tag(input: Seq<char>) -> (Seq<char>, Option<Seq<char>>) {
    let colon = rfind(input, ':');
    if colon >= 0 && colon > rfind(input, '/') {
        (input.take(colon), Some(input.skip(colon + 1)))
    } else {
        (input, None)
    }
}

fn split_tag(input: &[char]) -> (r: (Vec<char>, Option<Vec<char>>))
    ensures
        r.0@ == path_and_tag(input@).0,
        match r.1 {
            Some(tag) => path_and_tag(input@).1 == Some(tag@),
            None => path_and_tag(input@).1 is None,
        },
{
    let last_slash = rposition(input, '/');
    match rposition(input, ':') {
        Some(colon) => {
            let behind: bool = match last_slash {
                Some(slash) => colon > slash,
                None => true,
            };
            if behind {
                let path = crate::text::slice_of(input, 0, colon);
                let tag = crate::text::slice_of(input, colon + 1, input.len());
                assert(path@ =~= input@.take(colon as int));
                assert(tag@ =~= input@.skip(colon + 1));
                return (path, Some(tag));
            }
        },
        None => {},
    }
    let path = crate::text::slice_of(input, 0, input.len());
    assert(path@ =~= input@);
    (path, None)
}

/// Whether a path begins with a registry: with a host name that has a dot or a port, or with
/// `localhost`.
pub open spec fn names_registry(path: Seq<char>) -> bool {
    let first = at_first_slash(path).0;
    path.contains('/') && (first == "localhost"@ || first.contains('.') || first.contains(':'))
}

fn has_explicit_registry(path: &[char]) -> (r: bool)
    ensures
        r == names_registry(path@),
{
    if !contains_char(path, '/') {
        return false;
    }
    let (first, _) = cut_at_slash(path);
    same(string_of(&first).as_str(), "localhost") || contains_char(&first, '.') || contains_char(
        &first,
        ':',
    )
}

/// A reference as it is written: `registry/repository:tag`.
pub open spec fn written(registry: Seq<char>, repository: Seq<char>, tag: Seq<char>) -> Seq<char> {
    registry + "/"@ + repository + ":"@ + tag
}

/// The one place where the form `registry/repository:tag` is spelled out.
fn format_reference(registry: &str, repository: &str, tag: &str) -> (r: String)
    ensures
        r@ == written(registry@, repository@, tag@),
{
    cat5(registry, "/", repository, ":", tag)
}

/// A reference in its parts.
pub struct ReferenceParts {
    pub registry: Seq<char>,
    pub repository: Seq<char>,
    pub tag: Seq<char>,
}

/// What a reference resolves to, or what is wrong with it.
pub open spec fn reference_parts(input: Seq<char>, prefix: Seq<char>) -> Result<
    ReferenceParts,
    Seq<char>,
> {
    let text = trim(input);
    let (path, given) = path_and_tag(text);
    let tag = match given {
        Some(tag) => tag,
        None => "default"@,
    };
    if text.len() == 0 {
        Err("app reference cannot be empty"@)
    } else if path.len() == 0 || tag.len() == 0 {
        Err("invalid app reference "@ + debug_quoted(text))
    } else if names_registry(path) {
        let (registry, repository) = at_first_slash(path);
        checked_parts(registry, repository, tag)
    } else {
        match prefix_parts(prefix) {
            Err(m) => Err(m),
            Ok((registry, namespace)) => checked_parts(
                registry,
                if namespace.len() == 0 {
                    path
                } else {
                    namespace + "/"@ + path
                },
                tag,
            ),
        }
    }
}

/// The parts of a reference, once the registry and the repository are known to be valid.
pub open spec fn checked_parts(
    registry: Seq<char>,
    repository: Seq<char>,
    tag: Seq<char>,
) -> Result<ReferenceParts, Seq<char>> {
    if !valid_path(registry) {
        Err(invalid_path("registry"@, registry))
    } else if !valid_path(repository) {
        Err(invalid_path("repository"@, repository))
    } else {
        Ok(ReferenceParts { registry, repository, tag })
    }
}

/// Whether a resolved reference is made of these parts.
pub open spec fn has_parts(r: ResolvedReference, parts: ReferenceParts) -> bool {
    &&& r.registry@ == parts.registry
    &&& r.repository@ == parts.repository
    &&& r.tag@ == parts.tag
    &&& r.full@ == written(parts.registry, parts.repository, parts.tag)
}

/// Resolves an app reference. One that names no registry goes below the override, or else below
/// the default prefix.
pub fn resolve_app_reference(
    input: &str,
    default_prefix: &str,
    override_prefix: Option<&str>,
) -> (r: Result<ResolvedReference, CliError>)
    ensures
        match reference_parts(
            input@,
            match override_prefix {
                Some(prefix) => prefix@,
                None => default_prefix@,
            },
        ) {
            Ok(parts) => r matches Ok(reference) && has_parts(reference, parts),
            Err(m) => r matches Err(e) && is_usage(e, m),
        },
{
    let text = trimmed(&chars_of(input));
    if text.len() == 0 {
        return Err(CliError::Usage(owned("app reference cannot be empty")));
    }
    let (path, given) = split_tag(&text);
    let tag: String = match given {
        Some(tag) => string_of(&tag),
        None => owned("default"),
    };
    if path.len() == 0 || tag.as_str().is_empty() {
        return Err(
            CliError::Usage(
                cat2("invalid app reference ", quoted(string_of(&text).as_str()).as_str()),
            ),
        );
    }
    let (registry, repository): (Vec<char>, Vec<char>) = if has_explicit_registry(&path) {
        cut_at_slash(&path)
    } else {
        let prefix: &str = match override_prefix {
            Some(prefix) => prefix,
            None => default_prefix,
        };
        match split_prefix(&chars_of(prefix)) {
            Err(e) => {
                return Err(e);
            },
            Ok((registry, namespace)) => {
                if namespace.len() == 0 {
                    (registry, path)
                } else {
                    let whole = cat3(
                        string_of(&namespace).as_str(),
                        "/",
                        string_of(&path).as_str(),
                    );
                    (registry, chars_of(whole.as_str()))
                }
            },
        }
    };
    match validate_path(&registry, "registry") {
        Err(e) => {
            return Err(e);
        },
        Ok(()) => {},
    }
    match validate_path(&repository, "repository") {
        Err(e) => {
            return Err(e);
        },
        Ok(()) => {},
    }
    let registry = string_of(&registry);
    let repository = string_of(&repository);
    let full = format_reference(registry.as_str(), repository.as_str(), tag.as_str());
    Ok(ResolvedReference { registry, repository, tag, full })
}

impl ResolvedReference {
    /// This reference with another tag in place of its own.
    pub fn with_tag(&self, tag: &str) -> (r: String)
        ensures
            r@ == written(self.registry@, self.repository@, tag@),
    {
        format_reference(self.registry.as_str(), self.repository.as_str(), tag)
    }
}

/// Respelling a resolved reference with its own tag gives it back.
pub proof fn law_own_tag_gives_the_reference_back(r: ResolvedReference, parts: ReferenceParts)
    requires
        has_parts(r, parts),
    ensures
        written(r.registry@, r.repository@, r.tag@) == r.full@,
{
}

/// A reference that names its registry means the same whatever the prefix is.
pub proof fn law_a_qualified_reference_ignores_the_prefix(
    input: Seq<char>,
    prefix: Seq<char>,
    other: Seq<char>,
)
    requires
        names_registry(path_and_tag(trim(input)).0),
    ensures
        reference_parts(input, prefix) == reference_parts(input, other),
{
}

/// Whether a registry is spelled so that it is told from a namespace.
pub open spec fn is_told(registry: Seq<char>) -> bool {
    registry == "localhost"@ || registry.contains('.') || registry.contains(':')
}

proof fn lemma_before_slash(s: Seq<char>)
    ensures
        !at_first_slash(s).0.contains('/'),
        at_first_slash(s).0.len() > 0 ==> at_first_slash(s).0[0] == s[0],
{
    lemma_find_contains(s, '/');
    lemma_find_from(s, '/', 0);
}

proof fn lemma_skip_white(s: Seq<char>, i: int)
    requires
        0 <= i <= s.len(),
    ensures
        i <= skip_white(s, i) <= s.len(),
        skip_white(s, i) < s.len() ==> !is_white(s[skip_white(s, i)]),
    decreases s.len() - i,
{
    if i < s.len() && is_white(s[i]) {
        lemma_skip_white(s, i + 1);
    }
}

proof fn lemma_back_white(s: Seq<char>, i: int)
    requires
        0 <= i <= s.len(),
    ensures
        0 <= back_white(s, i) <= i,
        back_white(s, i) > 0 ==> !is_white(s[back_white(s, i) - 1]),
    decreases i,
{
    if i > 0 && is_white(s[i - 1]) {
        lemma_back_white(s, i - 1);
    }
}

proof fn lemma_trim_ends(s: Seq<char>)
    ensures
        trim(s).len() > 0 ==> !is_white(trim(s)[0]) && !is_white(trim(s).last()),
{
    lemma_skip_white(s, 0);
    lemma_back_white(s, s.len() as int);
}

proof fn lemma_trim_keeps(s: Seq<char>)
    requires
        s.len() > 0,
        !is_white(s[0]),
        !is_white(s.last()),
    ensures
        trim(s) == s,
{
    assert(s.subrange(0, s.len() as int) =~= s);
}

proof fn lemma_strip_end_starts(s: Seq<char>, c: char)
    ensures
        strip_end(s, c).len() <= s.len(),
        strip_end(s, c).len() > 0 ==> strip_end(s, c)[0] == s[0],
    decreases s.len(),
{
    if s.len() > 0 && s.last() == c {
        lemma_strip_end_starts(s.drop_last(), c);
    }
}

proof fn lemma_find_is(s: Seq<char>, c: char, i: int)
    requires
        0 <= i < s.len(),
        s[i] == c,
        forall|j: int| 0 <= j < i ==> s[j] != c,
    ensures
        find(s, c) == i,
{
    lemma_find_from(s, c, 0);
}

proof fn lemma_rfind_is(s: Seq<char>, c: char, i: int)
    requires
        0 <= i < s.len(),
        s[i] == c,
        forall|j: int| i < j < s.len() ==> s[j] != c,
    ensures
        rfind(s, c) == i,
{
    lemma_rfind_below(s, c, s.len() as int);
}

proof fn lemma_own_parts(parts: ReferenceParts)
    requires
        valid_path(parts.registry),
        valid_path(parts.repository),
        is_told(parts.registry),
        !parts.registry.contains('/'),
        !is_white(parts.registry[0]),
        parts.tag.len() > 0,
        !parts.tag.contains('/'),
        !parts.tag.contains(':'),
        !is_white(parts.tag.last()),
    ensures
        forall|prefix: Seq<char>|
            #[trigger] reference_parts(
                written(parts.registry, parts.repository, parts.tag),
                prefix,
            ) == Ok::<ReferenceParts, Seq<char>>(parts),
{
    reveal_strlit("/");
    reveal_strlit(":");
    let full = written(parts.registry, parts.repository, parts.tag);
    let slash = parts.registry.len() as int;
    let colon = slash + 1 + parts.repository.len();
    assert(full[0] == parts.registry[0]);
    assert(full.last() == parts.tag.last());
    lemma_trim_keeps(full);
    assert(full[colon] == ':');
    assert(full.skip(colon + 1) =~= parts.tag);
    assert forall|j: int| colon < j < full.len() implies full[j] != ':' && full[j] != '/' by {
        assert(full[j] == parts.tag[j - colon - 1]);
        assert(parts.tag.contains(full[j]));
    }
    lemma_rfind_is(full, ':', colon);
    lemma_rfind_below(full, '/', full.len() as int);
    let path = full.take(colon);
    assert(path[slash] == '/');
    assert(path.contains('/'));
    assert forall|j: int| 0 <= j < slash implies path[j] != '/' by {
        assert(path[j] == parts.registry[j]);
        assert(parts.registry.contains(path[j]));
    }
    lemma_find_is(path, '/', slash);
    assert(path.take(slash) =~= parts.registry);
    assert(path.skip(slash + 1) =~= parts.repository);
}

/// A resolved reference resolves to itself, whatever the prefix is, where its registry is told
/// from a namespace.
pub proof fn law_a_resolved_reference_resolves_to_itself(
    input: Seq<char>,
    prefix: Seq<char>,
    parts: ReferenceParts,
    other: Seq<char>,
)
    requires
        reference_parts(input, prefix) == Ok::<ReferenceParts, Seq<char>>(parts),
        is_told(parts.registry),
    ensures
        reference_parts(written(parts.registry, parts.repository, parts.tag), other) == Ok::<
            ReferenceParts,
            Seq<char>,
        >(parts),
{
    let text = trim(input);
    let (path, given) = path_and_tag(text);
    lemma_trim_ends(input);
    lemma_rfind_below(text, ':', text.len() as int);
    lemma_rfind_below(text, '/', text.len() as int);
    assert(path[0] == text[0]);
    match given {
        Some(tag) => {
            let colon = rfind(text, ':');
            assert(tag.last() == text.last());
            assert forall|j: int| 0 <= j < tag.len() implies tag[j] != ':' && tag[j] != '/' by {
                assert(tag[j] == text[j + colon + 1]);
            }
        },
        None => {
            reveal_strlit("default");
            assert(!parts.tag.contains('/') && !parts.tag.contains(':'));
        },
    }
    lemma_before_slash(path);
    lemma_trim_ends(prefix);
    let base = strip_end(trim(prefix), '/');
    lemma_strip_end_starts(trim(prefix), '/');
    lemma_before_slash(base);
    lemma_own_parts(parts);
}

/// Whether a character may stand in a tag behind its first one.
pub open spec fn is_tag_char(c: char) -> bool {
    is_alnum(c) || c == '_' || c == '.' || c == '-'
}

/// Whether a text is a tag: a letter, digit or underscore, and then up to 127 letters, digits,
/// underscores, dots and hyphens.
pub open spec fn valid_tag(tag: Seq<char>) -> bool {
    &&& 0 < tag.len() <= 128
    &&& is_alnum(tag[0]) || tag[0] == '_'
    &&& forall|i: int| 1 <= i < tag.len() ==> is_tag_char(#[trigger] tag[i])
}

/// Whether a text is a legal tag.
pub fn is_valid_tag(tag: &str) -> (r: bool)
    ensures
        r == valid_tag(tag@),
{
    let chars = chars_of(tag);
    if chars.len() == 0 || chars.len() > 128 {
        return false;
    }
    if !alnum(chars[0]) && chars[0] != '_' {
        return false;
    }
    for i in 1..chars.len()
        invariant
            chars@ == tag@,
            0 < chars@.len() == chars.len(),
            forall|k: int| 1 <= k < i ==> is_tag_char(#[trigger] tag@[k]),
    {
        let c = chars[i];
        if !alnum(c) && c != '_' && c != '.' && c != '-' {
            assert(!is_tag_char(tag@[i as int]));
            return false;
        }
    }
    true
}

/// A legal tag can be used in a reference: `name:tag` is read as that name with that tag.
pub proof fn law_a_legal_tag_is_read_as_written(name: Seq<char>, tag: Seq<char>)
    requires
        valid_tag(tag),
        name.len() > 0,
        !is_white(name[0]),
    ensures
        path_and_tag(trim(name + ":"@ + tag)) == (name, Some(tag)),
{
    reveal_strlit(":");
    let text = name + ":"@ + tag;
    let colon = name.len() as int;
    assert(text[0] == name[0]);
    assert(text[colon] == ':');
    assert forall|j: int| colon < j < text.len() implies text[j] != ':' && text[j] != '/'
        && !is_white(text[j]) by {
        assert(text[j] == tag[j - colon - 1]);
    }
    lemma_trim_keeps(text);
    lemma_rfind_is(text, ':', colon);
    lemma_rfind_below(text, '/', text.len() as int);
    assert(text.take(colon) =~= name);
    assert(text.skip(colon + 1) =~= tag);
}

/// A path has no empty segment: two paths with a slash between them are one, and nothing that is
/// empty on either side is.
pub proof fn law_a_path_is_valid_segment_by_segment(a: Seq<char>, b: Seq<char>)
    ensures
        valid_path(a + seq!['/'] + b) <==> valid_path(a) && valid_path(b),
        !a.contains('/') ==> (valid_path(a) <==> a.len() > 0),
        !valid_path(Seq::empty()),
{
    reveal_strlit("//");
    let whole = a + seq!['/'] + b;
    let n = a.len() as int;
    lemma_doubled(whole);
    lemma_doubled(a);
    lemma_doubled(b);
    if valid_path(whole) {
        if a.len() == 0 {
            assert(whole[0] == '/');
        }
        if b.len() == 0 {
            assert(whole.last() == '/');
        }
        assert forall|k: int| 0 <= k < a.len() - 1 implies !(#[trigger] a[k] == '/' && a[k + 1]
            == '/') by {
            assert(whole[k] == a[k] && whole[k + 1] == a[k + 1]);
        }
        assert forall|k: int| 0 <= k < b.len() - 1 implies !(#[trigger] b[k] == '/' && b[k + 1]
            == '/') by {
            assert(whole[n + 1 + k] == b[k] && whole[n + 1 + (k + 1)] == b[k + 1]);
        }
        assert(whole[0] == a[0]);
        assert(whole.last() == b.last());
        assert(whole[n] == '/');
        assert(whole[n - 1] == a.last());
        assert(whole[n + 1] == b[0]);
    }
    if valid_path(a) && valid_path(b) {
        assert(whole[0] == a[0]);
        assert(whole.last() == b.last());
        assert forall|k: int| 0 <= k < whole.len() - 1 implies !(#[trigger] whole[k] == '/'
            && whole[k + 1] == '/') by {
            if k < n - 1 {
                assert(whole[k] == a[k] && whole[k + 1] == a[k + 1]);
            } else if k == n - 1 {
                assert(whole[k] == a.last());
            } else if k == n {
                assert(whole[k + 1] == b[0]);
            } else {
                assert(whole[k] == b[k - n - 1] && whole[k + 1] == b[k - n]);
            }
        }
    }
    if !a.contains('/') && a.len() > 0 {
        assert(a[0] != '/' && a[n - 1] != '/');
        assert forall|k: int| 0 <= k < a.len() - 1 implies !(#[trigger] a[k] == '/' && a[k + 1]
            == '/') by {
            assert(a.contains(a[k]));
        }
    }
}

proof fn lemma_doubled(s: Seq<char>)
    ensures
        find_text(s, "//"@) == -1 <==> forall|k: int|
            0 <= k < s.len() - 1 ==> !(#[trigger] s[k] == '/' && s[k + 1] == '/'),
{
    reveal_strlit("//");
    if exists|k: int| 0 <= k < s.len() - 1 && #[trigger] s[k] == '/' && s[k + 1] == '/' {
        let k = choose|k: int| 0 <= k < s.len() - 1 && #[trigger] s[k] == '/' && s[k + 1] == '/';
        assert(s.subrange(k, k + 2) =~= "//"@);
        crate::text::law_the_nearest_text_is_found(s, "//"@, k);
    } else {
        assert forall|j: int| !crate::text::stands_at(s, "//"@, j) by {
            if crate::text::stands_at(s, "//"@, j) {
                assert(s.subrange(j, j + 2)[0] == s[j] && s.subrange(j, j + 2)[1] == s[j + 1]);
            }
        }
        crate::text::law_the_nearest_text_is_found(s, "//"@, 0);
    }
}

/// A prefix is the registry before its first slash and the namespace behind it.
pub proof fn law_a_prefix_is_a_registry_and_a_namespace(registry: Seq<char>, namespace: Seq<char>)
    requires
        registry.len() > 0,
        !registry.contains('/'),
        !is_white(registry[0]),
        !is_white(registry.last()),
        valid_path(namespace),
        !is_white(namespace.last()),
    ensures
        prefix_parts(registry) == Ok::<(Seq<char>, Seq<char>), Seq<char>>(
            (registry, Seq::empty()),
        ),
        prefix_parts(registry + seq!['/'] + namespace) == Ok::<(Seq<char>, Seq<char>), Seq<char>>(
            (registry, namespace),
        ),
{
    let whole = registry + seq!['/'] + namespace;
    law_a_path_is_valid_segment_by_segment(registry, namespace);
    lemma_trim_keeps(registry);
    assert(whole[0] == registry[0]);
    assert(whole.last() == namespace.last());
    lemma_trim_keeps(whole);
    assert(registry.last() != '/') by {
        assert(registry.contains(registry[registry.len() - 1]));
    }
    assert(strip_end(registry, '/') == registry);
    assert(strip_end(whole, '/') == whole);
    crate::text::law_the_nearest_is_found(registry, '/', namespace);
    let n = registry.len() as int;
    assert(whole.take(n) =~= registry);
    assert(whole.skip(n + 1) =~= namespace);
}

/// An app that is named alone is the one of that name below the prefix, with the tag that is given
/// or, with none, the default one.
pub proof fn law_a_bare_name_resolves_below_the_prefix(
    registry: Seq<char>,
    namespace: Seq<char>,
    name: Seq<char>,
    tag: Seq<char>,
)
    requires
        registry.len() > 0,
        !registry.contains('/'),
        !is_white(registry[0]),
        !is_white(registry.last()),
        valid_path(namespace),
        !is_white(namespace.last()),
        name.len() > 0,
        !name.contains('/'),
        !name.contains(':'),
        !is_white(name[0]),
        !is_white(name.last()),
        tag.len() > 0,
        !tag.contains('/'),
        !tag.contains(':'),
        !is_white(tag.last()),
    ensures
        ({
            let below = registry + seq!['/'] + namespace;
            let path = namespace + seq!['/'] + name;
            &&& reference_parts(name, below) == Ok::<ReferenceParts, Seq<char>>(
                ReferenceParts { registry, repository: path, tag: "default"@ },
            )
            &&& reference_parts(name + seq![':'] + tag, below) == Ok::<ReferenceParts, Seq<char>>(
                ReferenceParts { registry, repository: path, tag },
            )
            &&& reference_parts(name, registry) == Ok::<ReferenceParts, Seq<char>>(
                ReferenceParts { registry, repository: name, tag: "default"@ },
            )
        }),
{
    reveal_strlit("/");
    reveal_strlit("default");
    let below = registry + seq!['/'] + namespace;
    let path = namespace + seq!['/'] + name;
    let tagged = name + seq![':'] + tag;
    law_a_prefix_is_a_registry_and_a_namespace(registry, namespace);
    law_a_path_is_valid_segment_by_segment(namespace, name);
    law_a_path_is_valid_segment_by_segment(name, name);
    law_a_path_is_valid_segment_by_segment(registry, namespace);
    assert(namespace + "/"@ + name =~= path);
    lemma_trim_keeps(name);
    assert(tagged[0] == name[0]);
    assert(tagged.last() == tag.last());
    lemma_trim_keeps(tagged);
    crate::text::law_the_nearest_is_found(name, ':', tag);
    crate::text::law_the_nearest_is_found(name, '/', tag);
    assert(!tagged.contains('/')) by {
        if tagged.contains('/') {
            let k = tagged.index_of('/');
            assert(tagged[k] == '/');
            if k < name.len() {
                assert(name[k] == '/');
            } else if k > name.len() {
                assert(tag[k - name.len() - 1] == '/');
            }
        }
    }
    crate::text::law_the_nearest_is_found(tagged, '/', tag);
    assert(tagged.take(name.len() as int) =~= name);
    assert(tagged.skip(name.len() as int + 1) =~= tag);
    assert(!names_registry(name));
}

/// A prefix that is given counts before one that is set, and that before the one built in.
pub proof fn law_the_given_prefix_counts_first(input: Option<&str>, override_prefix: Option<&str>)
    ensures
        input matches Some(s) ==> chosen_prefix(input, override_prefix) == s@,
        input is None ==> (override_prefix matches Some(s) ==> chosen_prefix(
            input,
            override_prefix,
        ) == s@),
        input is None && override_prefix is None ==> chosen_prefix(input, override_prefix)
            == "orc8r.com"@,
{
}

/// A tag is one to 128 letters, digits, underscores, dots and hyphens, and begins with none of the
/// last two.
pub proof fn law_what_a_tag_may_be(tag: Seq<char>)
    ensures
        valid_tag(tag) <==> {
            &&& 1 <= tag.len() <= 128
            &&& tag[0] != '.' && tag[0] != '-'
            &&& forall|i: int|
                0 <= i < tag.len() ==> {
                    ||| 'a' <= #[trigger] tag[i] <= 'z'
                    ||| 'A' <= tag[i] <= 'Z'
                    ||| '0' <= tag[i] <= '9'
                    ||| tag[i] == '_'
                    ||| tag[i] == '.'
                    ||| tag[i] == '-'
                }
        },
{
    if valid_tag(tag) {
        assert forall|i: int| 0 <= i < tag.len() implies {
            ||| 'a' <= #[trigger] tag[i] <= 'z'
            ||| 'A' <= tag[i] <= 'Z'
            ||| '0' <= tag[i] <= '9'
            ||| tag[i] == '_'
            ||| tag[i] == '.'
            ||| tag[i] == '-'
        } by {
            if i > 0 {
                assert(is_tag_char(tag[i]));
            }
        }
    }
}

/// A reference that names its registry is taken as it is written: what precedes the first slash is
/// a registry if it has a dot or a colon or is this machine.
pub proof fn law_a_full_reference_is_taken_as_written(
    registry: Seq<char>,
    repository: Seq<char>,
    tag: Seq<char>,
    prefix: Seq<char>,
)
    requires
        registry.len() > 0,
        registry == "localhost"@ || registry.contains('.') || registry.contains(':'),
        !registry.contains('/'),
        !is_white(registry[0]),
        valid_path(repository),
        tag.len() > 0,
        !tag.contains('/'),
        !tag.contains(':'),
        !is_white(tag.last()),
    ensures
        reference_parts(registry + seq!['/'] + repository + seq![':'] + tag, prefix) == Ok::<
            ReferenceParts,
            Seq<char>,
        >(ReferenceParts { registry, repository, tag }),
{
    reveal_strlit("/");
    reveal_strlit(":");
    let parts = ReferenceParts { registry, repository, tag };
    law_a_path_is_valid_segment_by_segment(registry, repository);
    lemma_own_parts(parts);
    assert(written(registry, repository, tag) =~= registry + seq!['/'] + repository + seq![':']
        + tag);
    assert(reference_parts(written(registry, repository, tag), prefix) == Ok::<
        ReferenceParts,
        Seq<char>,
    >(parts));
}

/// A path whose first segment is no registry goes below the prefix as it is.
pub proof fn law_a_path_without_a_registry_goes_below_the_prefix(
    registry: Seq<char>,
    namespace: Seq<char>,
    first: Seq<char>,
    rest: Seq<char>,
)
    requires
        registry.len() > 0,
        !registry.contains('/'),
        !is_white(registry[0]),
        !is_white(registry.last()),
        valid_path(namespace),
        !is_white(namespace.last()),
        first.len() > 0,
        !first.contains('/'),
        !first.contains('.'),
        !first.contains(':'),
        first != "localhost"@,
        !is_white(first[0]),
        valid_path(rest),
        !rest.contains(':'),
        !is_white(rest.last()),
    ensures
        ({
            let path = first + seq!['/'] + rest;
            reference_parts(path, registry + seq!['/'] + namespace) == Ok::<
                ReferenceParts,
                Seq<char>,
            >(
                ReferenceParts {
                    registry,
                    repository: namespace + seq!['/'] + path,
                    tag: "default"@,
                },
            )
        }),
{
    reveal_strlit("/");
    reveal_strlit("default");
    let below = registry + seq!['/'] + namespace;
    let path = first + seq!['/'] + rest;
    law_a_prefix_is_a_registry_and_a_namespace(registry, namespace);
    law_a_path_is_valid_segment_by_segment(first, rest);
    law_a_path_is_valid_segment_by_segment(namespace, path);
    law_a_path_is_valid_segment_by_segment(registry, namespace);
    assert(path[0] == first[0]);
    assert(path.last() == rest.last());
    lemma_trim_keeps(path);
    assert(!path.contains(':')) by {
        if path.contains(':') {
            let k = path.index_of(':');
            assert(path[k] == ':');
            if k < first.len() {
                assert(first[k] == ':');
            } else if k > first.len() {
                assert(rest[k - first.len() - 1] == ':');
            }
        }
    }
    crate::text::law_the_nearest_is_found(path, ':', path);
    crate::text::law_the_nearest_is_found(first, '/', rest);
    assert(path.take(first.len() as int) =~= first);
    assert(!names_registry(path));
    assert(namespace + "/"@ + path =~= namespace + seq!['/'] + path);
}

} // verus!
