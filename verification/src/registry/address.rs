//! Addresses of registry resources, and the scopes that requests to them need.

use crate::text::{
    cat2, cat3, cat4, char_views, chars_of, contains_char, decimal, decimal_of, ends_with, find,
    find_from, find_text, owned, parse_number, parsed_u64, pieces, position, position_from, rfind,
    rfind_text, rposition, same, slice_of, slice_string, split, stands_at, starts_with, string_of,
    strip_end, stripped_end, text_position, text_rposition, trim, trimmed, views,
};
use vstd::prelude::*;

verus! {

/// What a request does.
#[derive(Debug, Clone, Copy, PartialEq, Eq, Structural)]
pub enum Method {
    Get,
    Head,
    Post,
    Put,
    Patch,
    Delete,
}

/// Whether a request only reads.
pub open spec fn reads_only(method: Method) -> bool {
    method == Method::Get || method == Method::Head
}

/// The path of an address: what follows its host, or all of it where it names none.
pub open spec fn path_of(url: Seq<char>) -> Seq<char> {
    let scheme = find_text(url, "://"@);
    if scheme < 0 {
        url
    } else {
        let slash = find_from(url, '/', scheme + 3);
        if slash < url.len() {
            url.skip(slash)
        } else {
            url
        }
    }
}

/// The path of an address.
pub fn request_path(url: &str) -> (r: String)
    ensures
        r@ == path_of(url@),
{
    let chars = chars_of(url);
    proof {
        reveal_strlit("://");
    }
    match text_position(&chars, "://") {
        None => owned(url),
        Some(scheme) => match position_from(&chars, '/', scheme + 3) {
            None => owned(url),
            Some(slash) => {
                proof {
                    crate::text::lemma_find_from(url@, '/', scheme + 3);
                }
                let r = slice_string(&chars, slash, chars.len());
                assert(r@ =~= url@.skip(slash as int));
                r
            },
        },
    }
}

/// A path without its query.
pub open spec fn without_query(path: Seq<char>) -> Seq<char> {
    path.take(find(path, '?'))
}

/// The greatest of three indices.
pub open spec fn greatest(a: int, b: int, c: int) -> int {
    let m = if a > b {
        a
    } else {
        b
    };
    if m > c {
        m
    } else {
        c
    }
}

/// Where the repository ends in a path below the interface's root, or -1.
pub open spec fn repository_end(rest: Seq<char>) -> int {
    greatest(
        rfind_text(rest, "/manifests/"@),
        rfind_text(rest, "/blobs/"@),
        rfind_text(rest, "/tags/"@),
    )
}

/// A scope of one action on a repository.
pub open spec fn repository_scope(repository: Seq<char>, action: Seq<char>) -> Seq<char> {
    "repository:"@ + repository + ":"@ + action
}

/// The scope of one action that a request needs.
pub open spec fn needed_scope(method: Method, path: Seq<char>) -> Option<Seq<char>> {
    let bare = without_query(path);
    if !"/v2/"@.is_prefix_of(bare) {
        None
    } else {
        let rest = bare.skip(4);
        if rest == "_catalog"@ {
            Some("registry:catalog:*"@)
        } else if repository_end(rest) <= 0 {
            None
        } else {
            Some(
                repository_scope(
                    rest.take(repository_end(rest)),
                    if reads_only(method) {
                        "pull"@
                    } else {
                        "push"@
                    },
                ),
            )
        }
    }
}

fn last_place(rest: &[char], keyword: &str) -> (r: usize)
    ensures
        rfind_text(rest@, keyword@) >= 0 ==> r == rfind_text(rest@, keyword@) && r <= rest@.len(),
        rfind_text(rest@, keyword@) < 0 ==> r == 0,
        rfind_text(rest@, keyword@) >= -1,
{
    match text_rposition(rest, keyword) {
        Some(i) => i,
        None => 0,
    }
}

/// The scope that a request needs, which is the key that its token is looked up by.
pub fn scope_hint(method: Method, path: &str) -> (r: Option<String>)
    ensures
        match r {
            Some(scope) => needed_scope(method, path@) == Some(scope@),
            None => needed_scope(method, path@) is None,
        },
{
    let chars = chars_of(path);
    let end: usize = match position(&chars, '?') {
        Some(i) => i,
        None => chars.len(),
    };
    let bare = slice_of(&chars, 0, end);
    assert(bare@ =~= without_query(path@));
    proof {
        reveal_strlit("/v2/");
    }
    if !starts_with(&bare, "/v2/") {
        return None;
    }
    let rest = slice_of(&bare, 4, bare.len());
    assert(rest@ =~= bare@.skip(4));
    if same(string_of(&rest).as_str(), "_catalog") {
        return Some(owned("registry:catalog:*"));
    }
    let a = last_place(&rest, "/manifests/");
    let b = last_place(&rest, "/blobs/");
    let c = last_place(&rest, "/tags/");
    let m: usize = if a > b {
        a
    } else {
        b
    };
    let at: usize = if m > c {
        m
    } else {
        c
    };
    if at == 0 {
        return None;
    }
    let repository = slice_string(&rest, 0, at);
    assert(repository@ =~= rest@.take(at as int));
    let action: &str = match method {
        Method::Get => "pull",
        Method::Head => "pull",
        _ => "push",
    };
    Some(cat4("repository:", repository.as_str(), ":", action))
}

// ---------------------------------------------------------------------------
// Token keys
// ---------------------------------------------------------------------------

/// The scopes of the actions in a list, white space and empty ones aside.
pub open spec fn action_scopes(repository: Seq<char>, actions: Seq<Seq<char>>) -> Seq<Seq<char>>
    decreases actions.len(),
{
    if actions.len() == 0 {
        Seq::empty()
    } else {
        let more = action_scopes(repository, actions.drop_last());
        if trim(actions.last()).len() == 0 {
            more
        } else {
            more.push(repository_scope(repository, trim(actions.last())))
        }
    }
}

/// The keys that a token is filed under: one for each action that it was granted. A token without
/// a scope is filed under the empty key.
pub open spec fn keys_of(scope: Option<Seq<char>>) -> Seq<Seq<char>> {
    match scope {
        None => seq![Seq::empty()],
        Some(scope) => {
            let rest = scope.skip(11);
            let colon = rfind(rest, ':');
            if "repository:"@.is_prefix_of(scope) && colon >= 0 {
                let keys = action_scopes(rest.take(colon), split(rest.skip(colon + 1), ','));
                if keys.len() == 0 {
                    seq![scope]
                } else {
                    keys
                }
            } else {
                seq![scope]
            }
        },
    }
}

/// The text of an optional string slice.
pub open spec fn opt_str(s: Option<&str>) -> Option<Seq<char>> {
    match s {
        Some(s) => Some(s@),
        None => None,
    }
}

fn one_key(key: &str) -> (r: Vec<String>)
    ensures
        views(r@) == seq![key@],
{
    let mut out: Vec<String> = Vec::new();
    out.push(owned(key));
    assert(views(out@) =~= seq![key@]);
    out
}

/// The keys that a token is filed under.
pub fn token_cache_keys(scope: Option<&str>) -> (r: Vec<String>)
    ensures
        views(r@) == keys_of(opt_str(scope)),
        r@.len() > 0,
{
    let scope: &str = match scope {
        None => {
            let r = one_key("");
            proof {
                reveal_strlit("");
                assert(""@ =~= Seq::<char>::empty());
                assert(views(r@).len() == 1);
            }
            return r;
        },
        Some(scope) => scope,
    };
    let chars = chars_of(scope);
    proof {
        reveal_strlit("repository:");
    }
    if !starts_with(&chars, "repository:") {
        let r = one_key(scope);
        assert(views(r@).len() == 1);
        return r;
    }
    let rest = slice_of(&chars, 11, chars.len());
    assert(rest@ =~= scope@.skip(11));
    let colon: usize = match rposition(&rest, ':') {
        None => {
            let r = one_key(scope);
            assert(views(r@).len() == 1);
            return r;
        },
        Some(i) => i,
    };
    let repository = slice_string(&rest, 0, colon);
    let tail = slice_of(&rest, colon + 1, rest.len());
    assert(repository@ =~= rest@.take(colon as int));
    assert(tail@ =~= rest@.skip(colon + 1));
    let actions = pieces(&tail, ',');
    let ghost all = split(tail@, ',');
    let mut keys: Vec<String> = Vec::new();
    assert(all.take(0) =~= Seq::<Seq<char>>::empty());
    assert(views(keys@) =~= Seq::<Seq<char>>::empty());
    for i in 0..actions.len()
        invariant
            all == char_views(actions@),
            views(keys@) == action_scopes(repository@, all.take(i as int)),
    {
        let action = trimmed(&actions[i]);
        let ghost before = keys@;
        proof {
            assert(all.take(i + 1).drop_last() =~= all.take(i as int));
            assert(all.take(i + 1).last() == actions@[i as int]@);
        }
        if action.len() > 0 {
            keys.push(
                cat4("repository:", repository.as_str(), ":", string_of(&action).as_str()),
            );
            assert(views(keys@) =~= views(before).push(
                repository_scope(repository@, trim(actions@[i as int]@)),
            ));
        }
    }
    assert(all.take(all.len() as int) =~= all);
    assert(views(keys@).len() == keys@.len());
    if keys.len() == 0 {
        let r = one_key(scope);
        assert(views(r@).len() == 1);
        r
    } else {
        keys
    }
}

proof fn lemma_action_is_filed(repository: Seq<char>, actions: Seq<Seq<char>>, k: int)
    requires
        0 <= k < actions.len(),
        trim(actions[k]).len() > 0,
    ensures
        action_scopes(repository, actions).contains(repository_scope(repository, trim(actions[k]))),
    decreases actions.len(),
{
    let all = action_scopes(repository, actions);
    let more = action_scopes(repository, actions.drop_last());
    let want = repository_scope(repository, trim(actions[k]));
    if k == actions.len() - 1 {
        assert(all[all.len() - 1] == want);
    } else {
        lemma_action_is_filed(repository, actions.drop_last(), k);
        let i = more.index_of(want);
        assert(all[i] == want);
    }
}

proof fn lemma_last_colon(repository: Seq<char>, actions: Seq<char>, i: int)
    requires
        !actions.contains(':'),
        repository.len() < i <= repository.len() + 1 + actions.len(),
    ensures
        crate::text::rfind_below(repository + ":"@ + actions, ':', i) == repository.len(),
    decreases i,
{
    reveal_strlit(":");
    let s = repository + ":"@ + actions;
    if i == repository.len() + 1 {
        assert(s[i - 1] == ':');
    } else {
        assert(s[i - 1] == actions[i - 2 - repository.len()]);
        assert(actions.contains(actions[i - 2 - repository.len()]));
        lemma_last_colon(repository, actions, i - 1);
    }
}

/// A token that was granted several actions on a repository is found again by each of them,
/// however the registry lists them.
pub proof fn law_a_granted_action_is_found(repository: Seq<char>, actions: Seq<char>, k: int)
    requires
        !actions.contains(':'),
        0 <= k < split(actions, ',').len(),
        trim(split(actions, ',')[k]).len() > 0,
    ensures
        keys_of(Some(repository_scope(repository, actions))).contains(
            repository_scope(repository, trim(split(actions, ',')[k])),
        ),
{
    reveal_strlit("repository:");
    reveal_strlit(":");
    let scope = repository_scope(repository, actions);
    let rest = scope.skip(11);
    assert(rest =~= repository + ":"@ + actions);
    lemma_last_colon(repository, actions, rest.len() as int);
    assert(rest.take(repository.len() as int) =~= repository);
    assert(rest.skip(repository.len() as int + 1) =~= actions);
    lemma_action_is_filed(repository, split(actions, ','), k);
    assert("repository:"@ =~= scope.take(11));
}

// ---------------------------------------------------------------------------
// Registries
// ---------------------------------------------------------------------------

/// The host of a registry: what stands before its first colon.
pub open spec fn host_of(registry: Seq<char>) -> Seq<char> {
    registry.take(find(registry, ':'))
}

/// Whether a registry is on this machine.
pub open spec fn on_this_machine(registry: Seq<char>) -> bool {
    let host = host_of(registry);
    host == "localhost"@ || host == "127.0.0.1"@ || host == "::1"@ || host == "[::1]"@
}

fn is_loopback(registry: &str) -> (r: bool)
    ensures
        r == on_this_machine(registry@),
{
    let chars = chars_of(registry);
    let end: usize = match position(&chars, ':') {
        Some(i) => i,
        None => chars.len(),
    };
    let host = slice_string(&chars, 0, end);
    assert(host@ =~= host_of(registry@));
    same(host.as_str(), "localhost") || same(host.as_str(), "127.0.0.1") || same(
        host.as_str(),
        "::1",
    ) || same(host.as_str(), "[::1]")
}

/// The address that a registry's paths go behind.
pub open spec fn base_of(
    registry: Seq<char>,
    insecure: bool,
    replacement: Option<Seq<char>>,
) -> Seq<char> {
    if registry == "ghcr.io"@ && replacement is Some {
        strip_end(replacement->0, '/')
    } else if insecure || on_this_machine(registry) {
        "http://"@ + registry
    } else {
        "https://"@ + registry
    }
}

/// The address that a registry's paths go behind. `replacement` stands in for the public registry
/// of that name.
pub fn registry_base_url(registry: &str, insecure: bool, replacement: Option<&str>) -> (r: String)
    ensures
        r@ == base_of(registry@, insecure, opt_str(replacement)),
{
    if same(registry, "ghcr.io") {
        match replacement {
            Some(base) => {
                return string_of(&stripped_end(&chars_of(base), '/'));
            },
            None => {},
        }
    }
    if insecure || is_loopback(registry) {
        cat2("http://", registry)
    } else {
        cat2("https://", registry)
    }
}

/// The address of a path.
pub fn url_for_path(base: &str, path: &str) -> (r: String)
    ensures
        r@ == base@ + path@,
{
    cat2(base, path)
}

/// The address that a registry names: a whole one, or a path.
pub open spec fn location_url(base: Seq<char>, location: Seq<char>) -> Seq<char> {
    if "http://"@.is_prefix_of(location) || "https://"@.is_prefix_of(location) {
        location
    } else if location.len() > 0 && location[0] == '/' {
        base + location
    } else {
        base + "/"@ + location
    }
}

/// The address that a registry names.
pub fn url_for_location(base: &str, location: &str) -> (r: String)
    ensures
        r@ == location_url(base@, location@),
{
    let chars = chars_of(location);
    if starts_with(&chars, "http://") || starts_with(&chars, "https://") {
        owned(location)
    } else if chars.len() > 0 && chars[0] == '/' {
        cat2(base, location)
    } else {
        cat3(base, "/", location)
    }
}

/// The address that completes an upload: its location with the digest in the query.
pub open spec fn completing_url(base: Seq<char>, location: Seq<char>, digest: Seq<char>) -> Seq<
    char,
> {
    location_url(
        base,
        location + if location.contains('?') {
            "&"@
        } else {
            "?"@
        } + "digest="@ + digest,
    )
}

/// The address that completes an upload.
pub fn finalize_url(base: &str, location: &str, digest: &str) -> (r: String)
    ensures
        r@ == completing_url(base@, location@, digest@),
{
    let separator: &str = if contains_char(&chars_of(location), '?') {
        "&"
    } else {
        "?"
    };
    let whole = cat4(location, separator, "digest=", digest);
    url_for_location(base, whole.as_str())
}

/// The message about a credential that lacks a scope.
pub open spec fn denied_message(base: Seq<char>, path: Seq<char>) -> Seq<char> {
    "registry access denied for "@ + path + ": the credential may lack required scopes"@
        + if "ghcr.io"@.is_suffix_of(base) {
        " (ghcr.io PATs need read:packages or write:packages)"@
    } else {
        Seq::empty()
    }
}

/// The message about a credential that lacks a scope.
pub fn access_denied_message(base: &str, path: &str) -> (r: String)
    ensures
        r@ == denied_message(base@, path@),
{
    let hint: String = if ends_with(&chars_of(base), "ghcr.io") {
        owned(" (ghcr.io PATs need read:packages or write:packages)")
    } else {
        String::new()
    };
    assert(hint@ =~= if "ghcr.io"@.is_suffix_of(base@) {
        " (ghcr.io PATs need read:packages or write:packages)"@
    } else {
        Seq::empty()
    });
    cat4(
        "registry access denied for ",
        path,
        ": the credential may lack required scopes",
        hint.as_str(),
    )
}

// ---------------------------------------------------------------------------
// Transfer chunks
// ---------------------------------------------------------------------------

/// The size of the chunks that a blob is uploaded in.
pub const UPLOAD_CHUNK_SIZE: usize = 0x400_0000;

/// The least size of a chunk.
pub const MIN_CHUNK_SIZE: usize = 0x10_0000;

/// The size of a chunk that a setting asks for.
pub open spec fn chunk_size_of(raw: Option<Seq<char>>) -> int {
    match raw {
        None => UPLOAD_CHUNK_SIZE as int,
        Some(text) => match parse_number(trim(text), usize::MAX as nat) {
            None => UPLOAD_CHUNK_SIZE as int,
            Some(n) => if n < MIN_CHUNK_SIZE {
                MIN_CHUNK_SIZE as int
            } else {
                n as int
            },
        },
    }
}

/// The size of a chunk that a setting asks for: the usual one where it is absent or no number, and
/// never less than the least.
pub fn parse_chunk_size(raw: Option<String>) -> (r: usize)
    ensures
        r == chunk_size_of(
            match raw {
                Some(s) => Some(s@),
                None => None,
            },
        ),
{
    match raw {
        None => UPLOAD_CHUNK_SIZE,
        Some(text) => match parsed_u64(&trimmed(&chars_of(text.as_str()))) {
            None => UPLOAD_CHUNK_SIZE,
            Some(n) => {
                if n > usize::MAX as u64 {
                    UPLOAD_CHUNK_SIZE
                } else if n < MIN_CHUNK_SIZE as u64 {
                    MIN_CHUNK_SIZE
                } else {
                    n as usize
                }
            },
        },
    }
}

/// Whether some ranges cut a body of `len` bytes into chunks of `size` bytes, the last one being
/// what is left.
pub open spec fn cuts(ranges: Seq<(usize, usize)>, len: int, size: int) -> bool {
    &&& ranges.len() == 0 <==> len == 0
    &&& ranges.len() > 0 ==> ranges[0].0 == 0 && ranges.last().1 == len
    &&& forall|i: int|
        0 <= i < ranges.len() ==> (#[trigger] ranges[i]).0 < ranges[i].1 <= ranges[i].0 + size
    &&& forall|i: int|
        0 <= i < ranges.len() - 1 ==> (#[trigger] ranges[i]).1 == ranges[i].0 + size && ranges[i].1
            == ranges[i + 1].0
}

/// Cuts a body into chunks. A size of 0 counts as 1.
pub fn chunk_boundaries(len: usize, chunk_size: usize) -> (r: Vec<(usize, usize)>)
    ensures
        cuts(
            r@,
            len as int,
            if chunk_size == 0 {
                1
            } else {
                chunk_size as int
            },
        ),
{
    let size: usize = if chunk_size == 0 {
        1
    } else {
        chunk_size
    };
    let mut out: Vec<(usize, usize)> = Vec::new();
    let mut offset: usize = 0;
    while offset < len
        invariant
            size > 0,
            offset <= len,
            out@.len() == 0 <==> offset == 0,
            out@.len() > 0 ==> out@[0].0 == 0 && out@.last().1 == offset,
            forall|i: int|
                0 <= i < out@.len() ==> (#[trigger] out@[i]).0 < out@[i].1 <= out@[i].0 + size,
            forall|i: int|
                0 <= i < out@.len() - 1 ==> (#[trigger] out@[i]).1 == out@[i].0 + size && out@[i].1
                    == out@[i + 1].0,
            out@.len() > 0 && offset < len ==> out@.last().1 == out@.last().0 + size,
        decreases len - offset,
    {
        let end: usize = if len - offset > size {
            offset + size
        } else {
            len
        };
        out.push((offset, end));
        offset = end;
    }
    out
}

/// A range of bytes as a header writes it: with its last byte.
pub open spec fn range_text(start: int, end: int) -> Seq<char> {
    decimal(start as nat) + "-"@ + decimal(
        if end > 0 {
            (end - 1) as nat
        } else {
            0
        },
    )
}

/// A range of bytes as a header writes it.
pub fn content_range(start: usize, end_exclusive: usize) -> (r: String)
    ensures
        r@ == range_text(start as int, end_exclusive as int),
{
    let last: usize = if end_exclusive > 0 {
        end_exclusive - 1
    } else {
        0
    };
    cat3(decimal_of(start as u64).as_str(), "-", decimal_of(last as u64).as_str())
}

/// Whether none of the words that end a repository in a path stands behind the beginning of a text.
pub open spec fn names_one_thing(tail: Seq<char>) -> bool {
    forall|k: int|
        0 < k ==> !(#[trigger] stands_at(tail, "/manifests/"@, k)) && !stands_at(
            tail,
            "/blobs/"@,
            k,
        ) && !stands_at(tail, "/tags/"@, k)
}

/// A manifest, a blob or the tags of a repository are read with leave to pull from it, and written
/// with leave to push to it, whatever the query says.
pub proof fn law_a_resource_needs_the_scope_of_its_repository(
    method: Method,
    repository: Seq<char>,
    word: Seq<char>,
    rest: Seq<char>,
    query: Seq<char>,
)
    requires
        word == "/manifests/"@ || word == "/blobs/"@ || word == "/tags/"@,
        repository.len() > 0,
        !repository.contains('?'),
        !rest.contains('?'),
        names_one_thing(word + rest),
    ensures
        ({
            let path = "/v2/"@ + repository + word + rest;
            let scope = "repository:"@ + repository + (if method == Method::Get || method
                == Method::Head {
                ":pull"@
            } else {
                ":push"@
            });
            &&& needed_scope(method, path) == Some(scope)
            &&& needed_scope(method, path + "?"@ + query) == Some(scope)
        }),
{
    reveal_strlit("/v2/");
    reveal_strlit("?");
    reveal_strlit(":");
    reveal_strlit("pull");
    reveal_strlit("push");
    reveal_strlit(":pull");
    reveal_strlit(":push");
    reveal_strlit("_catalog");
    lemma_words();
    let path = "/v2/"@ + repository + word + rest;
    if path.contains('?') {
        let k = path.index_of('?');
        assert(path[k] == '?');
        if k < 4 {
            assert(path[k] == "/v2/"@[k]);
        } else if k < 4 + repository.len() {
            assert(repository[k - 4] == '?');
        } else if k < 4 + repository.len() + word.len() {
            assert(word[k - 4 - repository.len()] == '?');
        } else {
            assert(rest[k - 4 - repository.len() - word.len()] == '?');
        }
    }
    crate::text::law_the_nearest_is_found(path, '?', query);
    assert(path + "?"@ + query =~= path + seq!['?'] + query);
    assert(path.take(path.len() as int) =~= path);
    assert((path + "?"@ + query).take(path.len() as int) =~= path);
    assert("/v2/"@.is_prefix_of(path));
    let bare = path.skip(4);
    assert(bare =~= repository + word + rest);
    lemma_ends_repository(repository, word, rest);
    assert(bare != "_catalog"@) by {
        assert(bare[repository.len() as int] == '/');
    }
    assert(bare.take(repository.len() as int) =~= repository);
    let action = if reads_only(method) {
        "pull"@
    } else {
        "push"@
    };
    assert(":pull"@ =~= ":"@ + "pull"@);
    assert(":push"@ =~= ":"@ + "push"@);
    assert("repository:"@ + repository + ":"@ + action =~= "repository:"@ + repository + (":"@
        + action));
}

proof fn lemma_words()
    ensures
        "/manifests/"@.len() == 11,
        "/blobs/"@.len() == 7,
        "/tags/"@.len() == 6,
        "/manifests/"@[0] == '/' && "/manifests/"@[10] == '/',
        "/blobs/"@[0] == '/' && "/blobs/"@[6] == '/',
        "/tags/"@[0] == '/' && "/tags/"@[5] == '/',
        forall|i: int| 0 < i < 10 ==> #[trigger] "/manifests/"@[i] != '/',
        forall|i: int| 0 < i < 6 ==> #[trigger] "/blobs/"@[i] != '/',
        forall|i: int| 0 < i < 5 ==> #[trigger] "/tags/"@[i] != '/',
        !"/manifests/"@.contains('?'),
        !"/blobs/"@.contains('?'),
        !"/tags/"@.contains('?'),
        "/manifests/"@[1] == 'm',
        "/blobs/"@[1] == 'b',
        "/tags/"@[1] == 't',
{
    reveal_strlit("/manifests/");
    reveal_strlit("/blobs/");
    reveal_strlit("/tags/");
}

proof fn lemma_found_last(whole: Seq<char>, p: Seq<char>, last: int)
    requires
        forall|k: int| last < k ==> !(#[trigger] stands_at(whole, p, k)),
        p.len() > 0,
    ensures
        rfind_text(whole, p) <= last || rfind_text(whole, p) == -1,
        last >= 0 && stands_at(whole, p, last) ==> rfind_text(whole, p) == last,
{
    crate::text::law_the_nearest_text_is_found(whole, p, last);
    if exists|k: int| stands_at(whole, p, k) {
        let k = choose|k: int| stands_at(whole, p, k);
        crate::text::law_the_nearest_text_is_found(whole, p, k);
        assert(stands_at(whole, p, rfind_text(whole, p)));
    }
}

proof fn lemma_ends_repository(repository: Seq<char>, word: Seq<char>, rest: Seq<char>)
    requires
        word == "/manifests/"@ || word == "/blobs/"@ || word == "/tags/"@,
        names_one_thing(word + rest),
    ensures
        repository_end(repository + word + rest) == repository.len(),
{
    lemma_words();
    let whole = repository + word + rest;
    let tail = word + rest;
    let n = repository.len() as int;
    assert forall|p: Seq<char>, k: int| n < k && #[trigger] stands_at(whole, p, k) implies stands_at(
        tail,
        p,
        k - n,
    ) by {
        assert(tail.subrange(k - n, k - n + p.len()) =~= whole.subrange(k, k + p.len()));
    }
    assert(whole.subrange(n, n + word.len()) =~= word);
    assert(stands_at(whole, word, n));
    assert forall|k: int| n < k implies !(#[trigger] stands_at(whole, "/manifests/"@, k)) by {
        assert(!stands_at(tail, "/manifests/"@, k - n));
    }
    assert forall|k: int| n < k implies !(#[trigger] stands_at(whole, "/blobs/"@, k)) by {
        assert(!stands_at(tail, "/manifests/"@, k - n) && !stands_at(tail, "/blobs/"@, k - n));
    }
    assert forall|k: int| n < k implies !(#[trigger] stands_at(whole, "/tags/"@, k)) by {
        assert(!stands_at(tail, "/manifests/"@, k - n) && !stands_at(tail, "/tags/"@, k - n));
    }
    lemma_found_last(whole, "/manifests/"@, n);
    lemma_found_last(whole, "/blobs/"@, n);
    lemma_found_last(whole, "/tags/"@, n);
}

/// The catalog is read with a scope of its own, and what is outside the registry's own paths needs
/// none.
pub proof fn law_the_catalog_has_its_own_scope(method: Method, query: Seq<char>, path: Seq<char>)
    ensures
        needed_scope(method, "/v2/_catalog"@) == Some("registry:catalog:*"@),
        needed_scope(method, "/v2/_catalog"@ + "?"@ + query) == Some("registry:catalog:*"@),
        (forall|rest: Seq<char>| path != #[trigger] ("/v2/"@ + rest)) ==> needed_scope(method, path)
            is None,
{
    reveal_strlit("/v2/");
    reveal_strlit("/v2/_catalog");
    reveal_strlit("_catalog");
    reveal_strlit("?");
    let all = "/v2/_catalog"@;
    assert(!all.contains('?'));
    crate::text::law_the_nearest_is_found(all, '?', query);
    assert(all + "?"@ + query =~= all + seq!['?'] + query);
    assert(all.take(all.len() as int) =~= all);
    assert((all + "?"@ + query).take(all.len() as int) =~= all);
    assert("/v2/"@.is_prefix_of(all));
    assert(all.skip(4) =~= "_catalog"@);
    let bare = without_query(path);
    crate::text::lemma_find_from(path, '?', 0);
    if "/v2/"@.is_prefix_of(bare) {
        assert(path =~= "/v2/"@ + path.skip(4));
    }
}

/// A registry is spoken to in the clear only where that is asked for or where it is on this
/// machine, and encrypted everywhere else. A replacement stands in for the one registry it is for.
pub proof fn law_a_registry_is_spoken_to_encrypted(
    registry: Seq<char>,
    port: Seq<char>,
    insecure: bool,
    replacement: Option<Seq<char>>,
)
    ensures
        registry != "ghcr.io"@ && insecure ==> base_of(registry, insecure, replacement) == "http://"@
            + registry,
        !registry.contains(':') && registry != "ghcr.io"@ && !insecure ==> {
            let here = registry == "localhost"@ || registry == "127.0.0.1"@;
            let scheme = if here {
                "http://"@
            } else {
                "https://"@
            };
            &&& registry != "::1"@ && registry != "[::1]"@ ==> base_of(
                registry,
                insecure,
                replacement,
            ) == scheme + registry
            &&& registry != "::1"@ && registry != "[::1]"@ && registry + ":"@ + port != "ghcr.io"@
                ==> base_of(registry + ":"@ + port, insecure, replacement) == scheme + (registry
                + ":"@ + port)
        },
        base_of("ghcr.io"@, false, None) == "https://"@ + "ghcr.io"@,
        replacement matches Some(other) ==> (other.len() > 0 && other.last() != '/' ==> base_of(
            "ghcr.io"@,
            insecure,
            replacement,
        ) == other),
{
    reveal_strlit(":");
    reveal_strlit("ghcr.io");
    reveal_strlit("localhost");
    reveal_strlit("127.0.0.1");
    reveal_strlit("::1");
    reveal_strlit("[::1]");
    crate::text::law_the_nearest_is_found(registry, ':', port);
    assert(registry + ":"@ + port =~= registry + seq![':'] + port);
    assert(registry.take(registry.len() as int) =~= registry);
    assert((registry + ":"@ + port).take(registry.len() as int) =~= registry);
    let other = "ghcr.io"@;
    assert(!other.contains(':'));
    crate::text::law_the_nearest_is_found(other, ':', port);
    assert(other.take(other.len() as int) =~= other);
    assert(other.len() == 7 && "localhost"@.len() == 9 && "::1"@.len() == 3 && "[::1]"@.len() == 5
        && "127.0.0.1"@.len() == 9);
}

/// An upload goes on where the registry says: at an address as it is, and at a path below the
/// registry. It is completed there, with the digest of what was uploaded.
pub proof fn law_an_upload_goes_on_where_it_is_told(
    base: Seq<char>,
    location: Seq<char>,
    digest: Seq<char>,
    rest: Seq<char>,
)
    ensures
        location_url(base, "http://"@ + rest) == "http://"@ + rest,
        location_url(base, "https://"@ + rest) == "https://"@ + rest,
        location_url(base, "/"@ + rest) == base + "/"@ + rest,
        completing_url(base, location, digest) == location_url(base, location) + (
        if location.contains('?') {
            "&"@
        } else {
            "?"@
        }) + "digest="@ + digest,
{
    reveal_strlit("http://");
    reveal_strlit("https://");
    reveal_strlit("/");
    reveal_strlit("?");
    reveal_strlit("&");
    assert("http://"@.is_prefix_of("http://"@ + rest));
    assert("https://"@.is_prefix_of("https://"@ + rest));
    let rooted = "/"@ + rest;
    assert(rooted[0] == '/');
    assert("http://"@[0] == 'h' && "https://"@[0] == 'h');
    assert(base + "/"@ + rest =~= base + rooted);
    let mark = if location.contains('?') {
        "&"@
    } else {
        "?"@
    };
    let more = location + mark + "digest="@ + digest;
    let tail = mark + "digest="@ + digest;
    assert(more =~= location + tail);
    assert(tail[0] == '?' || tail[0] == '&');
    lemma_prefix_kept("http://"@, location, tail);
    lemma_prefix_kept("https://"@, location, tail);
    if location.len() > 0 {
        assert(more[0] == location[0]);
    } else {
        assert(more[0] == tail[0]);
    }
    let at = location_url(base, location);
    assert(location_url(base, more) =~= at + tail);
    assert(at + mark + "digest="@ + digest =~= at + tail);
}

proof fn lemma_prefix_kept(p: Seq<char>, s: Seq<char>, tail: Seq<char>)
    requires
        tail.len() > 0,
        !p.contains(tail[0]),
    ensures
        p.is_prefix_of(s + tail) <==> p.is_prefix_of(s),
{
    let whole = s + tail;
    if p.is_prefix_of(s) {
        assert(whole.take(p.len() as int) =~= p);
    }
    if p.is_prefix_of(whole) {
        if s.len() < p.len() {
            assert(p[s.len() as int] == whole[s.len() as int]);
            assert(p.contains(tail[0]));
        } else {
            assert(s.take(p.len() as int) =~= p);
        }
    }
}

/// The path of an address begins behind its host.
pub proof fn law_a_path_begins_behind_its_host(scheme: Seq<char>, host: Seq<char>, rest: Seq<char>)
    requires
        !scheme.contains(':'),
        !host.contains('/'),
    ensures
        path_of(scheme + "://"@ + host + "/"@ + rest) == "/"@ + rest,
{
    reveal_strlit("://");
    reveal_strlit("/");
    let url = scheme + "://"@ + host + "/"@ + rest;
    let n = scheme.len() as int;
    assert(url.subrange(n, n + 3) =~= "://"@);
    assert(stands_at(url, "://"@, n));
    crate::text::law_the_nearest_text_is_found(url, "://"@, n);
    let at = find_text(url, "://"@);
    if at < n {
        assert(url.subrange(at, at + 3)[0] == ':');
        assert(scheme[at] == ':');
    }
    let slash = n + 3 + host.len();
    assert(url[slash] == '/');
    crate::text::lemma_find_from(url, '/', n + 3);
    let found = find_from(url, '/', n + 3);
    if found < slash {
        assert(url[found] == host[found - n - 3]);
    }
    assert(found == slash);
    assert(url.skip(slash) =~= "/"@ + rest);
}

/// An upload is cut into pieces of 64 MiB, or of the size that is asked for, which is one MiB at
/// least.
pub proof fn law_a_chunk_is_a_mebibyte_at_least(n: nat, raw: Option<Seq<char>>)
    ensures
        chunk_size_of(None) == 64 * 1024 * 1024,
        n <= usize::MAX && n >= 1024 * 1024 ==> chunk_size_of(Some(decimal(n))) == n,
        n < 1024 * 1024 ==> chunk_size_of(Some(decimal(n))) == 1024 * 1024,
        chunk_size_of(raw) >= 1024 * 1024,
        raw matches Some(text) ==> (parse_number(trim(text), usize::MAX as nat) is None
            ==> chunk_size_of(raw) == 64 * 1024 * 1024),
{
    crate::text::law_a_number_is_read_back(n, usize::MAX as nat);
    lemma_number_is_trimmed(n);
}

proof fn lemma_number_is_trimmed(n: nat)
    ensures
        trim(decimal(n)) == decimal(n),
{
    let d = decimal(n);
    let none = Seq::<char>::empty();
    lemma_digit_ends(n);
    crate::text::law_white_space_around_a_text_is_cut(none, d, none);
    assert(none + d + none =~= d);
}

proof fn lemma_digit_ends(n: nat)
    ensures
        decimal(n).len() > 0,
        '0' <= decimal(n)[0] <= '9',
        '0' <= decimal(n).last() <= '9',
    decreases n,
{
    if n >= 10 {
        lemma_digit_ends(n / 10);
        assert(decimal(n)[0] == decimal(n / 10)[0]);
    }
}

/// A range names its first byte and its last.
pub proof fn law_a_range_names_its_ends(start: nat, len: nat)
    requires
        len > 0,
    ensures
        range_text(start as int, (start + len) as int) == decimal(start) + "-"@ + decimal(
            (start + len - 1) as nat,
        ),
{
}

/// A token is filed under nothing but what it was granted for: under each action of a repository
/// that is told, or under the scope itself.
pub proof fn law_only_granted_actions_are_filed(
    repository: Seq<char>,
    actions: Seq<char>,
    other: Seq<char>,
    key: Seq<char>,
)
    requires
        !actions.contains(':'),
    ensures
        ({
            let scope = "repository:"@ + repository + ":"@ + actions;
            let keys = keys_of(Some(scope));
            &&& keys.contains(key) ==> key == scope || exists|k: int|
                0 <= k < split(actions, ',').len() && trim(#[trigger] split(actions, ',')[k]).len() > 0
                    && key == "repository:"@ + repository + ":"@ + trim(split(actions, ',')[k])
            &&& keys.len() > 0
        }),
        keys_of(None) == seq![Seq::<char>::empty()],
        !"repository:"@.is_prefix_of(other) ==> keys_of(Some(other)) == seq![other],
{
    reveal_strlit("repository:");
    reveal_strlit(":");
    let scope = "repository:"@ + repository + ":"@ + actions;
    let rest = scope.skip(11);
    assert(rest =~= repository + seq![':'] + actions);
    crate::text::law_the_nearest_is_found(repository, ':', actions);
    assert(rest.take(repository.len() as int) =~= repository);
    assert(rest.skip(repository.len() as int + 1) =~= actions);
    lemma_actions_only(repository, split(actions, ','), key);
    assert(seq![scope][0] == scope);
}

proof fn lemma_actions_only(repository: Seq<char>, actions: Seq<Seq<char>>, key: Seq<char>)
    ensures
        action_scopes(repository, actions).contains(key) ==> exists|k: int|
            0 <= k < actions.len() && trim(#[trigger] actions[k]).len() > 0 && key == "repository:"@
                + repository + ":"@ + trim(actions[k]),
    decreases actions.len(),
{
    if actions.len() > 0 {
        let front = actions.drop_last();
        let n = actions.len() - 1;
        lemma_actions_only(repository, front, key);
        let before = action_scopes(repository, front);
        let all = action_scopes(repository, actions);
        assert(actions.last() == actions[n]);
        if all.contains(key) {
            let i = all.index_of(key);
            if i < before.len() {
                assert(before[i] == key);
                assert(before.contains(key));
                let k = choose|k: int|
                    0 <= k < front.len() && trim(#[trigger] front[k]).len() > 0 && key
                        == "repository:"@ + repository + ":"@ + trim(front[k]);
                assert(actions[k] == front[k]);
            }
        }
    }
}

} // verus!
