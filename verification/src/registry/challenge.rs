//! The challenges of a `WWW-Authenticate` header.

use crate::text::{
    alnum, char_views, chars_of, find, is_alnum, is_white, lower, lowered, position, same, slice_of,
    string_of, trim, trimmed, white,
};
use vstd::prelude::*;

verus! {

/// A challenge to get a token.
#[derive(Debug, PartialEq, Eq)]
pub struct BearerChallenge {
    /// Where the token is to be had.
    pub realm: String,
    pub service: Option<String>,
    pub scope: Option<String>,
}

/// A challenge that the client understands.
#[derive(Debug, PartialEq, Eq)]
pub enum AuthChallenge {
    Bearer(BearerChallenge),
    Basic,
}

impl Clone for BearerChallenge {
    fn clone(&self) -> (r: BearerChallenge)
        ensures
            r == *self,
    {
        BearerChallenge {
            realm: self.realm.clone(),
            service: self.service.clone(),
            scope: self.scope.clone(),
        }
    }
}

impl Clone for AuthChallenge {
    fn clone(&self) -> (r: AuthChallenge)
        ensures
            r == *self,
    {
        match self {
            AuthChallenge::Bearer(b) => AuthChallenge::Bearer(b.clone()),
            AuthChallenge::Basic => AuthChallenge::Basic,
        }
    }
}

/// A challenge, by its texts.
pub enum ChallengeView {
    Bearer { realm: Seq<char>, service: Option<Seq<char>>, scope: Option<Seq<char>> },
    Basic,
}

/// The text of an optional string.
pub open spec fn opt(s: Option<String>) -> Option<Seq<char>> {
    match s {
        Some(s) => Some(s@),
        None => None,
    }
}

impl View for AuthChallenge {
    type V = ChallengeView;

    open spec fn view(&self) -> ChallengeView {
        match self {
            AuthChallenge::Bearer(b) => ChallengeView::Bearer {
                realm: b.realm@,
                service: opt(b.service),
                scope: opt(b.scope),
            },
            AuthChallenge::Basic => ChallengeView::Basic,
        }
    }
}

/// The views of some challenges.
pub open spec fn challenge_views(v: Seq<AuthChallenge>) -> Seq<ChallengeView> {
    Seq::new(v.len(), |i: int| v[i]@)
}

// ---------------------------------------------------------------------------
// Segments
// ---------------------------------------------------------------------------

/// Whether position `i` is inside a quoted string, and whether its character is escaped there.
pub open spec fn quoting(s: Seq<char>, i: int) -> (bool, bool)
    decreases i,
{
    if i <= 0 {
        (false, false)
    } else {
        let (inside, escaped) = quoting(s, i - 1);
        let c = s[i - 1];
        if escaped {
            (inside, false)
        } else if c == '\\' && inside {
            (inside, true)
        } else if c == '"' {
            (!inside, false)
        } else {
            (inside, false)
        }
    }
}

/// Whether a comma that separates segments stands at position `i`: one outside quoted strings.
pub open spec fn separates(s: Seq<char>, i: int) -> bool {
    s[i] == ',' && !quoting(s, i).0 && !quoting(s, i).1
}

/// The pieces between separating commas; the first begins at `start`, and none ends before `i`.
pub open spec fn cut_from(s: Seq<char>, start: int, i: int) -> Seq<Seq<char>>
    decreases s.len() - i,
{
    if i >= s.len() {
        seq![s.subrange(start, s.len() as int)]
    } else if separates(s, i) {
        seq![s.subrange(start, i)] + cut_from(s, i + 1, i + 1)
    } else {
        cut_from(s, start, i + 1)
    }
}

/// The pieces without white space at their ends, and without the empty ones.
pub open spec fn tidy(pieces: Seq<Seq<char>>) -> Seq<Seq<char>>
    decreases pieces.len(),
{
    if pieces.len() == 0 {
        Seq::empty()
    } else {
        let more = tidy(pieces.drop_last());
        if trim(pieces.last()).len() == 0 {
            more
        } else {
            more.push(trim(pieces.last()))
        }
    }
}

/// The segments of a header value.
pub open spec fn segments_of(value: Seq<char>) -> Seq<Seq<char>> {
    tidy(cut_from(value, 0, 0))
}

proof fn lemma_tidy_push(pieces: Seq<Seq<char>>, piece: Seq<char>)
    ensures
        tidy(pieces.push(piece)) == if trim(piece).len() == 0 {
            tidy(pieces)
        } else {
            tidy(pieces).push(trim(piece))
        },
{
    assert(pieces.push(piece).drop_last() =~= pieces);
}

fn add_tidy(out: &mut Vec<Vec<char>>, piece: &[char])
    ensures
        char_views(final(out)@) == (if trim(piece@).len() == 0 {
            char_views(old(out)@)
        } else {
            char_views(old(out)@).push(trim(piece@))
        }),
{
    let text = trimmed(piece);
    if text.len() > 0 {
        let ghost before = out@;
        out.push(text);
        assert(char_views(out@) =~= char_views(before).push(trim(piece@)));
    }
}

/// Splits a header value at the commas outside quoted strings.
fn split_challenge_segments(s: &[char]) -> (r: Vec<Vec<char>>)
    ensures
        char_views(r@) == segments_of(s@),
{
    let mut out: Vec<Vec<char>> = Vec::new();
    let mut start: usize = 0;
    let mut inside = false;
    let mut escaped = false;
    let ghost mut done: Seq<Seq<char>> = Seq::empty();
    assert(char_views(out@) =~= tidy(done));
    assert(done + cut_from(s@, 0, 0) =~= cut_from(s@, 0, 0));
    for i in 0..s.len()
        invariant
            start <= i <= s@.len() == s.len(),
            (inside, escaped) == quoting(s@, i as int),
            char_views(out@) == tidy(done),
            done + cut_from(s@, start as int, i as int) == cut_from(s@, 0, 0),
    {
        let c = s[i];
        if escaped {
            escaped = false;
        } else if c == '\\' && inside {
            escaped = true;
        } else if c == '"' {
            inside = !inside;
        } else if c == ',' && !inside {
            let piece = slice_of(s, start, i);
            add_tidy(&mut out, &piece);
            proof {
                lemma_tidy_push(done, piece@);
                assert(done + (seq![piece@] + cut_from(s@, i + 1, i + 1)) =~= done.push(piece@)
                    + cut_from(s@, i + 1, i + 1));
                done = done.push(piece@);
            }
            start = i + 1;
        }
    }
    let piece = slice_of(s, start, s.len());
    add_tidy(&mut out, &piece);
    proof {
        lemma_tidy_push(done, piece@);
        assert(done + seq![piece@] =~= done.push(piece@));
    }
    out
}

// ---------------------------------------------------------------------------
// Schemes and parameters
// ---------------------------------------------------------------------------

/// Whether a character may stand in the name of a scheme.
pub open spec fn is_scheme_char(c: char) -> bool {
    is_alnum(c) || c == '-' || c == '_' || c == '.'
}

/// Whether a text is the name of a scheme.
pub open spec fn is_scheme(s: Seq<char>) -> bool {
    s.len() > 0 && forall|i: int| 0 <= i < s.len() ==> is_scheme_char(#[trigger] s[i])
}

fn scheme_token(s: &[char]) -> (r: bool)
    ensures
        r == is_scheme(s@),
{
    if s.len() == 0 {
        return false;
    }
    for i in 0..s.len()
        invariant
            forall|k: int| 0 <= k < i ==> is_scheme_char(#[trigger] s@[k]),
    {
        let c = s[i];
        if !alnum(c) && c != '-' && c != '_' && c != '.' {
            assert(!is_scheme_char(s@[i as int]));
            return false;
        }
    }
    true
}

/// The first index at or after `i` that holds white space, or the length.
pub open spec fn find_white(s: Seq<char>, i: int) -> int
    decreases s.len() - i,
{
    if i >= s.len() {
        s.len() as int
    } else if is_white(s[i]) {
        i
    } else {
        find_white(s, i + 1)
    }
}

/// The scheme that a segment begins with, and what follows it: either the whole segment is one, or
/// one stands before the first white space.
pub open spec fn scheme_of(segment: Seq<char>) -> Option<(Seq<char>, Seq<char>)> {
    let i = find_white(segment, 0);
    if 0 <= i < segment.len() {
        if is_scheme(segment.take(i)) {
            Some((segment.take(i), segment.skip(i + 1)))
        } else {
            None
        }
    } else if is_scheme(segment) {
        Some((segment, Seq::empty()))
    } else {
        None
    }
}

fn split_scheme_prefix(segment: &[char]) -> (r: Option<(Vec<char>, Vec<char>)>)
    ensures
        match r {
            Some((scheme, rest)) => scheme_of(segment@) == Some((scheme@, rest@)),
            None => scheme_of(segment@) is None,
        },
{
    let mut i: usize = 0;
    while i < segment.len() && !white(segment[i])
        invariant
            i <= segment@.len() == segment.len(),
            find_white(segment@, 0) == find_white(segment@, i as int),
        decreases segment@.len() - i,
    {
        i += 1;
    }
    let word = slice_of(segment, 0, i);
    assert(word@ =~= segment@.take(i as int));
    if !scheme_token(&word) {
        assert(i == segment@.len() ==> word@ =~= segment@);
        return None;
    }
    if i < segment.len() {
        let rest = slice_of(segment, i + 1, segment.len());
        assert(rest@ =~= segment@.skip(i + 1));
        Some((word, rest))
    } else {
        assert(word@ =~= segment@);
        Some((word, Vec::new()))
    }
}

/// A quoted text with its escapes resolved, from index `i` on.
pub open spec fn unescaped(s: Seq<char>, i: int) -> Seq<char>
    decreases s.len() - i,
{
    if i >= s.len() {
        Seq::empty()
    } else if s[i] == '\\' {
        if i + 1 < s.len() {
            seq![s[i + 1]] + unescaped(s, i + 2)
        } else {
            Seq::empty()
        }
    } else {
        seq![s[i]] + unescaped(s, i + 1)
    }
}

fn unescape_quoted(s: &[char]) -> (r: Vec<char>)
    ensures
        r@ == unescaped(s@, 0),
{
    let mut out: Vec<char> = Vec::new();
    let mut i: usize = 0;
    assert(out@ + unescaped(s@, 0) =~= unescaped(s@, 0));
    while i < s.len()
        invariant
            i <= s@.len() == s.len(),
            out@ + unescaped(s@, i as int) == unescaped(s@, 0),
        decreases s@.len() - i,
    {
        let ghost before = out@;
        if s[i] == '\\' {
            if i + 1 < s.len() {
                out.push(s[i + 1]);
                assert(before + (seq![s@[i + 1]] + unescaped(s@, i + 2)) =~= out@ + unescaped(
                    s@,
                    i + 2,
                ));
                i += 2;
            } else {
                assert(before + Seq::<char>::empty() =~= before);
                return out;
            }
        } else {
            out.push(s[i]);
            assert(before + (seq![s@[i as int]] + unescaped(s@, i + 1)) =~= out@ + unescaped(
                s@,
                i + 1,
            ));
            i += 1;
        }
    }
    assert(out@ + Seq::<char>::empty() =~= out@);
    out
}

/// Whether a character may stand in the name of a parameter.
pub open spec fn is_key_char(c: char) -> bool {
    is_alnum(c) || c == '-' || c == '_'
}

/// Whether a text is the name of a parameter.
pub open spec fn is_key(s: Seq<char>) -> bool {
    s.len() > 0 && forall|i: int| 0 <= i < s.len() ==> is_key_char(#[trigger] s[i])
}

fn key_token(s: &[char]) -> (r: bool)
    ensures
        r == is_key(s@),
{
    if s.len() == 0 {
        return false;
    }
    for i in 0..s.len()
        invariant
            forall|k: int| 0 <= k < i ==> is_key_char(#[trigger] s@[k]),
    {
        let c = s[i];
        if !alnum(c) && c != '-' && c != '_' {
            assert(!is_key_char(s@[i as int]));
            return false;
        }
    }
    true
}

/// The value of a parameter as it is meant: a quoted one without its quotes and escapes.
pub open spec fn param_value(text: Seq<char>) -> Seq<char> {
    let value = trim(text);
    if value.len() > 0 && value[0] == '"' {
        let inner = value.skip(1);
        if inner.len() > 0 && inner.last() == '"' {
            unescaped(inner.drop_last(), 0)
        } else {
            unescaped(inner, 0)
        }
    } else {
        value
    }
}

/// The parameter that a segment writes: a name in lower case and a value.
pub open spec fn param_of(segment: Seq<char>) -> Option<(Seq<char>, Seq<char>)> {
    let i = find(segment, '=');
    if 0 <= i < segment.len() {
        let key = lower(trim(segment.take(i)));
        if is_key(key) {
            Some((key, param_value(segment.skip(i + 1))))
        } else {
            None
        }
    } else {
        None
    }
}

fn parse_auth_param(segment: &[char]) -> (r: Option<(Vec<char>, Vec<char>)>)
    ensures
        match r {
            Some((key, value)) => param_of(segment@) == Some((key@, value@)),
            None => param_of(segment@) is None,
        },
{
    match position(segment, '=') {
        None => None,
        Some(i) => {
            let left = slice_of(segment, 0, i);
            let right = slice_of(segment, i + 1, segment.len());
            assert(left@ =~= segment@.take(i as int));
            assert(right@ =~= segment@.skip(i + 1));
            let key = lowered(&trimmed(&left));
            if !key_token(&key) {
                return None;
            }
            let value = trimmed(&right);
            if value.len() > 0 && value[0] == '"' {
                let end: usize = if value.len() > 1 && value[value.len() - 1] == '"' {
                    value.len() - 1
                } else {
                    value.len()
                };
                let inner = slice_of(&value, 1, end);
                proof {
                    let all = value@.skip(1);
                    if end < value@.len() {
                        assert(inner@ =~= all.drop_last());
                        assert(all.last() == value@.last());
                    } else {
                        assert(inner@ =~= all);
                        if all.len() > 0 {
                            assert(all.last() == value@.last());
                        }
                    }
                }
                Some((key, unescape_quoted(&inner)))
            } else {
                Some((key, value))
            }
        },
    }
}

// ---------------------------------------------------------------------------
// Challenges
// ---------------------------------------------------------------------------

/// A challenge as it is written: its scheme and its parameters.
pub struct RawChallenge {
    pub scheme: Seq<char>,
    pub params: Seq<(Seq<char>, Seq<char>)>,
}

/// The challenges that some segments write. One begins with a scheme, and the segments behind it
/// add parameters to it.
pub open spec fn gathered(segments: Seq<Seq<char>>) -> Seq<RawChallenge>
    decreases segments.len(),
{
    if segments.len() == 0 {
        Seq::empty()
    } else {
        let before = gathered(segments.drop_last());
        let segment = segments.last();
        match scheme_of(segment) {
            Some((scheme, rest)) => before.push(
                RawChallenge {
                    scheme,
                    params: match param_of(rest) {
                        Some(param) => seq![param],
                        None => Seq::empty(),
                    },
                },
            ),
            None => match param_of(segment) {
                Some(param) => if before.len() > 0 {
                    before.drop_last().push(
                        RawChallenge {
                            scheme: before.last().scheme,
                            params: before.last().params.push(param),
                        },
                    )
                } else {
                    before
                },
                None => before,
            },
        }
    }
}

/// The value of a parameter; the last one counts.
pub open spec fn last_param(params: Seq<(Seq<char>, Seq<char>)>, key: Seq<char>) -> Option<
    Seq<char>,
>
    decreases params.len(),
{
    if params.len() == 0 {
        None
    } else if params.last().0 == key {
        Some(params.last().1)
    } else {
        last_param(params.drop_last(), key)
    }
}

/// What a challenge means, if it is one that the client understands.
pub open spec fn meaning(raw: RawChallenge) -> Option<ChallengeView> {
    if lower(raw.scheme) == "bearer"@ {
        match last_param(raw.params, "realm"@) {
            Some(realm) => Some(
                ChallengeView::Bearer {
                    realm,
                    service: last_param(raw.params, "service"@),
                    scope: last_param(raw.params, "scope"@),
                },
            ),
            None => None,
        }
    } else if lower(raw.scheme) == "basic"@ {
        Some(ChallengeView::Basic)
    } else {
        None
    }
}

/// The challenges that the client understands.
pub open spec fn meanings(raw: Seq<RawChallenge>) -> Seq<ChallengeView>
    decreases raw.len(),
{
    if raw.len() == 0 {
        Seq::empty()
    } else {
        match meaning(raw.last()) {
            Some(c) => meanings(raw.drop_last()).push(c),
            None => meanings(raw.drop_last()),
        }
    }
}

/// The challenges of a header value.
pub open spec fn challenges_of(value: Seq<char>) -> Seq<ChallengeView> {
    meanings(gathered(segments_of(value)))
}

/// A challenge under way.
struct Draft {
    scheme: Vec<char>,
    params: Vec<(Vec<char>, Vec<char>)>,
}

spec fn param_views(params: Seq<(Vec<char>, Vec<char>)>) -> Seq<(Seq<char>, Seq<char>)> {
    Seq::new(params.len(), |i: int| (params[i].0@, params[i].1@))
}

spec fn draft_view(d: Draft) -> RawChallenge {
    RawChallenge { scheme: d.scheme@, params: param_views(d.params@) }
}

spec fn draft_views(v: Seq<Draft>) -> Seq<RawChallenge> {
    Seq::new(v.len(), |i: int| draft_view(v[i]))
}

fn gather(segments: &Vec<Vec<char>>) -> (r: Vec<Draft>)
    ensures
        draft_views(r@) == gathered(char_views(segments@)),
{
    let ghost all = char_views(segments@);
    let mut out: Vec<Draft> = Vec::new();
    assert(all.take(0) =~= Seq::<Seq<char>>::empty());
    assert(draft_views(out@) =~= Seq::<RawChallenge>::empty());
    for i in 0..segments.len()
        invariant
            all == char_views(segments@),
            draft_views(out@) == gathered(all.take(i as int)),
    {
        let segment = &segments[i];
        let ghost before = out@;
        proof {
            assert(all.take(i + 1).drop_last() =~= all.take(i as int));
            assert(all.take(i + 1).last() == segment@);
        }
        match split_scheme_prefix(segment) {
            Some((scheme, rest)) => {
                let mut params: Vec<(Vec<char>, Vec<char>)> = Vec::new();
                match parse_auth_param(&rest) {
                    Some(param) => {
                        params.push(param);
                        assert(param_views(params@) =~= seq![(param.0@, param.1@)]);
                    },
                    None => {
                        assert(param_views(params@) =~= Seq::<(Seq<char>, Seq<char>)>::empty());
                    },
                }
                let draft = Draft { scheme, params };
                out.push(draft);
                assert(draft_views(out@) =~= draft_views(before).push(draft_view(draft)));
            },
            None => {
                match parse_auth_param(segment) {
                    Some(param) => {
                        match out.pop() {
                            Some(mut last) => {
                                let ghost was = last;
                                last.params.push(param);
                                out.push(last);
                                proof {
                                    let n = before.len() - 1;
                                    assert(draft_views(before)[n] == draft_view(before[n]));
                                    assert(param_views(last.params@) =~= param_views(
                                        was.params@,
                                    ).push((param.0@, param.1@)));
                                    assert(draft_views(out@) =~= draft_views(
                                        before,
                                    ).drop_last().push(draft_view(last)));
                                }
                            },
                            None => {
                                assert(draft_views(out@) =~= draft_views(before));
                            },
                        }
                    },
                    None => {},
                }
            },
        }
    }
    assert(all.take(all.len() as int) =~= all);
    out
}

fn param(params: &Vec<(Vec<char>, Vec<char>)>, key: &str) -> (r: Option<String>)
    ensures
        opt(r) == last_param(param_views(params@), key@),
{
    let ghost all = param_views(params@);
    let mut n: usize = params.len();
    assert(all.take(n as int) =~= all);
    while n > 0
        invariant
            n <= params@.len() == params.len(),
            all == param_views(params@),
            last_param(all, key@) == last_param(all.take(n as int), key@),
        decreases n,
    {
        proof {
            assert(all.take(n as int).drop_last() =~= all.take(n - 1));
            assert(all.take(n as int).last() == (params@[n - 1].0@, params@[n - 1].1@));
        }
        if same(string_of(&params[n - 1].0).as_str(), key) {
            return Some(string_of(&params[n - 1].1));
        }
        n -= 1;
    }
    None
}

/// Parses the value of a `WWW-Authenticate` header into the challenges that the client
/// understands. A token challenge without a realm is dropped, and so is an unknown scheme.
pub fn parse_www_authenticate(value: &str) -> (r: Vec<AuthChallenge>)
    ensures
        challenge_views(r@) == challenges_of(value@),
{
    let segments = split_challenge_segments(&chars_of(value));
    let drafts = gather(&segments);
    let ghost raw = draft_views(drafts@);
    let mut out: Vec<AuthChallenge> = Vec::new();
    assert(raw.take(0) =~= Seq::<RawChallenge>::empty());
    assert(challenge_views(out@) =~= Seq::<ChallengeView>::empty());
    for i in 0..drafts.len()
        invariant
            raw == draft_views(drafts@),
            challenge_views(out@) == meanings(raw.take(i as int)),
    {
        let draft = &drafts[i];
        let ghost before = out@;
        proof {
            assert(raw.take(i + 1).drop_last() =~= raw.take(i as int));
            assert(raw.take(i + 1).last() == draft_view(*draft));
        }
        let scheme = string_of(&lowered(&draft.scheme));
        if same(scheme.as_str(), "bearer") {
            match param(&draft.params, "realm") {
                Some(realm) => {
                    let c = AuthChallenge::Bearer(
                        BearerChallenge {
                            realm,
                            service: param(&draft.params, "service"),
                            scope: param(&draft.params, "scope"),
                        },
                    );
                    out.push(c);
                    assert(challenge_views(out@) =~= challenge_views(before).push(c@));
                },
                None => {},
            }
        } else if same(scheme.as_str(), "basic") {
            out.push(AuthChallenge::Basic);
            assert(challenge_views(out@) =~= challenge_views(before).push(ChallengeView::Basic));
        }
    }
    assert(raw.take(raw.len() as int) =~= raw);
    out
}

/// The challenges of several headers.
pub open spec fn all_challenges(headers: Seq<Seq<char>>) -> Seq<ChallengeView>
    decreases headers.len(),
{
    if headers.len() == 0 {
        Seq::empty()
    } else {
        all_challenges(headers.drop_last()) + challenges_of(headers.last())
    }
}

/// Whether a challenge is one to get a token.
pub open spec fn is_bearer(c: ChallengeView) -> bool {
    c is Bearer
}

/// The challenge to act on: the first to get a token, or else the first of the other kind.
pub open spec fn preferred(challenges: Seq<ChallengeView>, i: int) -> Option<ChallengeView>
    decreases challenges.len() - i,
{
    if i < 0 || i >= challenges.len() {
        if challenges.len() > 0 {
            Some(challenges[0])
        } else {
            None
        }
    } else if is_bearer(challenges[i]) {
        Some(challenges[i])
    } else {
        preferred(challenges, i + 1)
    }
}

/// The view of an optional challenge.
pub open spec fn opt_challenge(c: Option<AuthChallenge>) -> Option<ChallengeView> {
    match c {
        Some(c) => Some(c@),
        None => None,
    }
}

/// Picks the challenge to act on from the `WWW-Authenticate` headers of a response.
pub fn select_challenge(headers: &Vec<String>) -> (r: Option<AuthChallenge>)
    ensures
        opt_challenge(r) == preferred(all_challenges(crate::text::views(headers@)), 0),
{
    let ghost values = crate::text::views(headers@);
    let ghost all = all_challenges(values);
    let mut found: Vec<AuthChallenge> = Vec::new();
    assert(values.take(0) =~= Seq::<Seq<char>>::empty());
    assert(challenge_views(found@) =~= Seq::<ChallengeView>::empty());
    for i in 0..headers.len()
        invariant
            values == crate::text::views(headers@),
            challenge_views(found@) == all_challenges(values.take(i as int)),
    {
        let mut parsed = parse_www_authenticate(headers[i].as_str());
        let ghost before = found@;
        let ghost more = parsed@;
        proof {
            assert(values.take(i + 1).drop_last() =~= values.take(i as int));
            assert(values.take(i + 1).last() == headers@[i as int]@);
        }
        found.append(&mut parsed);
        assert(found@ =~= before + more);
        assert(challenge_views(found@) =~= challenge_views(before) + challenge_views(more));
    }
    assert(values.take(values.len() as int) =~= values);
    for i in 0..found.len()
        invariant
            challenge_views(found@) == all,
            all == all_challenges(crate::text::views(headers@)),
            preferred(all, 0) == preferred(all, i as int),
    {
        assert(all[i as int] == found@[i as int]@);
        match &found[i] {
            AuthChallenge::Bearer(_) => {
                return Some(found[i].clone());
            },
            AuthChallenge::Basic => {},
        }
    }
    if found.len() > 0 {
        assert(all[0] == found@[0]@);
        Some(found[0].clone())
    } else {
        None
    }
}

/// A challenge to get a token is answered before any other: the first of them, and the first
/// challenge of all where none asks for a token.
pub proof fn law_a_token_challenge_comes_first(challenges: Seq<ChallengeView>, i: int)
    requires
        0 <= i < challenges.len(),
        forall|k: int| 0 <= k < i ==> !((#[trigger] challenges[k]) is Bearer),
    ensures
        challenges[i] is Bearer ==> preferred(challenges, 0) == Some(challenges[i]),
        (forall|k: int| 0 <= k < challenges.len() ==> !((#[trigger] challenges[k]) is Bearer))
            ==> preferred(challenges, 0) == Some(challenges[0]),
{
    lemma_preferred(challenges, 0, i);
    if forall|k: int| 0 <= k < challenges.len() ==> !((#[trigger] challenges[k]) is Bearer) {
        lemma_preferred(challenges, 0, challenges.len() as int);
    }
}

proof fn lemma_preferred(challenges: Seq<ChallengeView>, from: int, i: int)
    requires
        0 <= from <= i <= challenges.len(),
        forall|k: int| from <= k < i ==> !((#[trigger] challenges[k]) is Bearer),
    ensures
        preferred(challenges, from) == preferred(challenges, i),
    decreases i - from,
{
    if from < i {
        assert(!(challenges[from] is Bearer));
        lemma_preferred(challenges, from + 1, i);
    }
}

/// Without any challenge there is none to answer.
pub proof fn law_no_challenge_is_made_up()
    ensures
        preferred(Seq::empty(), 0) is None,
{
}

/// What a challenge means: its scheme counts in any case, a token challenge needs a realm, and of a
/// parameter that is given more than once the last counts. A scheme that is neither means nothing.
pub proof fn law_a_challenge_means_what_it_says(raw: RawChallenge)
    ensures
        meaning(raw) matches Some(ChallengeView::Basic) ==> lower(raw.scheme) == "basic"@,
        lower(raw.scheme) == "basic"@ ==> (meaning(raw) matches Some(ChallengeView::Basic)),
        meaning(raw) matches Some(ChallengeView::Bearer { realm, service, scope }) ==> {
            &&& lower(raw.scheme) == "bearer"@
            &&& is_last_value(raw.params, "realm"@, Some(realm))
            &&& is_last_value(raw.params, "service"@, service)
            &&& is_last_value(raw.params, "scope"@, scope)
        },
        lower(raw.scheme) == "bearer"@ && meaning(raw) is None ==> is_last_value(
            raw.params,
            "realm"@,
            None,
        ),
        lower(raw.scheme) == "bearer"@ && meaning(raw) is Some ==> (meaning(
            raw,
        ) matches Some(ChallengeView::Bearer { .. })),
{
    reveal_strlit("bearer");
    reveal_strlit("basic");
    assert("bearer"@.len() != "basic"@.len());
    lemma_last_param(raw.params, "realm"@);
    lemma_last_param(raw.params, "service"@);
    lemma_last_param(raw.params, "scope"@);
}

/// Whether that is the value of the last parameter with a key, or nothing where there is none.
pub open spec fn is_last_value(
    params: Seq<(Seq<char>, Seq<char>)>,
    key: Seq<char>,
    value: Option<Seq<char>>,
) -> bool {
    match value {
        None => forall|i: int| 0 <= i < params.len() ==> (#[trigger] params[i]).0 != key,
        Some(v) => exists|i: int|
            0 <= i < params.len() && (#[trigger] params[i]).0 == key && params[i].1 == v && forall|
                j: int,
            |
                i < j < params.len() ==> (#[trigger] params[j]).0 != key,
    }
}

proof fn lemma_last_param(params: Seq<(Seq<char>, Seq<char>)>, key: Seq<char>)
    ensures
        is_last_value(params, key, last_param(params, key)),
    decreases params.len(),
{
    if params.len() > 0 {
        let n = params.len() - 1;
        if params[n].0 == key {
            assert(params[n].1 == params.last().1);
        } else {
            let front = params.drop_last();
            lemma_last_param(front, key);
            match last_param(front, key) {
                None => {
                    assert forall|i: int| 0 <= i < params.len() implies (#[trigger] params[i]).0
                        != key by {
                        if i < n {
                            assert(front[i] == params[i]);
                        }
                    }
                },
                Some(v) => {
                    let i = choose|i: int|
                        0 <= i < front.len() && (#[trigger] front[i]).0 == key && front[i].1 == v
                            && forall|j: int|
                            i < j < front.len() ==> (#[trigger] front[j]).0 != key;
                    assert(params[i] == front[i]);
                    assert forall|j: int| i < j < params.len() implies (#[trigger] params[j]).0
                        != key by {
                        if j < n {
                            assert(front[j] == params[j]);
                        }
                    }
                },
            }
        }
    }
}

/// A text in quotes behind another.
pub open spec fn quoted_behind(head: Seq<char>, value: Seq<char>) -> Seq<char> {
    head + seq!['"'] + value + seq!['"']
}

/// Whether a text can stand in quotes as it is.
pub open spec fn needs_no_escape(value: Seq<char>) -> bool {
    !value.contains('"') && !value.contains('\\')
}

proof fn lemma_quoting_at(s: Seq<char>, start: int, head: Seq<char>, value: Seq<char>, j: int)
    requires
        0 <= start,
        start + head.len() + value.len() + 2 <= s.len(),
        s.subrange(start, start + head.len() + value.len() + 2) == quoted_behind(head, value),
        !head.contains('"'),
        needs_no_escape(value),
        quoting(s, start) == (false, false),
        start <= j <= start + head.len() + value.len() + 2,
    ensures
        quoting(s, j) == (start + head.len() < j <= start + head.len() + value.len() + 1, false),
    decreases j,
{
    let all = quoted_behind(head, value);
    if j > start {
        lemma_quoting_at(s, start, head, value, j - 1);
        let k = j - 1 - start;
        assert(s[j - 1] == all[k]);
        if k < head.len() {
            assert(all[k] == head[k]);
        } else if k == head.len() {
            assert(all[k] == '"');
        } else if k <= head.len() + value.len() {
            assert(all[k] == value[k - head.len() - 1]);
        } else {
            assert(all[k] == '"');
        }
    }
}

proof fn lemma_cut_at(
    s: Seq<char>,
    start: int,
    head: Seq<char>,
    value: Seq<char>,
    i: int,
)
    requires
        0 <= start,
        start + head.len() + value.len() + 2 <= s.len(),
        s.subrange(start, start + head.len() + value.len() + 2) == quoted_behind(head, value),
        !head.contains('"'),
        !head.contains(','),
        needs_no_escape(value),
        quoting(s, start) == (false, false),
        start <= i <= start + head.len() + value.len() + 2,
    ensures
        cut_from(s, start, i) == cut_from(s, start, start + head.len() + value.len() + 2),
    decreases start + head.len() + value.len() + 2 - i,
{
    let end = start + head.len() + value.len() + 2;
    if i < end {
        lemma_cut_at(s, start, head, value, i + 1);
        lemma_quoting_at(s, start, head, value, i);
        let all = quoted_behind(head, value);
        assert(s[i] == all[i - start]);
        if i - start < head.len() {
            assert(s[i] == head[i - start]);
        }
        assert(!separates(s, i));
    }
}

/// A quoted text is one piece, whatever separators it holds, up to the separator behind it.
proof fn lemma_cut_piece(s: Seq<char>, start: int, head: Seq<char>, value: Seq<char>)
    requires
        0 <= start,
        start + head.len() + value.len() + 2 <= s.len(),
        s.subrange(start, start + head.len() + value.len() + 2) == quoted_behind(head, value),
        !head.contains('"'),
        !head.contains(','),
        needs_no_escape(value),
        quoting(s, start) == (false, false),
    ensures
        ({
            let end = start + head.len() + value.len() + 2;
            &&& end == s.len() ==> cut_from(s, start, start) == seq![quoted_behind(head, value)]
            &&& end < s.len() && s[end] == ',' ==> cut_from(s, start, start) == seq![
                quoted_behind(head, value),
            ] + cut_from(s, end + 1, end + 1) && quoting(s, end + 1) == (false, false)
        }),
{
    let end = start + head.len() + value.len() + 2;
    lemma_cut_at(s, start, head, value, start);
    lemma_quoting_at(s, start, head, value, end);
    if end < s.len() && s[end] == ',' {
        assert(separates(s, end));
        assert(quoting(s, end + 1) == (false, false));
    }
}

proof fn lemma_trimmed_stays(s: Seq<char>)
    requires
        s.len() > 0,
        !is_white(s[0]),
        !is_white(s.last()),
    ensures
        trim(s) == s,
{
    let none = Seq::<char>::empty();
    crate::text::law_white_space_around_a_text_is_cut(none, s, none);
    assert(none + s + none =~= s);
}

proof fn lemma_unescaped_stays(s: Seq<char>, i: int)
    requires
        0 <= i <= s.len(),
        !s.contains('\\'),
    ensures
        unescaped(s, i) == s.skip(i),
    decreases s.len() - i,
{
    if i < s.len() {
        lemma_unescaped_stays(s, i + 1);
        assert(s.contains(s[i]));
        assert(seq![s[i]] + s.skip(i + 1) =~= s.skip(i));
    } else {
        assert(s.skip(i) =~= Seq::<char>::empty());
    }
}

proof fn lemma_param_is_read(key: Seq<char>, value: Seq<char>)
    requires
        key.len() > 0,
        forall|i: int| 0 <= i < key.len() ==> 'a' <= #[trigger] key[i] <= 'z',
        needs_no_escape(value),
    ensures
        param_of(quoted_behind(key.push('='), value)) == Some((key, value)),
        scheme_of(quoted_behind(key.push('='), value)) is None,
{
    let segment = quoted_behind(key.push('='), value);
    let n = key.len() as int;
    let behind = seq!['"'] + value + seq!['"'];
    assert(segment =~= key + seq!['='] + behind);
    assert(!key.contains('='));
    crate::text::law_the_nearest_is_found(key, '=', behind);
    assert(segment.take(n) =~= key);
    assert(segment.skip(n + 1) =~= behind);
    assert(key[0] == key[0] && key[n - 1] == key.last());
    lemma_trimmed_stays(key);
    assert(lower(key) =~= key) by {
        assert forall|i: int| 0 <= i < key.len() implies lower(key)[i] == key[i] by {
            crate::text::law_case_is_changed_letter_by_letter(key, i);
        }
    }
    assert(is_key(key)) by {
        assert forall|i: int| 0 <= i < key.len() implies is_key_char(#[trigger] key[i]) by {}
    }
    lemma_trimmed_stays(behind);
    let inner = behind.skip(1);
    assert(inner =~= value + seq!['"']);
    assert(inner.drop_last() =~= value);
    lemma_unescaped_stays(value, 0);
    assert(value.skip(0) =~= value);
    assert(segment[n] == '=');
    assert(!is_scheme_char('='));
    lemma_white_found(segment, 0);
    let w = find_white(segment, 0);
    if w < segment.len() {
        assert(is_white(segment[w]));
        if w <= n {
            if w < n {
                assert(segment[w] == key[w]);
            }
            assert(false);
        }
        assert(segment.take(w)[n] == '=');
        assert(!is_scheme(segment.take(w)));
    } else {
        assert(!is_scheme(segment));
    }
}

proof fn lemma_white_found(s: Seq<char>, i: int)
    requires
        0 <= i <= s.len(),
    ensures
        i <= find_white(s, i) <= s.len(),
        find_white(s, i) < s.len() ==> is_white(s[find_white(s, i)]),
        forall|k: int| i <= k < find_white(s, i) ==> !is_white(#[trigger] s[k]),
    decreases s.len() - i,
{
    if i < s.len() && !is_white(s[i]) {
        lemma_white_found(s, i + 1);
    }
}

/// A challenge to get a token is read as it is written: its realm, its service and its scope are
/// what stands in quotes, commas and spaces included.
pub proof fn law_a_written_challenge_is_read(
    realm: Seq<char>,
    service: Seq<char>,
    scope: Seq<char>,
)
    requires
        needs_no_escape(realm),
        needs_no_escape(service),
        needs_no_escape(scope),
    ensures
        challenges_of(
            "Bearer realm=\""@ + realm + "\",service=\""@ + service + "\",scope=\""@ + scope + "\""@,
        ) == seq![
            ChallengeView::Bearer { realm, service: Some(service), scope: Some(scope) },
        ],
{
    reveal_strlit("Bearer realm=\"");
    reveal_strlit("\",service=\"");
    reveal_strlit("\",scope=\"");
    reveal_strlit("\"");
    reveal_strlit("realm");
    reveal_strlit("service");
    reveal_strlit("scope");
    reveal_strlit("bearer");
    let value = "Bearer realm=\""@ + realm + "\",service=\""@ + service + "\",scope=\""@ + scope
        + "\""@;
    let word = seq!['B', 'e', 'a', 'r', 'e', 'r'];
    let head = word + seq![' '] + "realm"@.push('=');
    let a = quoted_behind(head, realm);
    let b = quoted_behind("service"@.push('='), service);
    let c = quoted_behind("scope"@.push('='), scope);
    let (i, j) = (a.len() as int + 1, a.len() as int + b.len() as int + 2);
    assert(value =~= a + seq![','] + b + seq![','] + c);
    assert(value.subrange(0, a.len() as int) =~= a);
    assert(value.subrange(i, i + b.len()) =~= b);
    assert(value.subrange(j, j + c.len()) =~= c);
    assert(value[i - 1] == ',' && value[j - 1] == ',');
    lemma_cut_piece(value, 0, head, realm);
    lemma_cut_piece(value, i, "service"@.push('='), service);
    lemma_cut_piece(value, j, "scope"@.push('='), scope);
    let pieces = cut_from(value, 0, 0);
    assert(pieces =~= seq![a, b, c]);
    lemma_three_are_gathered(a, b, c, word, realm, service, scope);
}

proof fn lemma_three_are_gathered(
    a: Seq<char>,
    b: Seq<char>,
    c: Seq<char>,
    word: Seq<char>,
    realm: Seq<char>,
    service: Seq<char>,
    scope: Seq<char>,
)
    requires
        word == seq!['B', 'e', 'a', 'r', 'e', 'r'],
        a == quoted_behind(word + seq![' '] + "realm"@.push('='), realm),
        b == quoted_behind("service"@.push('='), service),
        c == quoted_behind("scope"@.push('='), scope),
        needs_no_escape(realm),
        needs_no_escape(service),
        needs_no_escape(scope),
    ensures
        meanings(gathered(tidy(seq![a, b, c]))) == seq![
            ChallengeView::Bearer { realm, service: Some(service), scope: Some(scope) },
        ],
{
    reveal_strlit("realm");
    reveal_strlit("service");
    reveal_strlit("scope");
    reveal_strlit("bearer");
    let none = Seq::<Seq<char>>::empty();
    assert(a[0] == 'B' && a.last() == '"');
    assert(b[0] == 's' && b.last() == '"');
    assert(c[0] == 's' && c.last() == '"');
    lemma_trimmed_stays(a);
    lemma_trimmed_stays(b);
    lemma_trimmed_stays(c);
    assert(seq![a].drop_last() =~= none);
    assert(seq![a, b].drop_last() =~= seq![a]);
    assert(seq![a, b, c].drop_last() =~= seq![a, b]);
    assert(tidy(none) =~= none);
    assert(tidy(seq![a]) =~= seq![a]);
    assert(tidy(seq![a, b]) =~= seq![a, b]);
    assert(tidy(seq![a, b, c]) =~= seq![a, b, c]);
    lemma_param_is_read("realm"@, realm);
    lemma_param_is_read("service"@, service);
    lemma_param_is_read("scope"@, scope);
    let rest = quoted_behind("realm"@.push('='), realm);
    assert(a =~= word + seq![' '] + rest);
    lemma_white_found(a, 0);
    let w = find_white(a, 0);
    assert(a[6] == ' ');
    assert(w == 6) by {
        assert(!(w > 6));
        if w < 6 {
            assert(a[w] == word[w]);
        }
    }
    assert(a.take(6) =~= word);
    assert(a.skip(7) =~= rest);
    assert(is_scheme(word)) by {
        assert forall|k: int| 0 <= k < word.len() implies is_scheme_char(#[trigger] word[k]) by {}
    }
    let first = RawChallenge { scheme: word, params: seq![("realm"@, realm)] };
    assert(gathered(none) =~= Seq::<RawChallenge>::empty());
    assert(gathered(seq![a]) =~= seq![first]);
    let second = RawChallenge {
        scheme: word,
        params: seq![("realm"@, realm), ("service"@, service)],
    };
    assert(first.params.push(("service"@, service)) =~= second.params);
    assert(gathered(seq![a, b]) =~= seq![second]);
    let third = RawChallenge {
        scheme: word,
        params: seq![("realm"@, realm), ("service"@, service), ("scope"@, scope)],
    };
    assert(second.params.push(("scope"@, scope)) =~= third.params);
    assert(gathered(seq![a, b, c]) =~= seq![third]);
    assert(lower(word) =~= "bearer"@) by {
        assert forall|k: int| 0 <= k < 6 implies lower(word)[k] == "bearer"@[k] by {
            crate::text::law_case_is_changed_letter_by_letter(word, k);
        }
    }
    let p = third.params;
    assert("realm"@[0] != "service"@[0] && "scope"@.len() == 5 && "service"@.len() == 7
        && "realm"@[0] != "scope"@[0]);
    assert(p.drop_last() =~= second.params);
    assert(second.params.drop_last() =~= first.params);
    reveal_with_fuel(last_param, 4);
    assert(last_param(p, "scope"@) == Some(scope));
    assert(last_param(p, "service"@) == Some(service));
    assert(last_param(p, "realm"@) == Some(realm));
    let found = ChallengeView::Bearer { realm, service: Some(service), scope: Some(scope) };
    assert(meaning(third) == Some(found));
    assert(seq![third].drop_last() =~= Seq::<RawChallenge>::empty());
    assert(meanings(Seq::<RawChallenge>::empty()) =~= Seq::<ChallengeView>::empty());
    assert(meanings(seq![third]) =~= seq![found]);
}

/// What stands behind a backslash in a quoted value is taken as it is, and a value without quotes
/// as it stands, without white space around it.
pub proof fn law_a_quoted_value_is_unescaped(c: char, rest: Seq<char>, bare: Seq<char>)
    requires
        !rest.contains('\\'),
        bare.len() > 0,
        !is_white(bare[0]),
        !is_white(bare.last()),
        bare[0] != '"',
    ensures
        unescaped(seq!['\\', c] + rest, 0) == seq![c] + rest,
        unescaped(rest, 0) == rest,
        param_value(bare) == bare,
{
    let all = seq!['\\', c] + rest;
    lemma_unescaped_stays(rest, 0);
    assert(rest.skip(0) =~= rest);
    lemma_unescaped_behind(seq!['\\', c], rest, 0);
    lemma_trimmed_stays(bare);
}

proof fn lemma_unescaped_behind(head: Seq<char>, rest: Seq<char>, i: int)
    requires
        0 <= i <= rest.len(),
        !rest.contains('\\'),
    ensures
        unescaped(head + rest, head.len() + i) == rest.skip(i),
    decreases rest.len() - i,
{
    let all = head + rest;
    if i < rest.len() {
        lemma_unescaped_behind(head, rest, i + 1);
        assert(all[head.len() + i] == rest[i]);
        assert(rest.contains(rest[i]));
        assert(seq![rest[i]] + rest.skip(i + 1) =~= rest.skip(i));
    } else {
        assert(rest.skip(i) =~= Seq::<char>::empty());
    }
}

/// A challenge is shown as it is.
pub proof fn law_a_challenge_is_shown_as_it_is(c: AuthChallenge)
    ensures
        c is Basic <==> c@ is Basic,
        c matches AuthChallenge::Bearer(b) ==> (c@ matches ChallengeView::Bearer {
            realm,
            service,
            scope,
        } && realm == b.realm@ && (service is Some <==> b.service is Some) && (scope is Some
            <==> b.scope is Some) && (b.service is Some ==> service->Some_0 == b.service->Some_0@)
            && (b.scope is Some ==> scope->Some_0 == b.scope->Some_0@)),
{
}

/// The challenges of an answer are those of all its headers, one header behind the other.
pub proof fn law_every_header_is_read(a: Seq<Seq<char>>, b: Seq<Seq<char>>, header: Seq<char>)
    ensures
        all_challenges(seq![header]) == challenges_of(header),
        all_challenges(a + b) == all_challenges(a) + all_challenges(b),
    decreases b.len(),
{
    let none = Seq::<Seq<char>>::empty();
    assert(seq![header].drop_last() =~= none);
    assert(all_challenges(none) =~= Seq::<ChallengeView>::empty());
    assert(all_challenges(seq![header]) =~= challenges_of(header));
    if b.len() == 0 {
        assert(a + b =~= a);
        assert(all_challenges(a + b) =~= all_challenges(a) + all_challenges(b));
    } else {
        law_every_header_is_read(a, b.drop_last(), header);
        assert((a + b).drop_last() =~= a + b.drop_last());
        assert((a + b).last() == b.last());
        assert(all_challenges(a + b) =~= all_challenges(a) + all_challenges(b));
    }
}

/// Challenges that are written one behind the other are read one behind the other: each begins with
/// its scheme and has the parameters up to the next, and those that mean nothing are left out.
pub proof fn law_challenges_are_read_one_by_one(
    a: Seq<Seq<char>>,
    b: Seq<Seq<char>>,
    x: Seq<RawChallenge>,
    y: Seq<RawChallenge>,
)
    requires
        b.len() > 0,
        scheme_of(b[0]) is Some,
    ensures
        gathered(a + b) == gathered(a) + gathered(b),
        meanings(x + y) == meanings(x) + meanings(y),
        tidy(a + b) == tidy(a) + tidy(b),
{
    lemma_gathered_adds(a, b);
    lemma_meanings_add(x, y);
    lemma_tidy_adds(a, b);
}

proof fn lemma_gathered_adds(a: Seq<Seq<char>>, b: Seq<Seq<char>>)
    requires
        b.len() > 0,
        scheme_of(b[0]) is Some,
    ensures
        gathered(a + b) == gathered(a) + gathered(b),
        gathered(b).len() > 0,
    decreases b.len(),
{
    let all = a + b;
    assert(all.drop_last() =~= a + b.drop_last());
    assert(all.last() == b.last());
    if b.len() == 1 {
        let none = Seq::<Seq<char>>::empty();
        assert(b.drop_last() =~= none);
        assert(a + none =~= a);
        assert(gathered(none) =~= Seq::<RawChallenge>::empty());
        assert(b.last() == b[0]);
    } else {
        lemma_gathered_adds(a, b.drop_last());
    }
    assert(gathered(all) =~= gathered(a) + gathered(b));
}

proof fn lemma_meanings_add(x: Seq<RawChallenge>, y: Seq<RawChallenge>)
    ensures
        meanings(x + y) == meanings(x) + meanings(y),
    decreases y.len(),
{
    if y.len() == 0 {
        assert(x + y =~= x);
    } else {
        lemma_meanings_add(x, y.drop_last());
        assert((x + y).drop_last() =~= x + y.drop_last());
        assert((x + y).last() == y.last());
    }
    assert(meanings(x + y) =~= meanings(x) + meanings(y));
}

proof fn lemma_tidy_adds(a: Seq<Seq<char>>, b: Seq<Seq<char>>)
    ensures
        tidy(a + b) == tidy(a) + tidy(b),
    decreases b.len(),
{
    if b.len() == 0 {
        assert(a + b =~= a);
    } else {
        lemma_tidy_adds(a, b.drop_last());
        assert((a + b).drop_last() =~= a + b.drop_last());
        assert((a + b).last() == b.last());
    }
    assert(tidy(a + b) =~= tidy(a) + tidy(b));
}

} // verus!
