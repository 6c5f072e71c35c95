//! How requests to a registry are authenticated.
//!
//! A request goes out with a token that was granted before, or without any; a challenge then says
//! where to get one. A credential of a user name and a secret is never sent before a challenge
//! asked for it. A request with a body settles its credential first, on a request without one.

use crate::error::{denied, operational, CliError, ErrorView};
use crate::registry::address::{
    access_denied_message, denied_message, keys_of, needed_scope, opt_str, scope_hint,
    token_cache_keys, Method,
};
use crate::registry::challenge::{
    opt, opt_challenge, AuthChallenge, BearerChallenge, ChallengeView,
};
use crate::registry::status::{is_success, status_ok, Status};
use crate::text::{cat2, cat3, cat4, owned, views};
use vstd::hash_map::StringHashMap;
use vstd::prelude::*;

verus! {

/// What a client can prove itself by.
#[derive(Debug, PartialEq, Eq)]
pub enum RegistryCredential {
    /// A user name and a secret, to be exchanged for a token or sent as they are.
    Basic { username: String, secret: String },
    /// A token that was minted before.
    Bearer { token: String },
}

/// The credential of a login, by the name of its scheme.
pub fn credential_of_login(scheme: &str, token: String, username: String) -> (r: Option<
    RegistryCredential,
>)
    ensures
        r == if scheme@ == "bearer"@ {
            Some(RegistryCredential::Bearer { token })
        } else if scheme@ == "basic"@ {
            Some(RegistryCredential::Basic { username, secret: token })
        } else {
            None
        },
{
    if crate::text::same(scheme, "bearer") {
        Some(RegistryCredential::Bearer { token })
    } else if crate::text::same(scheme, "basic") {
        Some(RegistryCredential::Basic { username, secret: token })
    } else {
        None
    }
}

/// How one request is authenticated.
#[derive(Debug, PartialEq, Eq)]
pub enum RequestAuth {
    Anonymous,
    /// With the user name and the secret of the credential.
    Basic,
    Bearer(String),
}

/// How one request is authenticated, by its texts.
pub enum AuthView {
    Anonymous,
    Basic,
    Bearer(Seq<char>),
}

impl View for RequestAuth {
    type V = AuthView;

    open spec fn view(&self) -> AuthView {
        match self {
            RequestAuth::Anonymous => AuthView::Anonymous,
            RequestAuth::Basic => AuthView::Basic,
            RequestAuth::Bearer(token) => AuthView::Bearer(token@),
        }
    }
}

// ---------------------------------------------------------------------------
// Tokens
// ---------------------------------------------------------------------------

/// A token and the time up to which it is good, in nanoseconds of the client's clock.
#[derive(Debug, PartialEq, Eq)]
pub struct CachedToken {
    pub token: String,
    pub expires_at: u128,
}

/// The tokens that a client was granted, by the scope of one action.
pub struct TokenCache {
    tokens: StringHashMap<CachedToken>,
}

impl View for TokenCache {
    type V = Map<Seq<char>, CachedToken>;

    closed spec fn view(&self) -> Map<Seq<char>, CachedToken> {
        self.tokens@
    }
}

/// The token for a scope, if one is held that is still good. A token without a scope stands in for
/// one that is not held.
pub open spec fn held_token(
    tokens: Map<Seq<char>, CachedToken>,
    scope: Option<Seq<char>>,
    now: int,
) -> Option<Seq<char>> {
    match scope {
        None => None,
        Some(scope) => {
            let key = if tokens.contains_key(scope) {
                scope
            } else {
                Seq::empty()
            };
            if tokens.contains_key(key) && tokens[key].expires_at > now {
                Some(tokens[key].token@)
            } else {
                None
            }
        },
    }
}

/// How long a token is used, in seconds: ten less than it was granted for, and a grant counts as a
/// minute at least.
pub open spec fn seconds_good(expires_in: Option<u64>) -> int {
    let granted = match expires_in {
        Some(n) => if n < 60 {
            60
        } else {
            n as int
        },
        None => 60,
    };
    granted - 10
}

/// Whether a token has been filed under some keys, and nothing else has changed.
pub open spec fn filed(
    before: Map<Seq<char>, CachedToken>,
    after: Map<Seq<char>, CachedToken>,
    keys: Seq<Seq<char>>,
    token: Seq<char>,
    expires_at: int,
) -> bool {
    &&& forall|key: Seq<char>|
        keys.contains(key) ==> #[trigger] after.contains_key(key) && after[key].token@ == token
            && after[key].expires_at == expires_at
    &&& forall|key: Seq<char>|
        !keys.contains(key) ==> (#[trigger] after.contains_key(key) <==> before.contains_key(key))
            && (before.contains_key(key) ==> after[key] == before[key])
}

impl TokenCache {
    /// A cache without tokens.
    pub fn new() -> (r: TokenCache)
        ensures
            r@ == Map::<Seq<char>, CachedToken>::empty(),
    {
        TokenCache { tokens: StringHashMap::new() }
    }

    /// The token to send a request with, if one is held that is still good.
    pub fn cached_token(&self, method: Method, path: &str, now: u128) -> (r: Option<String>)
        ensures
            opt(r) == held_token(self@, needed_scope(method, path@), now as int),
    {
        let scope = match scope_hint(method, path) {
            None => {
                return None;
            },
            Some(scope) => scope,
        };
        proof {
            reveal_strlit("");
            assert(""@ =~= Seq::<char>::empty());
        }
        let held: Option<&CachedToken> = match self.tokens.get(scope.as_str()) {
            Some(token) => Some(token),
            None => self.tokens.get(""),
        };
        match held {
            Some(cached) => {
                if cached.expires_at > now {
                    Some(cached.token.clone())
                } else {
                    None
                }
            },
            None => None,
        }
    }

    /// Files a token that was granted for a scope.
    pub fn file(&mut self, scope: Option<&str>, token: &str, expires_in: Option<u64>, now: u128)
        requires
            now <= 0x4000_0000_0000_0000_0000_0000_0000_0000,
        ensures
            filed(
                old(self)@,
                final(self)@,
                keys_of(opt_str(scope)),
                token@,
                now + seconds_good(expires_in) * 1_000_000_000,
            ),
    {
        let granted: u64 = match expires_in {
            Some(n) => {
                if n < 60 {
                    60
                } else {
                    n
                }
            },
            None => 60,
        };
        let expires_at: u128 = now + (granted as u128 - 10) * 1_000_000_000;
        let keys = token_cache_keys(scope);
        let ghost all = views(keys@);
        for i in 0..keys.len()
            invariant
                all == views(keys@),
                filed(old(self)@, self@, all.take(i as int), token@, expires_at as int),
        {
            let ghost before = self@;
            let ghost some = all.take(i as int);
            self.tokens.insert(keys[i].clone(), CachedToken { token: owned(token), expires_at });
            proof {
                let more = all.take(i + 1);
                assert(more =~= some.push(keys@[i as int]@));
                assert forall|key: Seq<char>| more.contains(key) implies some.contains(key) || key
                    == keys@[i as int]@ by {
                    let k = more.index_of(key);
                    if k < i {
                        assert(some[k] == key);
                    }
                }
                assert forall|key: Seq<char>| some.contains(key) implies more.contains(key) by {
                    let k = some.index_of(key);
                    assert(more[k] == key);
                }
                assert(more[i as int] == keys@[i as int]@);
                assert(more.contains(keys@[i as int]@));
            }
        }
        assert(all.take(all.len() as int) =~= all);
    }
}

/// A token is found again, for as long as it is good, by every key that it was filed under.
pub proof fn law_a_filed_token_is_found(
    before: Map<Seq<char>, CachedToken>,
    after: Map<Seq<char>, CachedToken>,
    keys: Seq<Seq<char>>,
    token: Seq<char>,
    expires_at: int,
    scope: Seq<char>,
    now: int,
)
    requires
        filed(before, after, keys, token, expires_at),
        keys.contains(scope),
        now < expires_at,
    ensures
        held_token(after, Some(scope), now) == Some(token),
{
    assert(after.contains_key(scope));
}

/// What a token service is asked for.
pub fn exchange_query(challenge: &BearerChallenge) -> (r: Vec<(String, String)>)
    ensures
        ({
            let service = opt(challenge.service);
            let scope = opt(challenge.scope);
            &&& r@.len() == (if service is Some {
                1int
            } else {
                0int
            }) + (if scope is Some {
                1int
            } else {
                0int
            })
            &&& service is Some ==> r@[0].0@ == "service"@ && Some(r@[0].1@) == service
            &&& scope is Some ==> r@.last().0@ == "scope"@ && Some(r@.last().1@) == scope
        }),
{
    let mut out: Vec<(String, String)> = Vec::new();
    match &challenge.service {
        Some(service) => {
            out.push((owned("service"), service.clone()));
        },
        None => {},
    }
    match &challenge.scope {
        Some(scope) => {
            out.push((owned("scope"), scope.clone()));
        },
        None => {},
    }
    out
}

/// What is wrong with a token service's status.
pub open spec fn token_fault(status: Status, realm: Seq<char>, has_credential: bool) -> Option<
    ErrorView,
> {
    if status.code == 401 || status.code == 403 {
        Some(
            denied(
                if has_credential {
                    "registry rejected the credentials at "@ + realm
                } else {
                    "authentication required for "@ + realm + "; run orc login"@
                },
            ),
        )
    } else if !is_success(status.code) {
        Some(
            operational(
                "registry token endpoint "@ + realm + " returned "@ + status.text@,
            ),
        )
    } else {
        None
    }
}

/// Reads the status of a token service's answer.
pub fn token_status(status: &Status, realm: &str, has_credential: bool) -> (r: Result<(), CliError>)
    ensures
        match token_fault(*status, realm@, has_credential) {
            None => r is Ok,
            Some(f) => r matches Err(e) && e@ == f,
        },
{
    if status.code == 401 || status.code == 403 {
        return Err(
            CliError::Auth(
                if has_credential {
                    cat2("registry rejected the credentials at ", realm)
                } else {
                    cat3("authentication required for ", realm, "; run orc login")
                },
            ),
        );
    }
    if !status_ok(status.code) {
        return Err(
            CliError::Operational(
                cat4("registry token endpoint ", realm, " returned ", status.text.as_str()),
            ),
        );
    }
    Ok(())
}

/// A text, if it is there and not empty.
pub open spec fn filled(s: Option<Seq<char>>) -> Option<Seq<char>> {
    match s {
        Some(s) => if s.len() > 0 {
            Some(s)
        } else {
            None
        },
        None => None,
    }
}

/// The token of a token service's answer, which names it in either of two fields.
pub fn choose_token(token: Option<String>, access_token: Option<String>, realm: &str) -> (r: Result<
    String,
    CliError,
>)
    ensures
        match (filled(opt(token)), filled(opt(access_token))) {
            (Some(t), _) => r matches Ok(s) && s@ == t,
            (None, Some(t)) => r matches Ok(s) && s@ == t,
            (None, None) => r matches Err(e) && e@ == operational(
                "token endpoint "@ + realm@ + " returned no token"@,
            ),
        },
{
    match token {
        Some(t) => {
            if !t.as_str().is_empty() {
                return Ok(t);
            }
        },
        None => {},
    }
    match access_token {
        Some(t) => {
            if !t.as_str().is_empty() {
                return Ok(t);
            }
        },
        None => {},
    }
    Err(CliError::Operational(cat3("token endpoint ", realm, " returned no token")))
}

// ---------------------------------------------------------------------------
// Requests
// ---------------------------------------------------------------------------

/// How a request goes out first: with a token that is held, or with one that was minted before, or
/// without anything. A user name and a secret are not sent.
pub fn first_auth(cached: Option<String>, credential: &Option<RegistryCredential>) -> (r: RequestAuth)
    ensures
        r@ == match (opt(cached), credential) {
            (Some(token), _) => AuthView::Bearer(token),
            (None, Some(RegistryCredential::Bearer { token })) => AuthView::Bearer(token@),
            _ => AuthView::Anonymous,
        },
        !(r is Basic),
{
    match cached {
        Some(token) => RequestAuth::Bearer(token),
        None => match credential {
            Some(RegistryCredential::Bearer { token }) => RequestAuth::Bearer(token.clone()),
            _ => RequestAuth::Anonymous,
        },
    }
}

/// Whether the credential has to be settled before a request goes out: one with a body must not
/// leave without.
pub fn needs_preflight(has_body: bool, auth: &RequestAuth) -> (r: bool)
    ensures
        r == (has_body && (auth is Anonymous)),
{
    match auth {
        RequestAuth::Anonymous => has_body,
        _ => false,
    }
}

/// What is to be done for the next attempt.
#[derive(Debug, PartialEq, Eq)]
pub enum AuthStep {
    /// Send the request this way.
    Send(RequestAuth),
    /// Get a token and send the request with it.
    Exchange(BearerChallenge),
}

/// What is to be done for the next attempt, by its texts.
pub enum StepView {
    Send(AuthView),
    Exchange { realm: Seq<char>, service: Option<Seq<char>>, scope: Option<Seq<char>> },
}

impl View for AuthStep {
    type V = StepView;

    open spec fn view(&self) -> StepView {
        match self {
            AuthStep::Send(auth) => StepView::Send(auth@),
            AuthStep::Exchange(c) => StepView::Exchange {
                realm: c.realm@,
                service: opt(c.service),
                scope: opt(c.scope),
            },
        }
    }
}

/// The kind of a credential.
pub open spec fn is_bearer_credential(credential: Option<RegistryCredential>) -> bool {
    credential matches Some(RegistryCredential::Bearer { .. })
}

/// The kind of a credential.
pub open spec fn is_basic_credential(credential: Option<RegistryCredential>) -> bool {
    credential matches Some(RegistryCredential::Basic { .. })
}

/// The error about a challenge that the client cannot answer.
pub open spec fn unanswered(path: Seq<char>, has_credential: bool) -> ErrorView {
    denied(
        if has_credential {
            "registry rejected stored credentials for "@ + path + "; re-run orc login"@
        } else {
            "authentication required for "@ + path + "; run orc login"@
        },
    )
}

fn cannot_answer(path: &str, has_credential: bool) -> (r: CliError)
    ensures
        r@ == unanswered(path@, has_credential),
{
    CliError::Auth(
        if has_credential {
            cat3("registry rejected stored credentials for ", path, "; re-run orc login")
        } else {
            cat3("authentication required for ", path, "; run orc login")
        },
    )
}

/// How the credential of a request with a body is settled, from the answer to a request without
/// one. The token is asked for the scope that the request needs.
pub open spec fn settled(
    code: u16,
    challenge: Option<ChallengeView>,
    credential: Option<RegistryCredential>,
    method: Method,
    path: Seq<char>,
) -> Result<StepView, ErrorView> {
    if code != 401 {
        Ok(StepView::Send(AuthView::Anonymous))
    } else {
        match challenge {
            Some(ChallengeView::Bearer { realm, service, scope }) => if is_basic_credential(
                credential,
            ) {
                Ok(
                    StepView::Exchange {
                        realm,
                        service,
                        scope: match needed_scope(method, path) {
                            Some(needed) => Some(needed),
                            None => scope,
                        },
                    },
                )
            } else {
                Err(unanswered(path, credential is Some))
            },
            _ => if is_basic_credential(credential) {
                Ok(StepView::Send(AuthView::Basic))
            } else {
                Err(unanswered(path, credential is Some))
            },
        }
    }
}

/// Settles the credential of a request with a body.
pub fn preflight_auth(
    code: u16,
    challenge: Option<AuthChallenge>,
    credential: &Option<RegistryCredential>,
    method: Method,
    path: &str,
) -> (r: Result<AuthStep, CliError>)
    ensures
        match settled(code, opt_challenge(challenge), *credential, method, path@) {
            Ok(step) => r matches Ok(s) && s@ == step,
            Err(f) => r matches Err(e) && e@ == f,
        },
{
    if code != 401 {
        return Ok(AuthStep::Send(RequestAuth::Anonymous));
    }
    let basic: bool = match credential {
        Some(RegistryCredential::Basic { .. }) => true,
        _ => false,
    };
    if !basic {
        return Err(cannot_answer(path, credential.is_some()));
    }
    match challenge {
        Some(AuthChallenge::Bearer(c)) => {
            let scope: Option<String> = match scope_hint(method, path) {
                Some(needed) => Some(needed),
                None => c.scope,
            };
            Ok(
                AuthStep::Exchange(
                    BearerChallenge { realm: c.realm, service: c.service, scope },
                ),
            )
        },
        _ => Ok(AuthStep::Send(RequestAuth::Basic)),
    }
}

/// What follows the answer to a request: nothing, one more attempt, or an error. There is at most
/// one more attempt.
pub open spec fn follow_up(
    code: u16,
    retried: bool,
    challenge: Option<ChallengeView>,
    credential: Option<RegistryCredential>,
    base: Seq<char>,
    path: Seq<char>,
) -> Result<Option<StepView>, ErrorView> {
    if code == 403 {
        Err(denied(denied_message(base, path)))
    } else if code != 401 {
        Ok(None)
    } else if retried {
        Err(denied("registry access denied for "@ + path))
    } else {
        match challenge {
            Some(ChallengeView::Bearer { realm, service, scope }) => if !is_bearer_credential(
                credential,
            ) {
                Ok(Some(StepView::Exchange { realm, service, scope }))
            } else {
                Err(unanswered(path, true))
            },
            _ => if is_basic_credential(credential) {
                Ok(Some(StepView::Send(AuthView::Basic)))
            } else {
                Err(unanswered(path, credential is Some))
            },
        }
    }
}

/// The attempts at one request.
#[derive(Debug, PartialEq, Eq)]
pub struct Attempts {
    pub retried: bool,
}

impl Attempts {
    /// No attempt yet.
    pub fn new() -> (r: Attempts)
        ensures
            !r.retried,
    {
        Attempts { retried: false }
    }

    /// Reads the answer to an attempt: `None` if it is the answer to the request.
    pub fn answered(
        &mut self,
        code: u16,
        challenge: Option<AuthChallenge>,
        credential: &Option<RegistryCredential>,
        base: &str,
        path: &str,
    ) -> (r: Result<Option<AuthStep>, CliError>)
        ensures
            match follow_up(
                code,
                old(self).retried,
                opt_challenge(challenge),
                *credential,
                base@,
                path@,
            ) {
                Ok(None) => r matches Ok(None),
                Ok(Some(step)) => r matches Ok(Some(s)) && s@ == step,
                Err(f) => r matches Err(e) && e@ == f,
            },
            final(self).retried == (old(self).retried || code == 401),
            r matches Ok(Some(_)) ==> !old(self).retried,
    {
        if code == 403 {
            return Err(CliError::Auth(access_denied_message(base, path)));
        }
        if code != 401 {
            return Ok(None);
        }
        if self.retried {
            return Err(CliError::Auth(cat2("registry access denied for ", path)));
        }
        self.retried = true;
        let basic: bool = match credential {
            Some(RegistryCredential::Basic { .. }) => true,
            _ => false,
        };
        match challenge {
            Some(AuthChallenge::Bearer(c)) => {
                if basic || credential.is_none() {
                    Ok(Some(AuthStep::Exchange(c)))
                } else {
                    Err(cannot_answer(path, true))
                }
            },
            _ => {
                if basic {
                    Ok(Some(AuthStep::Send(RequestAuth::Basic)))
                } else {
                    Err(cannot_answer(path, credential.is_some()))
                }
            },
        }
    }
}

/// A token that was minted before is never exchanged: once it is rejected, the request fails.
pub proof fn law_a_minted_token_is_final(
    retried: bool,
    challenge: Option<ChallengeView>,
    credential: Option<RegistryCredential>,
    base: Seq<char>,
    path: Seq<char>,
)
    requires
        is_bearer_credential(credential),
    ensures
        follow_up(401, retried, challenge, credential, base, path) is Err,
{
}

/// The first challenge to get a token is answered by getting one: with the realm, the service and
/// the scope of that very challenge, for every client that does not hold a minted token, one
/// without any credential included. Only a minted token makes it an error.
pub proof fn law_a_challenge_leads_to_an_exchange(
    realm: Seq<char>,
    service: Option<Seq<char>>,
    scope: Option<Seq<char>>,
    credential: Option<RegistryCredential>,
    base: Seq<char>,
    path: Seq<char>,
)
    ensures
        ({
            let challenge = Some(ChallengeView::Bearer { realm, service, scope });
            let next = follow_up(401, false, challenge, credential, base, path);
            match credential {
                Some(RegistryCredential::Bearer { .. }) => next is Err,
                _ => next matches Ok(Some(StepView::Exchange { realm: r, service: s, scope: p }))
                    && r == realm && s == service && p == scope,
            }
        }),
{
}

/// Where no token is to be had, a user name and a secret are sent as they are, and a client without
/// them fails.
pub proof fn law_a_secret_is_sent_only_when_asked(
    challenge: Option<ChallengeView>,
    credential: Option<RegistryCredential>,
    base: Seq<char>,
    path: Seq<char>,
)
    requires
        !(challenge matches Some(ChallengeView::Bearer { .. })),
    ensures
        match credential {
            Some(RegistryCredential::Basic { .. }) => follow_up(
                401,
                false,
                challenge,
                credential,
                base,
                path,
            ) matches Ok(Some(StepView::Send(auth))) && auth is Basic,
            _ => follow_up(401, false, challenge, credential, base, path) is Err,
        },
{
}

/// Only a 401 is tried again, and only once: a second one and every 403 are errors of access, and
/// any other answer is the answer to the request, whatever came before and whoever asks.
pub proof fn law_a_request_is_tried_twice_at_most(
    code: u16,
    retried: bool,
    challenge: Option<ChallengeView>,
    credential: Option<RegistryCredential>,
    base: Seq<char>,
    path: Seq<char>,
)
    ensures
        ({
            let next = follow_up(code, retried, challenge, credential, base, path);
            &&& (next matches Ok(None)) <==> code != 401 && code != 403
            &&& next matches Ok(Some(_)) ==> code == 401 && !retried
            &&& next matches Err(e) ==> e.kind is Auth
            &&& code == 403 || (code == 401 && retried) ==> next is Err
        }),
{
}

/// A request with a body leaves only once its credential is settled. Where the registry asks for
/// nothing it goes out without any. Where it asks for a token, a user name and a secret are
/// exchanged for one, at the realm and the service of the challenge, for the scope that the request
/// needs and for that of the challenge where none is known. Where no token is to be had they are
/// sent as they are. A client without them fails.
pub proof fn law_a_body_never_leaves_unsettled(
    code: u16,
    challenge: Option<ChallengeView>,
    credential: Option<RegistryCredential>,
    method: Method,
    path: Seq<char>,
)
    ensures
        ({
            let next = settled(code, challenge, credential, method, path);
            let has_secret = credential matches Some(RegistryCredential::Basic { .. });
            &&& code != 401 ==> (next matches Ok(StepView::Send(auth)) && auth is Anonymous)
            &&& code == 401 && !has_secret ==> next is Err
            &&& code == 401 && has_secret ==> match challenge {
                Some(ChallengeView::Bearer { realm, service, scope }) => {
                    &&& next matches Ok(StepView::Exchange { realm: r, service: s, scope: p })
                    &&& r == realm
                    &&& s == service
                    &&& needed_scope(method, path) is Some ==> p == needed_scope(method, path)
                    &&& needed_scope(method, path) is None ==> p == scope
                },
                _ => next matches Ok(StepView::Send(auth)) && auth is Basic,
            }
        }),
{
}

/// A token is used for ten seconds less than it was granted for, and for fifty where it was granted
/// for less than a minute or for no told time.
pub proof fn law_a_token_is_given_up_before_it_expires(expires_in: Option<u64>)
    ensures
        match expires_in {
            Some(n) => if n >= 60 {
                seconds_good(expires_in) + 10 == n
            } else {
                seconds_good(expires_in) == 50
            },
            None => seconds_good(expires_in) == 50,
        },
{
}

/// Only a token that is still good is used, and only one for the scope itself, or one without any
/// scope where there is none for it. A token for another scope never is.
pub proof fn law_only_a_good_token_for_the_scope_is_used(
    tokens: Map<Seq<char>, CachedToken>,
    scope: Seq<char>,
    now: int,
)
    ensures
        ({
            let held = held_token(tokens, Some(scope), now);
            let general = Seq::<char>::empty();
            if tokens.contains_key(scope) {
                held == (if tokens[scope].expires_at > now {
                    Some(tokens[scope].token@)
                } else {
                    None
                })
            } else if tokens.contains_key(general) && tokens[general].expires_at > now {
                held == Some(tokens[general].token@)
            } else {
                held is None
            }
        }),
        held_token(tokens, None, now) is None,
{
}

/// A token service's answer is read by its code: a success is taken, a refusal is one of access,
/// and anything else is a failure of the service.
pub proof fn law_a_token_service_is_read_by_its_code(
    status: Status,
    realm: Seq<char>,
    has_credential: bool,
)
    ensures
        token_fault(status, realm, has_credential) is None <==> 200 <= status.code <= 299,
        token_fault(status, realm, has_credential) matches Some(e) ==> (e.kind is Auth
            <==> status.code == 401 || status.code == 403),
{
}

/// The next step of a request is shown as it is.
pub proof fn law_a_step_is_shown_as_it_is(step: AuthStep, auth: RequestAuth)
    ensures
        auth@ is Anonymous <==> auth is Anonymous,
        auth@ is Basic <==> auth is Basic,
        auth matches RequestAuth::Bearer(token) ==> auth@ == AuthView::Bearer(token@),
        step matches AuthStep::Send(a) ==> step@ == StepView::Send(a@),
        step matches AuthStep::Exchange(c) ==> (step@ matches StepView::Exchange {
            realm,
            service,
            scope,
        } && realm == c.realm@ && (service is Some <==> c.service is Some) && (scope is Some
            <==> c.scope is Some) && (c.service is Some ==> service->Some_0 == c.service->Some_0@)
            && (c.scope is Some ==> scope->Some_0 == c.scope->Some_0@)),
{
}

/// An empty text is as good as none.
pub proof fn law_an_empty_text_is_none(s: Seq<char>)
    ensures
        s.len() > 0 ==> filled(Some(s)) == Some(s),
        filled(Some(Seq::empty())) is None,
        filled(None) is None,
{
}

/// A client that is refused is told to log in, and told so differently if it had credentials.
pub proof fn law_a_refusal_tells_of_the_credentials(
    challenge: Option<ChallengeView>,
    credential: Option<RegistryCredential>,
    base: Seq<char>,
    path: Seq<char>,
)
    ensures
        follow_up(401, false, challenge, credential, base, path) matches Err(e) ==> {
            &&& e.kind is Auth
            &&& credential is Some ==> e.message == "registry rejected stored credentials for "@ + path
                + "; re-run orc login"@
            &&& credential is None ==> e.message == "authentication required for "@ + path
                + "; run orc login"@
        },
{
}

/// Filing a token changes nothing for a scope that it was not granted for.
pub proof fn law_filing_a_token_leaves_the_others(
    before: Map<Seq<char>, CachedToken>,
    after: Map<Seq<char>, CachedToken>,
    keys: Seq<Seq<char>>,
    token: Seq<char>,
    expires_at: int,
    scope: Seq<char>,
    now: int,
)
    requires
        filed(before, after, keys, token, expires_at),
        !keys.contains(scope),
        !keys.contains(Seq::empty()),
    ensures
        held_token(after, Some(scope), now) == held_token(before, Some(scope), now),
{
    let general = Seq::<char>::empty();
    assert(after.contains_key(scope) <==> before.contains_key(scope));
    assert(after.contains_key(general) <==> before.contains_key(general));
}

} // verus!
