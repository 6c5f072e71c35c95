//! The documents that describe an app package in a registry.

use crate::text::{cat3, lemma_less_total, lemma_less_trans, less, same, str_less, views};
use vstd::prelude::*;

verus! {

/// `artifactType` of an app package.
pub const APP_ARTIFACT_TYPE: &'static str = "application/vnd.orc8r.app.v1";

/// Media type of an app package's configuration.
pub const APP_CONFIG_MEDIA_TYPE: &'static str = "application/vnd.orc8r.app.config.v1+json";

/// `artifactType` of the recipe that a package was built from.
pub const RECIPE_ARTIFACT_TYPE: &'static str = "application/vnd.orc8r.recipe.v1";

/// Media type of the recipe's text.
pub const RECIPE_MEDIA_TYPE: &'static str = "application/vnd.orc8r.recipe.v1+yaml";

/// Media type of an image index.
pub const OCI_IMAGE_INDEX: &'static str = "application/vnd.oci.image.index.v1+json";

/// What a package runs on.
#[derive(Debug, PartialEq, Eq)]
pub struct Platform {
    pub os: String,
    pub architecture: String,
}

/// The name of a platform.
pub open spec fn platform_label(p: Platform) -> Seq<char> {
    p.os@ + "/"@ + p.architecture@
}

impl Platform {
    /// The name of the platform.
    pub fn label(&self) -> (r: String)
        ensures
            r@ == platform_label(*self),
    {
        cat3(self.os.as_str(), "/", self.architecture.as_str())
    }
}

impl Clone for Platform {
    fn clone(&self) -> (r: Platform)
        ensures
            r == *self,
    {
        Platform { os: self.os.clone(), architecture: self.architecture.clone() }
    }
}

/// A reference to content: its type, its digest and its size.
#[derive(Debug, PartialEq, Eq)]
pub struct Descriptor {
    pub media_type: String,
    pub digest: String,
    pub size: i64,
    pub platform: Option<Platform>,
    pub annotations: Vec<(String, String)>,
}

/// A manifest: one configuration and the layers that go with it.
#[derive(Debug, PartialEq, Eq)]
pub struct ImageManifest {
    pub schema_version: u32,
    pub artifact_type: String,
    pub config: Descriptor,
    pub layers: Vec<Descriptor>,
    pub annotations: Vec<(String, String)>,
}

/// An index of manifests, one for each platform.
#[derive(Debug, PartialEq, Eq)]
pub struct ImageIndex {
    pub manifests: Vec<Descriptor>,
    pub annotations: Vec<(String, String)>,
}

/// What a reference names.
#[derive(Debug, PartialEq, Eq)]
pub enum ManifestDocument {
    Manifest(ImageManifest),
    Index(ImageIndex),
}

/// The value of an annotation.
pub open spec fn value_of(annotations: Seq<(String, String)>, key: Seq<char>) -> Option<Seq<char>>
    decreases annotations.len(),
{
    if annotations.len() == 0 {
        None
    } else if annotations[0].0@ == key {
        Some(annotations[0].1@)
    } else {
        value_of(annotations.drop_first(), key)
    }
}

/// The value of an annotation, if it is there.
pub fn annotation(annotations: &Vec<(String, String)>, key: &str) -> (r: Option<String>)
    ensures
        match r {
            Some(value) => value_of(annotations@, key@) == Some(value@),
            None => value_of(annotations@, key@) is None,
        },
{
    assert(annotations@.skip(0) =~= annotations@);
    for i in 0..annotations.len()
        invariant
            value_of(annotations@, key@) == value_of(annotations@.skip(i as int), key@),
    {
        let ghost rest = annotations@.skip(i as int);
        assert(rest[0] == annotations@[i as int]);
        assert(rest.drop_first() =~= annotations@.skip(i + 1));
        if same(annotations[i].0.as_str(), key) {
            return Some(annotations[i].1.clone());
        }
    }
    None
}

/// The value of an annotation, empty where it is not there.
pub open spec fn value_or_empty(annotations: Seq<(String, String)>, key: Seq<char>) -> Seq<char> {
    match value_of(annotations, key) {
        Some(value) => value,
        None => Seq::empty(),
    }
}

/// The value of an annotation, empty where it is not there.
pub fn annotation_or_empty(annotations: &Vec<(String, String)>, key: &str) -> (r: String)
    ensures
        r@ == value_or_empty(annotations@, key@),
{
    match annotation(annotations, key) {
        Some(value) => value,
        None => String::new(),
    }
}

// ---------------------------------------------------------------------------
// Endpoints
// ---------------------------------------------------------------------------

/// What an endpoint speaks.
#[derive(Debug, Clone, Copy, PartialEq, Eq, Structural)]
pub enum EndpointProtocol {
    Tcp,
    Udp,
    Http,
    Https,
}

impl Default for EndpointProtocol {
    fn default() -> (r: Self)
        ensures
            r == EndpointProtocol::Tcp,
    {
        EndpointProtocol::Tcp
    }
}

/// A command: a line for the shell, or a program and its arguments.
#[derive(Debug, PartialEq, Eq)]
pub enum CommandValue {
    Shell(String),
    Argv(Vec<String>),
}

/// A command as a value.
pub enum CommandView {
    Shell(Seq<char>),
    Argv(Seq<Seq<char>>),
}

impl View for CommandValue {
    type V = CommandView;

    open spec fn view(&self) -> CommandView {
        match self {
            CommandValue::Shell(line) => CommandView::Shell(line@),
            CommandValue::Argv(argv) => CommandView::Argv(views(argv@)),
        }
    }
}

impl Clone for CommandValue {
    fn clone(&self) -> (r: CommandValue)
        ensures
            r@ == self@,
    {
        match self {
            CommandValue::Shell(line) => CommandValue::Shell(line.clone()),
            CommandValue::Argv(argv) => {
                let mut copy: Vec<String> = Vec::new();
                for i in 0..argv.len()
                    invariant
                        copy.len() == i,
                        forall|j: int| 0 <= j < i ==> (#[trigger] copy@[j])@ == argv@[j]@,
                {
                    copy.push(argv[i].clone());
                }
                assert(views(copy@) =~= views(argv@));
                CommandValue::Argv(copy)
            },
        }
    }
}

/// How an endpoint is probed, as far as its author says.
#[derive(Debug, PartialEq, Eq)]
pub struct EndpointProbe {
    pub command: Option<CommandValue>,
    /// The path to get.
    pub http: Option<String>,
    pub tcp: Option<bool>,
    pub interval: Option<String>,
    pub timeout: Option<String>,
}

impl Default for EndpointProbe {
    fn default() -> (r: Self)
        ensures
            r.command is None,
            r.http is None,
            r.tcp is None,
            r.interval is None,
            r.timeout is None,
    {
        EndpointProbe { command: None, http: None, tcp: None, interval: None, timeout: None }
    }
}

/// An endpoint that an app declares.
#[derive(Debug, PartialEq, Eq)]
pub struct AppEndpoint {
    pub port: u16,
    pub protocol: EndpointProtocol,
    pub probe: Option<EndpointProbe>,
}

/// What an app declares: its endpoints by name, in the order of the names.
pub struct AppConfig {
    endpoints: Vec<(String, AppEndpoint)>,
}

/// The names of the endpoints.
pub open spec fn endpoint_names(endpoints: Seq<(String, AppEndpoint)>) -> Seq<Seq<char>> {
    endpoints.map_values(|e: (String, AppEndpoint)| e.0@)
}

/// Whether names ascend, so that none occurs twice.
pub open spec fn ascending(names: Seq<Seq<char>>) -> bool {
    forall|i: int, j: int| 0 <= i < j < names.len() ==> less(#[trigger] names[i], #[trigger] names[j])
}

/// Where a name belongs among ascending names: behind those that are less.
pub open spec fn place_of(names: Seq<Seq<char>>, name: Seq<char>) -> int
    decreases names.len(),
{
    if names.len() > 0 && less(names[0], name) {
        1 + place_of(names.drop_first(), name)
    } else {
        0
    }
}

/// The endpoints with one more, which takes the place of one of the same name.
pub open spec fn with_endpoint(
    endpoints: Seq<(String, AppEndpoint)>,
    added: (String, AppEndpoint),
) -> Seq<(String, AppEndpoint)> {
    let names = endpoint_names(endpoints);
    let at = place_of(names, added.0@);
    if at < names.len() && names[at] == added.0@ {
        endpoints.update(at, added)
    } else {
        endpoints.insert(at, added)
    }
}

proof fn lemma_place_of(names: Seq<Seq<char>>, name: Seq<char>)
    requires
        ascending(names),
    ensures
        0 <= place_of(names, name) <= names.len(),
        forall|i: int| 0 <= i < place_of(names, name) ==> less(#[trigger] names[i], name),
        place_of(names, name) < names.len() ==> !less(names[place_of(names, name)], name),
    decreases names.len(),
{
    if names.len() > 0 && less(names[0], name) {
        let rest = names.drop_first();
        assert forall|i: int, j: int| 0 <= i < j < rest.len() implies less(
            #[trigger] rest[i],
            #[trigger] rest[j],
        ) by {
            assert(less(names[i + 1], names[j + 1]));
        }
        lemma_place_of(rest, name);
        assert forall|i: int| 0 <= i < place_of(names, name) implies less(
            #[trigger] names[i],
            name,
        ) by {
            if i > 0 {
                assert(less(rest[i - 1], name));
            }
        }
        if place_of(names, name) < names.len() {
            assert(rest[place_of(rest, name)] == names[place_of(names, name)]);
        }
    }
}

proof fn lemma_place_is(names: Seq<Seq<char>>, name: Seq<char>, at: int)
    requires
        0 <= at <= names.len(),
        forall|i: int| 0 <= i < at ==> less(#[trigger] names[i], name),
        at < names.len() ==> !less(names[at], name),
    ensures
        place_of(names, name) == at,
    decreases names.len(),
{
    if at > 0 {
        assert(less(names[0], name));
        let rest = names.drop_first();
        assert forall|i: int| 0 <= i < at - 1 implies less(#[trigger] rest[i], name) by {
            assert(less(names[i + 1], name));
        }
        if at < names.len() {
            assert(rest[at - 1] == names[at]);
        }
        lemma_place_is(rest, name, at - 1);
    }
}

impl AppConfig {
    /// The endpoints.
    pub closed spec fn declared(&self) -> Seq<(String, AppEndpoint)> {
        self.endpoints@
    }

    /// The names ascend.
    pub open spec fn wf(&self) -> bool {
        ascending(endpoint_names(self.declared()))
    }

    /// An app without endpoints.
    pub fn new() -> (r: AppConfig)
        ensures
            r.wf(),
            r.declared() == Seq::<(String, AppEndpoint)>::empty(),
    {
        AppConfig { endpoints: Vec::new() }
    }

    /// The endpoints, in the order of their names.
    pub fn endpoints(&self) -> (r: &Vec<(String, AppEndpoint)>)
        ensures
            r@ == self.declared(),
    {
        &self.endpoints
    }

    /// Declares an endpoint. One that was declared under the name before is replaced.
    pub fn declare(&mut self, name: String, endpoint: AppEndpoint)
        requires
            old(self).wf(),
        ensures
            final(self).wf(),
            final(self).declared() == with_endpoint(old(self).declared(), (name, endpoint)),
    {
        let ghost names = endpoint_names(self.endpoints@);
        let ghost before = self.endpoints@;
        let mut at: usize = 0;
        while at < self.endpoints.len() && str_less(self.endpoints[at].0.as_str(), name.as_str())
            invariant
                at <= self.endpoints.len(),
                self.endpoints@ == before,
                names == endpoint_names(before),
                forall|i: int| 0 <= i < at ==> less(#[trigger] names[i], name@),
            decreases self.endpoints.len() - at,
        {
            assert(names[at as int] == self.endpoints@[at as int].0@);
            at = at + 1;
        }
        proof {
            if at < before.len() {
                assert(names[at as int] == before[at as int].0@);
            }
            lemma_place_is(names, name@, at as int);
            lemma_endpoint_added(before, (name, endpoint));
        }
        if at < self.endpoints.len() && same(self.endpoints[at].0.as_str(), name.as_str()) {
            self.endpoints.set(at, (name, endpoint));
        } else {
            self.endpoints.insert(at, (name, endpoint));
        }
    }
}

impl Default for AppConfig {
    fn default() -> (r: Self)
        ensures
            r.wf(),
            r.declared() == Seq::<(String, AppEndpoint)>::empty(),
    {
        AppConfig::new()
    }
}

proof fn lemma_endpoint_added(
    endpoints: Seq<(String, AppEndpoint)>,
    added: (String, AppEndpoint),
)
    requires
        ascending(endpoint_names(endpoints)),
    ensures
        ascending(endpoint_names(with_endpoint(endpoints, added))),
{
    let names = endpoint_names(endpoints);
    let name = added.0@;
    let at = place_of(names, name);
    lemma_place_of(names, name);
    let after = endpoint_names(with_endpoint(endpoints, added));
    if at < names.len() && names[at] == name {
        assert(after =~= names);
    } else {
        assert(after =~= names.insert(at, name));
        assert forall|i: int, j: int| 0 <= i < j < after.len() implies less(
            #[trigger] after[i],
            #[trigger] after[j],
        ) by {
            if at < names.len() {
                lemma_less_total(names[at], name);
                assert(less(name, names[at]));
            }
            if j < at {
                assert(less(names[i], names[j]));
            } else if j == at {
                assert(less(names[i], name));
            } else if i < at {
                assert(less(names[i], names[j - 1]));
            } else if i == at {
                if j - 1 > at {
                    assert(less(names[at], names[j - 1]));
                    lemma_less_trans(name, names[at], names[j - 1]);
                }
            } else {
                assert(less(names[i - 1], names[j - 1]));
            }
        }
    }
}

/// The value of an annotation is that of the first with its key, and there is one if any has it.
pub proof fn law_the_first_annotation_counts(
    annotations: Seq<(String, String)>,
    key: Seq<char>,
    i: int,
)
    requires
        0 <= i <= annotations.len(),
        forall|k: int| 0 <= k < i ==> (#[trigger] annotations[k]).0@ != key,
    ensures
        i < annotations.len() && annotations[i].0@ == key ==> value_of(annotations, key) == Some(
            annotations[i].1@,
        ),
        i < annotations.len() && annotations[i].0@ == key ==> value_or_empty(annotations, key)
            == annotations[i].1@,
        i == annotations.len() ==> value_of(annotations, key) is None,
        i == annotations.len() ==> value_or_empty(annotations, key).len() == 0,
    decreases i,
{
    if i > 0 {
        let rest = annotations.drop_first();
        assert(annotations[0].0@ != key);
        assert forall|k: int| 0 <= k < i - 1 implies (#[trigger] rest[k]).0@ != key by {
            assert(rest[k] == annotations[k + 1]);
        }
        law_the_first_annotation_counts(rest, key, i - 1);
    }
}

/// An endpoint that is declared is there under its name, once; the others stay as they were, and
/// none of them is lost.
pub proof fn law_a_declared_endpoint_is_there_once(
    endpoints: Seq<(String, AppEndpoint)>,
    added: (String, AppEndpoint),
    e: (String, AppEndpoint),
)
    requires
        forall|i: int, j: int|
            0 <= i < j < endpoints.len() ==> less(
                #[trigger] endpoints[i].0@,
                #[trigger] endpoints[j].0@,
            ),
    ensures
        ({
            let after = with_endpoint(endpoints, added);
            &&& after.contains(added)
            &&& e.0@ != added.0@ ==> (after.contains(e) <==> endpoints.contains(e))
            &&& e.0@ == added.0@ && after.contains(e) ==> e == added
            &&& forall|i: int, j: int|
                0 <= i < j < after.len() ==> less(#[trigger] after[i].0@, #[trigger] after[j].0@)
        }),
{
    let names = endpoint_names(endpoints);
    assert forall|i: int, j: int| 0 <= i < j < names.len() implies less(
        #[trigger] names[i],
        #[trigger] names[j],
    ) by {
        assert(names[i] == endpoints[i].0@);
        assert(names[j] == endpoints[j].0@);
    }
    lemma_place_of(names, added.0@);
    let at = place_of(names, added.0@);
    let after = with_endpoint(endpoints, added);
    let replaced = at < names.len() && names[at] == added.0@;
    assert(after[at] == added);
    assert forall|i: int| 0 <= i < endpoints.len() && (i < at || (i == at && !replaced) || i > at)
        implies after.contains(#[trigger] endpoints[i]) by {
        if i < at {
            assert(after[i] == endpoints[i]);
        } else if replaced {
            assert(after[i] == endpoints[i]);
        } else {
            assert(after[i + 1] == endpoints[i]);
        }
    }
    assert forall|i: int| 0 <= i < at implies less((#[trigger] endpoints[i]).0@, added.0@) by {
        assert(names[i] == endpoints[i].0@);
    }
    assert forall|i: int| at < i < endpoints.len() implies less(
        added.0@,
        (#[trigger] endpoints[i]).0@,
    ) by {
        assert(names[at] == endpoints[at].0@);
        assert(less(endpoints[at].0@, endpoints[i].0@));
        crate::text::lemma_less_total(names[at], added.0@);
        if names[at] != added.0@ {
            crate::text::lemma_less_trans(added.0@, names[at], endpoints[i].0@);
        }
    }
    if at < endpoints.len() {
        assert(names[at] == endpoints[at].0@);
        crate::text::lemma_less_total(endpoints[at].0@, added.0@);
    }
    crate::text::lemma_less_total(added.0@, added.0@);
    if endpoints.contains(e) {
        let k = endpoints.index_of(e);
        assert(endpoints[k] == e);
        if e.0@ != added.0@ {
            assert(after.contains(endpoints[k]));
        }
    }
    if after.contains(e) {
        let k = after.index_of(e);
        assert(after[k] == e);
        if k != at {
            if k < at {
                assert(endpoints[k] == e);
            } else if replaced {
                assert(endpoints[k] == e);
            } else {
                assert(endpoints[k - 1] == e);
            }
        }
    }
    assert forall|i: int, j: int| 0 <= i < j < after.len() implies less(
        #[trigger] after[i].0@,
        #[trigger] after[j].0@,
    ) by {
        if replaced {
            if i != at {
                assert(after[i] == endpoints[i]);
            }
            if j != at {
                assert(after[j] == endpoints[j]);
            }
        } else {
            if i < at {
                assert(after[i] == endpoints[i]);
            } else if i > at {
                assert(after[i] == endpoints[i - 1]);
            }
            if j < at {
                assert(after[j] == endpoints[j]);
            } else if j > at {
                assert(after[j] == endpoints[j - 1]);
            }
        }
    }
}

/// A command is shown as the line or as the words that it is.
pub proof fn law_a_command_is_shown_as_it_is(c: CommandValue)
    ensures
        c matches CommandValue::Shell(line) ==> c@ == CommandView::Shell(line@),
        c matches CommandValue::Argv(argv) ==> (c@ matches CommandView::Argv(words) && words.len()
            == argv@.len() && forall|i: int|
            0 <= i < words.len() ==> #[trigger] words[i] == argv@[i]@),
{
}

/// A platform is named by its system and its processor, with a slash between them.
pub proof fn law_a_platform_is_named_by_its_parts(p: Platform)
    ensures
        platform_label(p) == p.os@ + seq!['/'] + p.architecture@,
{
    reveal_strlit("/");
    assert("/"@ =~= seq!['/']);
}

} // verus!
