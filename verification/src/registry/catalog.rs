//! Listing what a registry holds.

use crate::app::ManifestDocument;
use crate::text::{cat2, chars_of, owned, same, slice_string, starts_with, views};
use vstd::prelude::*;

verus! {

/// How many names one page of the catalog holds.
pub const PAGE: usize = 100;

/// A walk over the pages of a registry's catalog.
#[derive(Debug, PartialEq, Eq)]
pub struct CatalogWalk {
    pub repositories: Vec<String>,
    /// The name that the last page ended with.
    pub last: String,
    pub done: bool,
}

/// The path of the next page.
pub open spec fn page_path(last: Seq<char>) -> Seq<char> {
    if last.len() == 0 {
        "/v2/_catalog?n=100"@
    } else {
        "/v2/_catalog?n=100"@ + "&last="@ + last
    }
}

/// A name below a namespace: what follows the namespace in it.
pub open spec fn below_namespace(name: Seq<char>, namespace: Seq<char>) -> Option<Seq<char>> {
    if namespace.len() == 0 {
        Some(name)
    } else if (namespace + "/"@).is_prefix_of(name) {
        Some(name.skip(namespace.len() as int + 1))
    } else {
        None
    }
}

/// The names below a namespace.
pub open spec fn names_below(names: Seq<Seq<char>>, namespace: Seq<char>) -> Seq<Seq<char>>
    decreases names.len(),
{
    if names.len() == 0 {
        Seq::empty()
    } else {
        match below_namespace(names.last(), namespace) {
            Some(name) => names_below(names.drop_last(), namespace).push(name),
            None => names_below(names.drop_last(), namespace),
        }
    }
}

/// Whether a walk ends with a page: with an empty one, with one that was not full, or with one
/// that ends where the last one did.
pub open spec fn ends_with_page(
    gathered: Seq<Seq<char>>,
    last: Seq<char>,
    page: Seq<Seq<char>>,
) -> bool {
    page.len() == 0 || (gathered + page).len() % 100 != 0 || page.last() == last
}

impl CatalogWalk {
    /// A walk before the first page.
    pub fn new() -> (r: CatalogWalk)
        ensures
            views(r.repositories@) == Seq::<Seq<char>>::empty(),
            r.last@ == Seq::<char>::empty(),
            !r.done,
    {
        let r = CatalogWalk { repositories: Vec::new(), last: String::new(), done: false };
        assert(views(r.repositories@) =~= Seq::<Seq<char>>::empty());
        r
    }

    /// The path of the next page.
    pub fn path(&self) -> (r: String)
        ensures
            r@ == page_path(self.last@),
    {
        if self.last.as_str().is_empty() {
            owned("/v2/_catalog?n=100")
        } else {
            crate::text::cat3("/v2/_catalog?n=100", "&last=", self.last.as_str())
        }
    }

    /// Takes a page.
    pub fn page(&mut self, names: Vec<String>)
        requires
            !old(self).done,
        ensures
            views(final(self).repositories@) == views(old(self).repositories@) + views(names@),
            final(self).done == ends_with_page(
                views(old(self).repositories@),
                old(self).last@,
                views(names@),
            ),
            final(self).last@ == (if final(self).done {
                old(self).last@
            } else {
                views(names@).last()
            }),
    {
        let ghost before = self.repositories@;
        let ghost more = names@;
        if names.len() == 0 {
            self.done = true;
            assert(views(self.repositories@) =~= views(before) + views(more));
            return;
        }
        let page_last: String = names[names.len() - 1].clone();
        let mut names = names;
        self.repositories.append(&mut names);
        proof {
            assert(self.repositories@ =~= before + more);
            assert(views(self.repositories@) =~= views(before) + views(more));
            assert(views(more).last() == page_last@);
        }
        if self.repositories.len() % PAGE != 0 || same(page_last.as_str(), self.last.as_str()) {
            self.done = true;
        } else {
            self.last = page_last;
        }
    }

    /// The names that were found below a namespace, without it.
    pub fn names(&self, namespace: &str) -> (r: Vec<String>)
        ensures
            views(r@) == names_below(views(self.repositories@), namespace@),
    {
        let ghost all = views(self.repositories@);
        let prefix = cat2(namespace, "/");
        let cut: usize = chars_of(prefix.as_str()).len();
        proof {
            reveal_strlit("/");
        }
        let whole = namespace.is_empty();
        let mut out: Vec<String> = Vec::new();
        assert(all.take(0) =~= Seq::<Seq<char>>::empty());
        assert(views(out@) =~= Seq::<Seq<char>>::empty());
        for i in 0..self.repositories.len()
            invariant
                all == views(self.repositories@),
                prefix@ == namespace@ + "/"@,
                cut == namespace@.len() + 1,
                cut == prefix@.len(),
                whole == (namespace@.len() == 0),
                views(out@) == names_below(all.take(i as int), namespace@),
        {
            let name = &self.repositories[i];
            let ghost before = out@;
            proof {
                assert(all.take(i + 1).drop_last() =~= all.take(i as int));
                assert(all.take(i + 1).last() == name@);
            }
            if whole {
                out.push(name.clone());
                assert(views(out@) =~= views(before).push(name@));
            } else {
                let chars = chars_of(name.as_str());
                if starts_with(&chars, prefix.as_str()) {
                    let rest = slice_string(&chars, cut, chars.len());
                    assert(rest@ =~= name@.skip(cut as int));
                    out.push(rest);
                    assert(views(out@) =~= views(before).push(rest@));
                }
            }
        }
        assert(all.take(all.len() as int) =~= all);
        out
    }
}

/// A document that refers to another one.
#[derive(Debug, PartialEq, Eq)]
pub struct ReferrerDescriptor {
    pub media_type: String,
    pub digest: String,
    pub size: i64,
    pub artifact_type: Option<String>,
    pub annotations: Vec<(String, String)>,
}

/// Whether a document is of a type.
pub open spec fn of_type(d: ReferrerDescriptor, artifact_type: Seq<char>) -> bool {
    d.artifact_type matches Some(t) && t@ == artifact_type
}

/// The documents of a type, in their order.
pub open spec fn of_that_type(all: Seq<ReferrerDescriptor>, artifact_type: Seq<char>) -> Seq<
    ReferrerDescriptor,
>
    decreases all.len(),
{
    if all.len() == 0 {
        Seq::empty()
    } else if of_type(all.last(), artifact_type) {
        of_that_type(all.drop_last(), artifact_type).push(all.last())
    } else {
        of_that_type(all.drop_last(), artifact_type)
    }
}

/// The documents of a type, or all of them where none is given.
pub fn filter_referrers(referrers: Vec<ReferrerDescriptor>, artifact_type: Option<&str>) -> (r: Vec<
    ReferrerDescriptor,
>)
    ensures
        match artifact_type {
            None => r@ == referrers@,
            Some(t) => r@ == of_that_type(referrers@, t@),
        },
{
    let want: &str = match artifact_type {
        None => {
            return referrers;
        },
        Some(t) => t,
    };
    let ghost all = referrers@;
    let mut rest = referrers;
    let mut kept: Vec<ReferrerDescriptor> = Vec::new();
    assert(all.take(all.len() as int) =~= all);
    assert(kept@.reverse() =~= Seq::<ReferrerDescriptor>::empty());
    assert(of_that_type(all, want@) =~= of_that_type(rest@, want@) + kept@.reverse());
    while rest.len() > 0
        invariant
            of_that_type(all, want@) == of_that_type(rest@, want@) + kept@.reverse(),
        decreases rest@.len(),
    {
        let ghost before = rest@;
        let ghost kept_before = kept@;
        match rest.pop() {
            None => {},
            Some(d) => {
                assert(rest@ =~= before.drop_last());
                assert(d == before.last());
                let matches_type: bool = match &d.artifact_type {
                    Some(t) => same(t.as_str(), want),
                    None => false,
                };
                if matches_type {
                    kept.push(d);
                    assert(kept@.reverse() =~= seq![d] + kept_before.reverse());
                    assert(of_that_type(rest@, want@).push(d) + kept_before.reverse()
                        =~= of_that_type(rest@, want@) + kept@.reverse());
                }
            },
        }
    }
    assert(of_that_type(rest@, want@) =~= Seq::<ReferrerDescriptor>::empty());
    let mut out: Vec<ReferrerDescriptor> = Vec::new();
    let ghost final_kept = kept@;
    assert(of_that_type(all, want@) =~= final_kept.reverse());
    assert(out@ + kept@.reverse() =~= final_kept.reverse());
    while kept.len() > 0
        invariant
            out@ + kept@.reverse() == final_kept.reverse(),
        decreases kept@.len(),
    {
        let ghost before = kept@;
        let ghost out_before = out@;
        match kept.pop() {
            None => {},
            Some(d) => {
                assert(kept@ =~= before.drop_last());
                out.push(d);
                assert(before.reverse() =~= seq![d] + kept@.reverse());
                assert(out_before + (seq![d] + kept@.reverse()) =~= out@ + kept@.reverse());
            },
        }
    }
    assert(kept@.reverse() =~= Seq::<ReferrerDescriptor>::empty());
    assert(out@ + Seq::<ReferrerDescriptor>::empty() =~= out@);
    out
}

/// Whether a list holds a document of that digest.
pub open spec fn holds_digest(all: Seq<ReferrerDescriptor>, digest: Seq<char>) -> bool {
    exists|i: int| 0 <= i < all.len() && (#[trigger] all[i]).digest@ == digest
}

/// Adds a document to a list of referrers. `None` if it is there already: adding it again changes
/// nothing.
pub fn add_referrer(referrers: Vec<ReferrerDescriptor>, referrer: ReferrerDescriptor) -> (r: Option<
    Vec<ReferrerDescriptor>,
>)
    ensures
        match r {
            None => holds_digest(referrers@, referrer.digest@),
            Some(list) => !holds_digest(referrers@, referrer.digest@) && list@
                == referrers@.push(referrer),
        },
{
    for i in 0..referrers.len()
        invariant
            forall|k: int|
                0 <= k < i ==> (#[trigger] referrers@[k]).digest@ != referrer.digest@,
    {
        if same(referrers[i].digest.as_str(), referrer.digest.as_str()) {
            return None;
        }
    }
    let mut list = referrers;
    list.push(referrer);
    Some(list)
}

/// Adding a document a second time changes nothing.
pub proof fn law_adding_again_changes_nothing(
    before: Seq<ReferrerDescriptor>,
    referrer: ReferrerDescriptor,
)
    ensures
        holds_digest(before.push(referrer), referrer.digest@),
{
    let after = before.push(referrer);
    assert(after[after.len() - 1].digest@ == referrer.digest@);
}

/// The tag under which the list of what refers to a manifest is kept: its digest, with `-` for
/// each `:`.
pub open spec fn tag_of(digest: Seq<char>) -> Seq<char> {
    digest.map_values(|c: char| if c == ':' { '-' } else { c })
}

/// The tag under which the list of what refers to a manifest is kept.
pub fn referrers_tag(digest: &str) -> (r: String)
    ensures
        r@ == tag_of(digest@),
{
    let chars = chars_of(digest);
    let mut out = String::new();
    for i in 0..chars.len()
        invariant
            chars@ == digest@,
            out@ == tag_of(digest@.take(i as int)),
    {
        let c = chars[i];
        out.push(if c == ':' { '-' } else { c });
        assert(out@ =~= tag_of(digest@.take(i + 1)));
    }
    assert(digest@.take(digest@.len() as int) =~= digest@);
    out
}

/// Where the configuration of a package is described.
#[derive(Debug, PartialEq, Eq)]
pub enum ConfigPlace {
    /// Under this digest.
    Here(String),
    /// In the manifest with this digest.
    Child(String),
    /// Nowhere.
    Missing,
}

/// Where the configuration of a package is described: in its manifest, or in the first one that
/// its index lists.
pub fn config_place(document: &ManifestDocument) -> (r: ConfigPlace)
    ensures
        match document {
            ManifestDocument::Manifest(m) => r == ConfigPlace::Here(m.config.digest),
            ManifestDocument::Index(index) => if index.manifests@.len() == 0 {
                r == ConfigPlace::Missing
            } else {
                r == ConfigPlace::Child(index.manifests@[0].digest)
            },
        },
{
    match document {
        ManifestDocument::Manifest(m) => ConfigPlace::Here(m.config.digest.clone()),
        ManifestDocument::Index(index) => if index.manifests.len() == 0 {
            ConfigPlace::Missing
        } else {
            ConfigPlace::Child(index.manifests[0].digest.clone())
        },
    }
}

/// The digest of the configuration that a listed manifest describes. An index in its place
/// describes none.
pub fn listed_config(document: &ManifestDocument) -> (r: Option<String>)
    ensures
        r == match document {
            ManifestDocument::Manifest(m) => Some(m.config.digest),
            ManifestDocument::Index(_) => None,
        },
{
    match document {
        ManifestDocument::Manifest(m) => Some(m.config.digest.clone()),
        ManifestDocument::Index(_) => None,
    }
}

/// A walk of the catalog goes on exactly behind a full page that brought something new: an empty
/// page ends it, and so does one that is short of the hundred asked for, or one that ends where the
/// page before it ended.
pub proof fn law_a_walk_goes_on_behind_a_full_page(
    gathered: Seq<Seq<char>>,
    last: Seq<char>,
    page: Seq<Seq<char>>,
)
    requires
        gathered.len() % 100 == 0,
    ensures
        page.len() == 0 ==> ends_with_page(gathered, last, page),
        0 < page.len() < 100 ==> ends_with_page(gathered, last, page),
        page.len() == 100 ==> (ends_with_page(gathered, last, page) <==> page[99] == last),
{
}

/// The names of a namespace are those of the repositories below it, without the namespace, all of
/// them and in their order; without a namespace they are all the repositories.
pub proof fn law_a_namespace_lists_what_is_below_it(
    names: Seq<Seq<char>>,
    namespace: Seq<char>,
    name: Seq<char>,
)
    ensures
        namespace.len() == 0 ==> names_below(names, namespace) == names,
        namespace.len() > 0 ==> (names_below(names, namespace).contains(name) <==> names.contains(
            namespace.push('/') + name,
        )),
    decreases names.len(),
{
    reveal_strlit("/");
    if names.len() > 0 {
        law_a_namespace_lists_what_is_below_it(names.drop_last(), namespace, name);
        let front = names.drop_last();
        let last = names.last();
        let wanted = namespace.push('/') + name;
        let before = names_below(front, namespace);
        let after = names_below(names, namespace);
        assert(names =~= front.push(last));
        assert(namespace + "/"@ =~= namespace.push('/'));
        if namespace.len() == 0 {
            assert(after =~= names);
        } else {
            let head = namespace.push('/');
            let below = last.skip(head.len() as int);
            if head.is_prefix_of(last) {
                assert(last =~= head + below);
                assert(after =~= before.push(below));
                if below == name {
                    assert(after.last() == name);
                    assert(after.contains(name));
                    assert(names.contains(last));
                }
                assert(wanted.skip(head.len() as int) =~= name);
            } else {
                assert(last != wanted) by {
                    assert(head.is_prefix_of(wanted));
                }
            }
            if before.contains(name) {
                let k = before.index_of(name);
                assert(after[k] == name);
                let j = front.index_of(wanted);
                assert(names[j] == wanted);
            }
            if after.contains(name) && !before.contains(name) {
                let k = after.index_of(name);
                assert(k == before.len()) by {
                    if k < before.len() {
                        assert(before[k] == name);
                    }
                }
                assert(last == wanted);
                assert(names[names.len() - 1] == wanted);
            }
            if names.contains(wanted) {
                let j = names.index_of(wanted);
                if j < front.len() {
                    assert(front[j] == wanted);
                    assert(before.contains(name));
                    let k = before.index_of(name);
                    assert(after[k] == name);
                }
            }
        }
    }
}

/// Of the referrers those of a type are kept: all of them, none else, and in their order.
pub proof fn law_referrers_of_a_type_are_kept(
    all: Seq<ReferrerDescriptor>,
    artifact_type: Seq<char>,
    d: ReferrerDescriptor,
)
    ensures
        of_that_type(all, artifact_type).contains(d) <==> all.contains(d) && (
        d.artifact_type matches Some(t) && t@ == artifact_type),
        of_that_type(all, artifact_type) == all.filter(
            |e: ReferrerDescriptor| e.artifact_type matches Some(t) && t@ == artifact_type,
        ),
{
    broadcast use vstd::seq_lib::group_filter_ensures;

    let keep = |e: ReferrerDescriptor| e.artifact_type matches Some(t) && t@ == artifact_type;
    lemma_of_that_type(all, artifact_type);
    let kept = all.filter(keep);
    if kept.contains(d) {
        let k = kept.index_of(d);
        all.lemma_filter_contains_rev(keep, d);
        assert(keep(kept[k]));
    }
    if all.contains(d) && keep(d) {
        let k = all.index_of(d);
        assert(kept.contains(all[k]));
    }
}

proof fn lemma_of_that_type(all: Seq<ReferrerDescriptor>, artifact_type: Seq<char>)
    ensures
        of_that_type(all, artifact_type) == all.filter(
            |e: ReferrerDescriptor| e.artifact_type matches Some(t) && t@ == artifact_type,
        ),
    decreases all.len(),
{
    reveal(Seq::filter);
    if all.len() > 0 {
        lemma_of_that_type(all.drop_last(), artifact_type);
    }
}

/// The tag that stands for a digest is the digest with a hyphen for each colon, so two digests
/// share one only if they differ in nothing else.
pub proof fn law_a_digest_is_written_as_a_tag(digest: Seq<char>, i: int)
    requires
        0 <= i < digest.len(),
    ensures
        tag_of(digest).len() == digest.len(),
        digest[i] == ':' ==> tag_of(digest)[i] == '-',
        digest[i] != ':' ==> tag_of(digest)[i] == digest[i],
{
}

/// A page of the catalog is asked for with its size, behind the last name of the page before it,
/// and with the catalog's own scope.
pub proof fn law_a_page_is_asked_for_behind_the_last(last: Seq<char>)
    ensures
        page_path(Seq::empty()) == "/v2/_catalog?n=100"@,
        last.len() > 0 ==> page_path(last) == "/v2/_catalog?n=100&last="@ + last,
        crate::registry::address::needed_scope(
            crate::registry::address::Method::Get,
            page_path(last),
        ) == Some("registry:catalog:*"@),
{
    reveal_strlit("/v2/_catalog?n=100");
    reveal_strlit("&last=");
    reveal_strlit("/v2/_catalog?n=100&last=");
    reveal_strlit("/v2/_catalog");
    reveal_strlit("?");
    reveal_strlit("n=100");
    assert("/v2/_catalog?n=100"@ + "&last="@ + last =~= "/v2/_catalog?n=100&last="@ + last);
    let query = if last.len() == 0 {
        "n=100"@
    } else {
        "n=100"@ + "&last="@ + last
    };
    assert(page_path(last) =~= "/v2/_catalog"@ + "?"@ + query);
    crate::registry::address::law_the_catalog_has_its_own_scope(
        crate::registry::address::Method::Get,
        query,
        last,
    );
}

} // verus!
