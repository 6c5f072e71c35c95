//! How the content of an artifact is encrypted, as its descriptors declare it.

use crate::app::{annotation, value_of};
use crate::error::{is_operational, CliError};
use crate::text::{cat3, chars_of, ends_with, owned, same, slice_string};
use vstd::prelude::*;

verus! {

/// What the media type of encrypted content ends with.
pub const ENCRYPTED_SUFFIX: &'static str = "+encrypted";

/// The annotation that names the scheme.
pub const ANNOTATION_SCHEME: &'static str = "org.orc8r.enc.scheme";

/// The annotation that names the key.
pub const ANNOTATION_KEY_ID: &'static str = "org.orc8r.enc.key-id";

/// The scheme of a stream of sealed frames.
pub const SCHEME_SEALED_STREAM: &'static str = "sealed-stream.v1";

/// How content is encrypted.
#[derive(Debug, PartialEq, Eq)]
pub enum Encryption {
    /// It is not.
    Plain,
    /// It is a stream of sealed frames under the key of that name.
    Sealed { key_id: String },
}

/// Whether a media type is one of encrypted content.
pub open spec fn is_encrypted(media_type: Seq<char>) -> bool {
    ENCRYPTED_SUFFIX@.is_suffix_of(media_type)
}

/// The media type of the content once it is decrypted.
pub open spec fn plain(media_type: Seq<char>) -> Seq<char> {
    if is_encrypted(media_type) {
        media_type.take(media_type.len() - ENCRYPTED_SUFFIX@.len())
    } else {
        media_type
    }
}

/// The media type of the content once it is decrypted.
pub fn plain_media_type(media_type: &str) -> (r: String)
    ensures
        r@ == plain(media_type@),
{
    let chars = chars_of(media_type);
    if ends_with(&chars, ENCRYPTED_SUFFIX) {
        let suffix = chars_of(ENCRYPTED_SUFFIX);
        slice_string(&chars, 0, chars.len() - suffix.len())
    } else {
        owned(media_type)
    }
}

/// What an artifact declares: whether any of its content is encrypted, and under which key; or
/// the annotation that is missing.
pub open spec fn declaration(
    annotations: Seq<(String, String)>,
    media_types: Seq<Seq<char>>,
) -> Result<Option<Seq<char>>, Seq<char>> {
    if !exists|i: int| 0 <= i < media_types.len() && is_encrypted(#[trigger] media_types[i]) {
        Ok(None)
    } else if value_of(annotations, ANNOTATION_SCHEME@) != Some(SCHEME_SEALED_STREAM@) {
        Err(ANNOTATION_SCHEME@)
    } else {
        match value_of(annotations, ANNOTATION_KEY_ID@) {
            Some(key_id) => if key_id.len() > 0 {
                Ok(Some(key_id))
            } else {
                Err(ANNOTATION_KEY_ID@)
            },
            None => Err(ANNOTATION_KEY_ID@),
        }
    }
}

/// The message about an annotation that encrypted content has to carry.
pub open spec fn declaration_message(key: Seq<char>) -> Seq<char> {
    "encrypted content does not carry a usable "@ + key + " annotation"@
}

/// The key that content is encrypted under, if it is encrypted.
pub open spec fn sealed_under(e: Encryption) -> Option<Seq<char>> {
    match e {
        Encryption::Plain => None,
        Encryption::Sealed { key_id } => Some(key_id@),
    }
}

/// Reads how an artifact's content is encrypted from its annotations and the media types of its
/// descriptors.
pub fn declared(annotations: &Vec<(String, String)>, media_types: &Vec<String>) -> (r: Result<
    Encryption,
    CliError,
>)
    ensures
        match declaration(annotations@, crate::text::views(media_types@)) {
            Ok(key) => r matches Ok(e) && sealed_under(e) == key,
            Err(key) => r matches Err(e) && is_operational(e, declaration_message(key)),
        },
{
    let ghost types = crate::text::views(media_types@);
    let mut encrypted = false;
    for i in 0..media_types.len()
        invariant
            types == crate::text::views(media_types@),
            encrypted == exists|k: int| 0 <= k < i && is_encrypted(#[trigger] types[k]),
    {
        assert(types[i as int] == media_types@[i as int]@);
        if ends_with(&chars_of(media_types[i].as_str()), ENCRYPTED_SUFFIX) {
            assert(is_encrypted(types[i as int]));
            encrypted = true;
        }
    }
    if !encrypted {
        return Ok(Encryption::Plain);
    }
    let known: bool = match annotation(annotations, ANNOTATION_SCHEME) {
        Some(scheme) => same(scheme.as_str(), SCHEME_SEALED_STREAM),
        None => false,
    };
    if !known {
        return Err(missing(ANNOTATION_SCHEME));
    }
    match annotation(annotations, ANNOTATION_KEY_ID) {
        Some(key_id) => {
            if key_id.as_str().is_empty() {
                Err(missing(ANNOTATION_KEY_ID))
            } else {
                Ok(Encryption::Sealed { key_id })
            }
        },
        None => Err(missing(ANNOTATION_KEY_ID)),
    }
}

fn missing(key: &str) -> (r: CliError)
    ensures
        is_operational(r, declaration_message(key@)),
{
    CliError::Operational(
        cat3("encrypted content does not carry a usable ", key, " annotation"),
    )
}

/// What is encrypted is told by the end of its media type, and without that end it has the media
/// type that it had before. Nothing is encrypted twice over by that.
pub proof fn law_encryption_is_told_by_the_media_type(media_type: Seq<char>)
    ensures
        is_encrypted(media_type + "+encrypted"@),
        plain(media_type + "+encrypted"@) == media_type,
        (forall|front: Seq<char>| media_type != #[trigger] (front + "+encrypted"@)) ==> !is_encrypted(
            media_type,
        ) && plain(media_type) == media_type,
{
    reveal_strlit("+encrypted");
    let sealed = media_type + "+encrypted"@;
    assert(sealed.skip(media_type.len() as int) =~= "+encrypted"@);
    assert("+encrypted"@.is_suffix_of(sealed));
    assert(plain(sealed) =~= media_type);
    if is_encrypted(media_type) {
        let front = media_type.take(media_type.len() - 10);
        assert(media_type =~= front + "+encrypted"@);
    }
}

/// An artifact is encrypted if anything in it is. It then has to name the one scheme there is and a
/// key, and is refused without; an artifact with nothing encrypted in it is plain, whatever it says
/// of schemes and keys.
pub proof fn law_what_is_encrypted_names_its_key(
    annotations: Seq<(String, String)>,
    media_types: Seq<Seq<char>>,
)
    ensures
        ({
            let some = exists|i: int|
                0 <= i < media_types.len() && "+encrypted"@.is_suffix_of(#[trigger] media_types[i]);
            let scheme = value_of(annotations, "org.orc8r.enc.scheme"@);
            let key = value_of(annotations, "org.orc8r.enc.key-id"@);
            let named = scheme == Some("sealed-stream.v1"@) && (key matches Some(k) && k.len() > 0);
            &&& !some ==> declaration(annotations, media_types) == Ok::<
                Option<Seq<char>>,
                Seq<char>,
            >(None)
            &&& some && named ==> declaration(annotations, media_types) == Ok::<
                Option<Seq<char>>,
                Seq<char>,
            >(key)
            &&& some && !named ==> declaration(annotations, media_types) is Err
        }),
{
    if exists|i: int| 0 <= i < media_types.len() && is_encrypted(#[trigger] media_types[i]) {
        let i = choose|i: int| 0 <= i < media_types.len() && is_encrypted(#[trigger] media_types[i]);
        assert("+encrypted"@.is_suffix_of(media_types[i]));
    } else {
        assert forall|i: int| 0 <= i < media_types.len() implies !"+encrypted"@.is_suffix_of(
            #[trigger] media_types[i],
        ) by {
            assert(!is_encrypted(media_types[i]));
        }
    }
}

} // verus!
