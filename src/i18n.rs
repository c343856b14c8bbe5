//! UI translation through a gettext catalog, held in an explicit value
//! that is handed to every formatting call instead of per-thread state.

use vstd::prelude::*;

verus! {

#[verifier::external_type_specification]
#[verifier::external_body]
pub struct ExCatalog(gettext::Catalog);

/// What a catalog holds: for each message key, its first translated form.
pub uninterp spec fn catalog_messages(c: gettext::Catalog) -> Map<Seq<char>, Seq<char>>;

/// Relies on `gettext::Catalog::gettext`: the first translated form of the
/// message, or the message itself when the catalog has none.
#[verifier::external_body]
fn catalog_lookup(c: &gettext::Catalog, msg_id: &str) -> (r: String)
    ensures
        r@ == if catalog_messages(*c).contains_key(msg_id@) {
            catalog_messages(*c)[msg_id@]
        } else {
            msg_id@
        },
{
    c.gettext(msg_id).to_string()
}

/// The UI language and its catalog.
pub struct Translations {
    pub language: Option<String>,
    pub catalog: Option<gettext::Catalog>,
}

/// The language in effect: the one set last, English when none was.
pub open spec fn language_of(tr: &Translations) -> Seq<char> {
    match tr.language {
        Some(l) => l@,
        None => "en"@,
    }
}

/// The text shown for an English message.
pub open spec fn translation_of(tr: &Translations, english: Seq<char>) -> Seq<char> {
    match tr.catalog {
        Some(c) => if catalog_messages(c).contains_key(english) {
            catalog_messages(c)[english]
        } else {
            english
        },
        None => english,
    }
}

impl Translations {
    /// English, without a catalog.
    pub fn new() -> (r: Translations)
        ensures
            r.language is None,
            r.catalog is None,
    {
        Translations { language: None, catalog: None }
    }
}

/// Gets the UI language.
pub fn get_language(tr: &Translations) -> (r: String)
    ensures
        r@ == language_of(tr),
{
    match &tr.language {
        Some(l) => l.clone(),
        None => String::from_str("en"),
    }
}

/// Translates English input according to the UI language.
pub fn translate(tr: &Translations, english: &str) -> (r: String)
    ensures
        r@ == translation_of(tr, english@),
{
    match &tr.catalog {
        Some(c) => catalog_lookup(c, english),
        None => english.to_owned(),
    }
}

/// Switches the UI language. `catalog` is the language's catalog when it
/// has one; without one, messages stay in English. The caller parses the
/// MO file: gettext's parser panics on some malformed plural-forms
/// headers, which no verified function may risk.
pub fn set_language(tr: &mut Translations, language: &str, catalog: Option<gettext::Catalog>)
    ensures
        final(tr).language matches Some(l) && l@ == language@,
        language_of(final(tr)) == language@,
        final(tr).catalog == catalog,
{
    tr.catalog = catalog;
    tr.language = Some(language.to_owned());
}

} // verus!
