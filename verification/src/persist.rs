//! Rewriting one service's `enabled` key in a configuration file.
//!
//! The file is edited as a document rather than re-serialised from the parsed
//! configuration: init.toml carries comments explaining what each service is
//! for, and a round trip through the configuration types would delete every
//! one of them. Reading and writing the file, atomically, is the program's
//! part; this finds the entry and sets the key.
use vstd::prelude::*;

verus! {

/// toml_edit's editable document, which keeps a file's comments and layout.
#[verifier::external_type_specification]
#[verifier::external_body]
pub struct ExDocumentMut(toml_edit::DocumentMut);

/// What parsing a text as a document gives: the parser's message when it
/// fails, and otherwise what the document's `[[services]]` holds, read as
/// [`services_view`] reads it.
pub uninterp spec fn parse_outcome(text: Seq<char>) -> Result<Option<Seq<(Option<Seq<char>>, Option<bool>)>>, Seq<char>>;

/// What a document's `[[services]]` holds: when it is an array of tables,
/// each table's `name` where that is a string.
pub uninterp spec fn service_tables(doc: toml_edit::DocumentMut) -> Option<Seq<Option<Seq<char>>>>;

/// The `enabled` key of the `i`th `[[services]]` table, where it is a
/// boolean.
pub uninterp spec fn enabled_key(doc: toml_edit::DocumentMut, i: int) -> Option<bool>;

/// Each table under a document's `[[services]]`, as its `name` and its
/// `enabled` key; `None` when `services` is not an array of tables.
pub open spec fn services_view(doc: toml_edit::DocumentMut) -> Option<Seq<(Option<Seq<char>>, Option<bool>)>> {
    match service_tables(doc) {
        None => None,
        Some(names) => Some(Seq::new(names.len(), |i: int| (names[i], enabled_key(doc, i)))),
    }
}

/// The names of such entries.
pub open spec fn entry_names(entries: Seq<(Option<Seq<char>>, Option<bool>)>) -> Seq<Option<Seq<char>>> {
    entries.map_values(|e: (Option<Seq<char>>, Option<bool>)| e.0)
}

/// The text a document renders as.
pub uninterp spec fn document_text(doc: toml_edit::DocumentMut) -> Seq<char>;

/// `str::parse::<toml_edit::DocumentMut>`: the document, or the parser's
/// message. Claimed: which of the two comes back, the message, and what the
/// parsed document's `[[services]]` holds depend on the text alone.
#[verifier::external_body]
fn parse_document(text: &str) -> (r: Result<toml_edit::DocumentMut, String>)
    ensures
        match r {
            Ok(d) => parse_outcome(text@) == Ok::<Option<Seq<(Option<Seq<char>>, Option<bool>)>>, Seq<char>>(
                services_view(d),
            ),
            Err(m) => parse_outcome(text@) == Err::<Option<Seq<(Option<Seq<char>>, Option<bool>)>>, Seq<char>>(m@),
        },
{
    text.parse::<toml_edit::DocumentMut>().map_err(|e| e.to_string())
}

/// The names of the tables under `[[services]]`, read through toml_edit's
/// `get`, `as_array_of_tables` and `as_str`. Claimed: they are
/// [`service_tables`] of the document.
#[verifier::external_body]
fn table_names(doc: &toml_edit::DocumentMut) -> (r: Option<Vec<Option<String>>>)
    ensures
        match r {
            Some(v) => service_tables(*doc) == Some(v@.map_values(|n: Option<String>| match n {
                Some(s) => Some(s@),
                None => None,
            })),
            None => service_tables(*doc) is None,
        },
{
    doc.get("services").and_then(|s| s.as_array_of_tables()).map(
        |a| a.iter().map(|t| t.get("name").and_then(|n| n.as_str()).map(|n| n.to_owned())).collect(),
    )
}

/// `table["enabled"] = toml_edit::value(enabled)` on the `i`th table under
/// `[[services]]`. Claimed: that key now holds `enabled`; which tables there
/// are, their names, and the `enabled` keys of the others do not change.
#[verifier::external_body]
fn set_table_enabled(doc: &mut toml_edit::DocumentMut, i: usize, enabled: bool)
    requires
        service_tables(*old(doc)) matches Some(v) && i < v.len(),
    ensures
        service_tables(*final(doc)) == service_tables(*old(doc)),
        enabled_key(*final(doc), i as int) == Some(enabled),
        forall|j: int| j != i ==> #[trigger] enabled_key(*final(doc), j) == enabled_key(*old(doc), j),
{
    if let Some(t) = doc.get_mut("services").and_then(|s| s.as_array_of_tables_mut()).and_then(|a| a.get_mut(i)) {
        t["enabled"] = toml_edit::value(enabled);
    }
}

/// `DocumentMut`'s `Display`: the document as text, comments and all.
#[verifier::external_body]
fn render_document(doc: &toml_edit::DocumentMut) -> (r: String)
    ensures
        r@ == document_text(*doc),
{
    doc.to_string()
}

/// Why a document could not take the edit.
#[derive(Clone, Copy, PartialEq, Eq, Structural, Debug)]
pub enum EditError {
    /// It has no `[[services]]` array.
    NoServices,
    /// None of its `[[services]]` is named so.
    NotFound,
}

/// The first of `names` that is `name`.
pub open spec fn first_named(names: Seq<Option<Seq<char>>>, name: Seq<char>, i: int) -> int
    decreases names.len() - i,
{
    if 0 <= i < names.len() && names[i] != Some(name) {
        first_named(names, name, i + 1)
    } else {
        i
    }
}

proof fn lemma_first_named_from(names: Seq<Option<Seq<char>>>, name: Seq<char>, i: int)
    requires
        0 <= i,
    ensures
        i <= first_named(names, name, i),
    decreases names.len() - i,
{
    if 0 <= i < names.len() && names[i] != Some(name) {
        lemma_first_named_from(names, name, i + 1);
    }
}

/// Set the `enabled` key of the first `[[services]]` entry named `name` in
/// `doc`: refused when there is no such array, or no such entry, and
/// otherwise the key is set and the entries stay as they were.
pub fn set_enabled_in(doc: &mut toml_edit::DocumentMut, name: &str, enabled: bool) -> (r: Result<(), EditError>)
    ensures
        match service_tables(*old(doc)) {
            None => r == Err::<(), EditError>(EditError::NoServices) && *final(doc) == *old(doc),
            Some(names) => {
                let k = first_named(names, name@, 0);
                if k >= names.len() {
                    r == Err::<(), EditError>(EditError::NotFound) && *final(doc) == *old(doc)
                } else {
                    &&& r is Ok
                    &&& service_tables(*final(doc)) == Some(names)
                    &&& enabled_key(*final(doc), k) == Some(enabled)
                    &&& forall|j: int| j != k ==> #[trigger] enabled_key(*final(doc), j) == enabled_key(*old(doc), j)
                }
            },
        },
{
    let names = match table_names(doc) {
        None => return Err(EditError::NoServices),
        Some(v) => v,
    };
    let ghost views = names@.map_values(|n: Option<String>| match n {
        Some(s) => Some(s@),
        None => None,
    });
    let mut k: usize = 0;
    while k < names.len()
        invariant
            k <= names.len(),
            views == names@.map_values(|n: Option<String>| match n {
                Some(s) => Some(s@),
                None => None,
            }),
            first_named(views, name@, k as int) == first_named(views, name@, 0),
            *doc == *old(doc),
            service_tables(*old(doc)) == Some(views),
            views.len() == names@.len(),
        decreases names.len() - k,
    {
        let here = match &names[k] {
            Some(n) => crate::text::same(&crate::text::chars_of(n.as_str()), &crate::text::chars_of(name)),
            None => false,
        };
        assert(here == (views[k as int] == Some(name@)));
        if here {
            set_table_enabled(doc, k, enabled);
            return Ok(());
        }
        k += 1;
    }
    Err(EditError::NotFound)
}

/// Why a configuration text could not take the edit.
#[derive(Clone, PartialEq, Eq, Debug)]
pub enum PersistError {
    /// It is not TOML; the parser's message.
    Invalid(String),
    /// It is TOML, and the document refused the edit.
    Edit(EditError),
}

/// `text` with the `enabled` key of its first `[[services]]` entry named
/// `name` set: refused when the text is not TOML, with the parser's message;
/// refused when it has no `[[services]]` array, or no entry of that name; and
/// otherwise the text toml_edit renders the edited document as, whose
/// entries are those of the text, names and `enabled` keys, but for that one
/// key. (toml_edit keeps a document's comments and layout when it renders
/// it; no clause here states that of the text.)
pub fn with_enabled(text: &str, name: &str, enabled: bool) -> (r: Result<String, PersistError>)
    ensures
        match parse_outcome(text@) {
            Err(m) => r matches Err(PersistError::Invalid(mm)) && mm@ == m,
            Ok(None) => r == Err::<String, PersistError>(PersistError::Edit(EditError::NoServices)),
            Ok(Some(entries)) => {
                let k = first_named(entry_names(entries), name@, 0);
                if k >= entries.len() {
                    r == Err::<String, PersistError>(PersistError::Edit(EditError::NotFound))
                } else {
                    r matches Ok(out) && exists|d: toml_edit::DocumentMut|
                        #![trigger document_text(d)]
                        {
                            &&& out@ == document_text(d)
                            &&& services_view(d) == Some(entries.update(k, (entries[k].0, Some(enabled))))
                        }
                }
            },
        },
{
    let mut doc = match parse_document(text) {
        Ok(d) => d,
        Err(m) => return Err(PersistError::Invalid(m)),
    };
    let ghost before = doc;
    proof {
        if service_tables(before) is Some {
            assert(entry_names(services_view(before)->0) =~= service_tables(before)->0);
        }
    }
    match set_enabled_in(&mut doc, name, enabled) {
        Ok(()) => {
            let out = render_document(&doc);
            assert(out@ == document_text(doc));
            proof {
                let names = service_tables(before)->0;
                let entries = services_view(before)->0;
                let k = first_named(names, name@, 0);
                lemma_first_named_from(names, name@, 0);
                assert(service_tables(before) is Some);
                assert(k < names.len());
                assert(service_tables(doc) == Some(names));
                let want = entries.update(k, (entries[k].0, Some(enabled)));
                let got = services_view(doc)->0;
                assert(entries.len() == names.len());
                assert(got.len() == want.len());
                assert forall|i: int| 0 <= i < got.len() implies got[i] == want[i] by {
                    if i != k {
                        assert(enabled_key(doc, i) == enabled_key(before, i));
                    }
                }
                assert(got =~= want);
            }
            Ok(out)
        },
        Err(e) => Err(PersistError::Edit(e)),
    }
}

} // verus!
