//! Changing single settings in the text of the user's file. Its formatting and
//! comments stay as they are.

use toml_edit::DocumentMut;

use vstd::prelude::*;
use vstd::string::*;

use crate::app::types::ViewMode;
use crate::config::load::{first_line, first_line_of};
use crate::text::copy_of;

verus! {

/// A TOML document that can be edited.
#[verifier::external_type_specification]
#[verifier::external_body]
pub struct ExDocumentMut(toml_edit::DocumentMut);

/// What `DocumentMut::from_str` makes of a text: a document, or what is wrong with
/// the text.
pub uninterp spec fn document_of(text: Seq<char>) -> Result<DocumentMut, Seq<char>>;

/// Whether `Item::is_table_like` holds of the item under `key`; none where there is
/// no item.
pub uninterp spec fn table_at(doc: DocumentMut, key: Seq<char>) -> Option<bool>;

/// A document with the string `value` under `key` at its top.
pub uninterp spec fn with_entry(doc: DocumentMut, key: Seq<char>, value: Seq<char>) -> DocumentMut;

/// A document with the string `value` under `key` in its table `table`, which is made
/// where there is none.
pub uninterp spec fn with_table_entry(
    doc: DocumentMut,
    table: Seq<char>,
    key: Seq<char>,
    value: Seq<char>,
) -> DocumentMut;

/// The text that `DocumentMut` is displayed as.
pub uninterp spec fn document_text(doc: DocumentMut) -> Seq<char>;

/// `toml_edit::DocumentMut::from_str`, which depends on the text alone. Which texts
/// are valid, and what the message says, is not stated.
#[verifier::external_body]
fn parse_document(text: &str) -> (r: Result<DocumentMut, String>)
    ensures
        (match r {
            Ok(doc) => Ok(doc),
            Err(e) => Err(e@),
        }) == document_of(text@),
{
    text.parse::<DocumentMut>().map_err(|e| e.to_string())
}

/// `toml_edit::Table::get`, and `toml_edit::Item::is_table_like` of what it finds. It
/// depends on the document and the key alone.
#[verifier::external_body]
fn is_table(doc: &DocumentMut, key: &str) -> (r: Option<bool>)
    ensures
        r == table_at(*doc, key@),
{
    doc.get(key).map(|item| item.is_table_like())
}

/// Assigns to a `toml_edit::DocumentMut` by index. The result depends on the
/// arguments alone. How the document is laid out is not stated.
#[verifier::external_body]
fn set_entry(doc: &mut DocumentMut, key: &str, value: &str)
    ensures
        *final(doc) == with_entry(*old(doc), key@, value@),
{
    doc[key] = toml_edit::value(value);
}

/// Assigns to a table of a `toml_edit::DocumentMut` by index; `toml_edit::Entry` makes
/// the table where there is none. Indexing anything but a table panics. The result
/// depends on the arguments alone. How the document is laid out is not stated.
#[verifier::external_body]
fn set_table_entry(doc: &mut DocumentMut, table: &str, key: &str, value: &str)
    requires
        table_at(*old(doc), table@) != Some(false),
    ensures
        *final(doc) == with_table_entry(*old(doc), table@, key@, value@),
{
    doc.entry(table).or_insert(toml_edit::table())[key] = toml_edit::value(value);
}

/// `toml_edit::DocumentMut::to_string`, which depends on the document alone.
#[verifier::external_body]
fn write_document(doc: &DocumentMut) -> (r: String)
    ensures
        r@ == document_text(*doc),
{
    doc.to_string()
}

/// What is said of a file that cannot be edited.
pub open spec fn edit_failure(message: Seq<char>) -> Seq<char> {
    if message.len() == 0 {
        "invalid config"@
    } else {
        first_line_of(message)
    }
}

fn failure_text(message: &str) -> (r: String)
    ensures
        r@ == edit_failure(message@),
{
    if message.unicode_len() == 0 {
        copy_of("invalid config")
    } else {
        first_line(message)
    }
}

/// The name of a view in the file.
pub open spec fn view_name(view: ViewMode) -> Seq<char> {
    match view {
        ViewMode::Unified => "unified"@,
        ViewMode::SideBySide => "side-by-side"@,
    }
}

/// The text of the config file with `view` as its `view`. A file that is not valid
/// stays as it is: the first line of what is wrong with it is returned.
pub fn edit_view(text: &str, view: ViewMode) -> (r: Result<String, String>)
    ensures
        match document_of(text@) {
            Err(message) => r is Err && r->Err_0@ == edit_failure(message),
            Ok(doc) => r is Ok && r->Ok_0@ == document_text(
                with_entry(doc, "view"@, view_name(view)),
            ),
        },
{
    let mut doc = match parse_document(text) {
        Ok(doc) => doc,
        Err(message) => {
            return Err(failure_text(message.as_str()));
        },
    };
    let name = match view {
        ViewMode::Unified => "unified",
        ViewMode::SideBySide => "side-by-side",
    };
    set_entry(&mut doc, "view", name);
    Ok(write_document(&doc))
}

/// The text of the config file with `name` as the theme of its `[theme]` table, which
/// is made where there is none. A file that is not valid, or that has something else
/// under `theme`, stays as it is: what is wrong with it is returned.
pub fn edit_theme(text: &str, name: &str) -> (r: Result<String, String>)
    ensures
        match document_of(text@) {
            Err(message) => r is Err && r->Err_0@ == edit_failure(message),
            Ok(doc) => if table_at(doc, "theme"@) == Some(false) {
                r is Err && r->Err_0@ == "invalid config"@
            } else {
                r is Ok && r->Ok_0@ == document_text(
                    with_table_entry(doc, "theme"@, "theme"@, name@),
                )
            },
        },
{
    let mut doc = match parse_document(text) {
        Ok(doc) => doc,
        Err(message) => {
            return Err(failure_text(message.as_str()));
        },
    };
    if let Some(false) = is_table(&doc, "theme") {
        return Err(copy_of("invalid config"));
    }
    set_table_entry(&mut doc, "theme", "theme", name);
    Ok(write_document(&doc))
}

} // verus!
