//! The application's own preferences, kept in a TOML file whose other
//! content and layout are preserved when a value is changed.

use vstd::prelude::*;
use toml_edit::{DocumentMut, Item, Table, TomlError};
use crate::text::starts_with;

verus! {

#[verifier::external_type_specification]
#[verifier::external_body]
pub struct ExDocumentMut(toml_edit::DocumentMut);

#[verifier::external_type_specification]
#[verifier::external_body]
pub struct ExItem(toml_edit::Item);

#[verifier::external_type_specification]
#[verifier::external_body]
pub struct ExTomlError(toml_edit::TomlError);

#[verifier::external_type_specification]
#[verifier::external_body]
pub struct ExTable(toml_edit::Table);

/// Preferences of the color generator.
#[derive(Clone, Debug)]
pub struct MatugenPreferences {
    pub enable: bool,
    pub light_mode: bool,
    pub generator_type: String,
}

/// All preferences.
#[derive(Clone, Debug)]
pub struct PreferencesConfig {
    pub matugen: MatugenPreferences,
}

pub open spec fn default_generator() -> Seq<char> {
    "scheme-tonal-spot"@
}

/// The preferences file written when there is none.
pub fn default_preferences_text() -> (r: String)
    ensures
        r@ == "[matugen]\nenable = false\nlight_mode = false\ngenerator_type = \"scheme-tonal-spot\"\n"@,
{
    String::from_str(
        "[matugen]\nenable = false\nlight_mode = false\ngenerator_type = \"scheme-tonal-spot\"\n",
    )
}

/// The preferences from the values found in the file, each `None` when
/// absent or of another type: the generator is off, in dark mode, with the
/// tonal-spot scheme unless the file says otherwise.
pub fn preferences_from_values(
    enable: Option<bool>,
    light_mode: Option<bool>,
    generator_type: Option<String>,
) -> (r: PreferencesConfig)
    ensures
        r.matugen.enable == (enable == Some(true)),
        r.matugen.light_mode == (light_mode == Some(true)),
        r.matugen.generator_type@ == match generator_type {
            Some(g) => g@,
            None => default_generator(),
        },
{
    let enable = match enable {
        Some(b) => b,
        None => false,
    };
    let light_mode = match light_mode {
        Some(b) => b,
        None => false,
    };
    let generator_type = match generator_type {
        Some(g) => g,
        None => String::from_str("scheme-tonal-spot"),
    };
    PreferencesConfig { matugen: MatugenPreferences { enable, light_mode, generator_type } }
}

/// Whether toml_edit accepts a text as a TOML document.
pub uninterp spec fn toml_accepts(text: Seq<char>) -> bool;

/// Relies on `DocumentMut`'s `FromStr`: whether a text parses depends on the
/// text alone.
#[verifier::external_body]
fn parse_document(text: &str) -> (r: Result<DocumentMut, TomlError>)
    ensures
        r is Ok == toml_accepts(text@),
{
    text.parse::<DocumentMut>()
}

/// Relies on `TomlError`'s `Display`, to describe a parse error.
#[verifier::external_body]
fn toml_error_text(e: &TomlError) -> String {
    e.to_string()
}

/// Relies on `Table::get`, through `DocumentMut`'s `Deref`: the top-level
/// item under a key.
#[verifier::external_body]
fn root_item<'a>(doc: &'a DocumentMut, key: &str) -> Option<&'a Item> {
    doc.get(key)
}

/// Relies on `Item::get` with a string key: the item under a key of a table.
#[verifier::external_body]
fn child_item<'a>(item: &'a Item, key: &str) -> Option<&'a Item> {
    item.get(key)
}

/// Relies on `Item::as_bool`: the item's value when it is a boolean.
#[verifier::external_body]
fn item_bool(item: &Item) -> Option<bool> {
    item.as_bool()
}

/// Relies on `Item::as_str`: the item's value when it is a string.
#[verifier::external_body]
fn item_text(item: &Item) -> Option<String> {
    item.as_str().map(|s| s.to_string())
}

fn matugen_item<'a>(doc: &'a DocumentMut, key: &str) -> Option<&'a Item> {
    match root_item(doc, "matugen") {
        Some(t) => child_item(t, key),
        None => None,
    }
}

/// Reads the preferences file's text: an error when it is not TOML;
/// otherwise each value of the `[matugen]` table that is present with the
/// right type, and the default for the others.
pub fn read_preferences(text: &str) -> (r: Result<PreferencesConfig, String>)
    ensures
        r is Ok == toml_accepts(text@),
        r is Err ==> starts_with(r->Err_0@, "Failed to parse TOML: "@),
{
    let doc = match parse_document(text) {
        Ok(d) => d,
        Err(e) => {
            let prefix = String::from_str("Failed to parse TOML: ");
            let mut msg = String::from_str("Failed to parse TOML: ");
            msg.append(toml_error_text(&e).as_str());
            assert(msg@.take(prefix@.len() as int) =~= prefix@);
            return Err(msg);
        },
    };
    let enable = match matugen_item(&doc, "enable") {
        Some(i) => item_bool(i),
        None => None,
    };
    let light_mode = match matugen_item(&doc, "light_mode") {
        Some(i) => item_bool(i),
        None => None,
    };
    let generator_type = match matugen_item(&doc, "generator_type") {
        Some(i) => item_text(i),
        None => None,
    };
    Ok(preferences_from_values(enable, light_mode, generator_type))
}

/// Relies on `Table::contains_table`, through `DocumentMut`'s `Deref`:
/// whether a top-level key holds a table.
#[verifier::external_body]
fn has_table(doc: &DocumentMut, key: &str) -> bool {
    doc.contains_table(key)
}

/// Relies on `toml_edit::table`: an empty table.
#[verifier::external_body]
fn empty_table() -> Item {
    toml_edit::table()
}

/// Relies on `toml_edit::value` for a boolean.
#[verifier::external_body]
fn bool_item(b: bool) -> Item {
    toml_edit::value(b)
}

/// Relies on `toml_edit::value` for a string.
#[verifier::external_body]
fn text_item(s: &str) -> Item {
    toml_edit::value(s)
}

/// Relies on `DocumentMut`'s `IndexMut`, which reaches the root table's
/// entry for the key, adding it when missing: puts an item under a top-level key.
#[verifier::external_body]
fn put_root(doc: &mut DocumentMut, key: &str, item: Item) {
    doc[key] = item;
}

/// Relies on `Table::get_mut`, through `DocumentMut`'s `DerefMut`: the
/// top-level item under a key.
#[verifier::external_body]
fn root_item_mut<'a>(doc: &'a mut DocumentMut, key: &str) -> Option<&'a mut Item> {
    doc.get_mut(key)
}

/// Relies on `Item::as_table_mut`: the item as a table, when it is one.
#[verifier::external_body]
fn item_table_mut(item: &mut Item) -> Option<&mut Table> {
    item.as_table_mut()
}

/// Relies on `Table`'s `IndexMut`, which adds the key when missing: puts an
/// item under a key of a table.
#[verifier::external_body]
fn put_entry(table: &mut Table, key: &str, item: Item) {
    table[key] = item;
}

/// Relies on `DocumentMut`'s `Display`: the document as text, with the
/// layout it was read with.
#[verifier::external_body]
fn document_text(doc: &DocumentMut) -> String {
    doc.to_string()
}

/// The preferences file's text with new values in its `[matugen]` table,
/// which is put in place of whatever else the key held; the rest of the
/// document keeps its content and layout. An error when the text is not TOML;
/// the two other errors cannot arise once the table is in place, and are
/// reported rather than assumed away.
pub fn update_preferences_text(
    text: &str,
    enable: bool,
    light_mode: bool,
    generator_type: &str,
) -> (r: Result<String, String>)
    ensures
        r is Ok ==> toml_accepts(text@),
        !toml_accepts(text@) ==> r is Err && starts_with(r->Err_0@, "Failed to parse TOML: "@),
{
    let mut doc = match parse_document(text) {
        Ok(d) => d,
        Err(e) => {
            let prefix = String::from_str("Failed to parse TOML: ");
            let mut msg = String::from_str("Failed to parse TOML: ");
            msg.append(toml_error_text(&e).as_str());
            assert(msg@.take(prefix@.len() as int) =~= prefix@);
            return Err(msg);
        },
    };
    if !has_table(&doc, "matugen") {
        put_root(&mut doc, "matugen", empty_table());
    }
    match root_item_mut(&mut doc, "matugen") {
        Some(item) => match item_table_mut(item) {
            Some(table) => {
                put_entry(table, "enable", bool_item(enable));
                put_entry(table, "light_mode", bool_item(light_mode));
                put_entry(table, "generator_type", text_item(generator_type));
            },
            None => {
                return Err(String::from_str("The matugen entry is not a table"));
            },
        },
        None => {
            return Err(String::from_str("The matugen entry is missing"));
        },
    }
    Ok(document_text(&doc))
}

} // verus!
