//! Layout of the produced archives: their names, the content of each entry in
//! each variant, and the side listings.
use vstd::prelude::*;
use vstd::string::StringExecFns;
use vstd::utf8::{decode_utf8, valid_utf8};

use crate::diff::entries;
use crate::rewrite::{
    ends_with, is_index_file, rewrite, rewrite_variant, variant_rules, Variant, INDEX_SUFFIX,
};
use crate::text::{push_char, views};

verus! {

/// Base name of the full content archives.
pub const CONTENT_FILENAME: &'static str = "content.zip";

/// Base name of the update archives.
pub const UPDATE_FILENAME: &'static str = "update.zip";

/// Name of the entry of an update archive that lists the removed paths, and of
/// the side file that holds the same list.
pub const REMOVED_FILENAME: &'static str = "removed";

/// Base name of the diff listing beside an update.
pub const DIFF_LIST_FILENAME: &'static str = "diff.json";

/// Base name of the path listing beside a content archive.
pub const CONTENT_LIST_FILENAME: &'static str = "content.json";

/// Base name of a revision's checksum entry.
pub const CHECKSUMS_FILENAME: &'static str = "checksums";

/// The marker of the app variant in a file name.
pub const APP_PREFIX: &'static str = "app";

/// The extension of an archive file.
pub const ARCHIVE_EXTENSION: &'static str = ".zip";

/// `"<prefix>-<file_name>"`, or `"<prefix>-app-<file_name>"` for the app variant.
pub open spec fn output_name(prefix: Seq<char>, file_name: Seq<char>, app: bool) -> Seq<char> {
    if app {
        prefix.push('-') + APP_PREFIX@.push('-') + file_name
    } else {
        prefix.push('-') + file_name
    }
}

/// The name of an output file of `prefix`, for the app variant or not.
pub fn build_name(prefix: &str, file_name: &str, app: bool) -> (r: String)
    ensures
        r@ == output_name(prefix@, file_name@, app),
{
    let mut r = String::from_str(prefix);
    push_char(&mut r, '-');
    if app {
        r.append(APP_PREFIX);
        push_char(&mut r, '-');
    }
    r.append(file_name);
    proof {
        if app {
            assert(r@ =~= output_name(prefix@, file_name@, app));
        }
    }
    r
}

/// The prefix of the update from `old` to `new`: `"<new>-<old>"`.
pub fn update_prefix(new: &str, old: &str) -> (r: String)
    ensures
        r@ == new@.push('-') + old@,
{
    build_name(new, old, false)
}

/// The name of a revision's checksum entry, `"<revision>-checksums"`; its
/// archive is that name with the archive extension, so the entry can be found
/// from the revision alone.
pub fn checksum_entry_name(revision: &str) -> (r: String)
    ensures
        r@ == output_name(revision@, CHECKSUMS_FILENAME@, false),
{
    build_name(revision, CHECKSUMS_FILENAME, false)
}

/// The file name of a revision's checksum archive, `"<revision>-checksums.zip"`.
pub fn checksum_archive_name(revision: &str) -> (r: String)
    ensures
        r@ == output_name(revision@, CHECKSUMS_FILENAME@, false) + ARCHIVE_EXTENSION@,
{
    let mut r = checksum_entry_name(revision);
    r.append(ARCHIVE_EXTENSION);
    r
}

/// The data of an archive entry: bytes copied as they are, or a rewritten text.
pub enum EntryData {
    Bytes(Vec<u8>),
    Text(String),
}

/// Why an entry could not be prepared.
#[derive(Debug, Clone, Copy, PartialEq, Eq, Structural)]
pub enum PackageError {
    /// An index document is not UTF-8 text.
    NotText,
}

/// Relies on `String::from_utf8`: the bytes as text when they are valid UTF-8.
#[verifier::external_body]
fn utf8_text(bytes: Vec<u8>) -> (r: Option<String>)
    ensures
        r is Some <==> valid_utf8(bytes@),
        r matches Some(s) ==> s@ == decode_utf8(bytes@),
{
    String::from_utf8(bytes).ok()
}

/// The entry `name` goes through the rewrite in `variant`.
pub open spec fn is_rewritten(name: Seq<char>, variant: Variant) -> bool {
    variant != Variant::Raw && ends_with(name, INDEX_SUFFIX@)
}

/// What an archive holds for the file `name` with bytes `content` in `variant`.
/// Index documents of the app and web variants are read as text and rewritten
/// with the variant's rules; every other file is kept byte for byte.
pub fn entry_content(name: &str, content: Vec<u8>, variant: Variant) -> (r: Result<
    EntryData,
    PackageError,
>)
    ensures
        !is_rewritten(name@, variant) ==> (r matches Ok(EntryData::Bytes(b)) && b@ == content@),
        is_rewritten(name@, variant) ==> match r {
            Ok(EntryData::Text(t)) => valid_utf8(content@) && t@ == rewrite(
                decode_utf8(content@),
                variant_rules(variant),
            ),
            Err(PackageError::NotText) => !valid_utf8(content@),
            _ => false,
        },
{
    if variant == Variant::Raw || !is_index_file(name) {
        return Ok(EntryData::Bytes(content));
    }
    match utf8_text(content) {
        None => Err(PackageError::NotText),
        Some(text) => Ok(EntryData::Text(rewrite_variant(text, variant))),
    }
}

/// The lowercase hexadecimal digit of `n`, for `n < 16`.
pub open spec fn hex_digit(n: int) -> char {
    seq!['0', '1', '2', '3', '4', '5', '6', '7', '8', '9', 'a', 'b', 'c', 'd', 'e', 'f'][n]
}

/// How a JSON string writes the character `c`: a quote, a backslash and the
/// control characters with a short escape take a backslash and a letter, the
/// other control characters below U+0020 a `\u00XX` escape, and every other
/// character stands as it is.
pub open spec fn json_escaped_char(c: char) -> Seq<char> {
    if c == '"' {
        seq!['\\', '"']
    } else if c == '\\' {
        seq!['\\', '\\']
    } else if c as u32 == 8 {
        seq!['\\', 'b']
    } else if c == '\t' {
        seq!['\\', 't']
    } else if c == '\n' {
        seq!['\\', 'n']
    } else if c as u32 == 12 {
        seq!['\\', 'f']
    } else if c == '\r' {
        seq!['\\', 'r']
    } else if (c as u32) < 32 {
        seq!['\\', 'u', '0', '0', hex_digit((c as u32) as int / 16), hex_digit((c as u32) as int % 16)]
    } else {
        seq![c]
    }
}

/// The characters of `s`, each written as a JSON string writes it.
pub open spec fn json_escaped(s: Seq<char>) -> Seq<char>
    decreases s.len(),
{
    if s.len() == 0 {
        Seq::empty()
    } else {
        json_escaped(s.drop_last()) + json_escaped_char(s.last())
    }
}

/// `s` as a JSON string literal.
pub open spec fn json_string(s: Seq<char>) -> Seq<char> {
    seq!['"'] + json_escaped(s) + seq!['"']
}

/// The JSON string literals of `v`, separated by commas.
pub open spec fn json_items(v: Seq<Seq<char>>) -> Seq<char>
    decreases v.len(),
{
    if v.len() == 0 {
        Seq::empty()
    } else if v.len() == 1 {
        json_string(v[0])
    } else {
        json_items(v.drop_last()) + seq![','] + json_string(v.last())
    }
}

/// The compact JSON array of the strings of `v`.
pub open spec fn json_string_array(v: Seq<Seq<char>>) -> Seq<char> {
    seq!['['] + json_items(v) + seq![']']
}

/// Relies on `serde_json::to_string` of a list of strings: the compact JSON
/// array of them, with the escapes of serde_json's string escape table. It
/// fails only where a `Serialize` impl fails or a map has non-string keys, and
/// neither can happen for strings written into a byte vector.
#[verifier::external_body]
fn to_json_array(v: &Vec<String>) -> (r: Option<String>)
    ensures
        r is Some,
        r matches Some(s) ==> s@ == json_string_array(views(v@)),
{
    serde_json::to_string(v).ok()
}

/// The paths of a manifest, in order.
pub open spec fn manifest_paths(m: Seq<(Seq<char>, Seq<char>)>) -> Seq<Seq<char>> {
    m.map_values(|e: (Seq<char>, Seq<char>)| e.1)
}

/// The paths of the manifest `m`, in order.
pub fn paths_of(m: &[(String, String)]) -> (r: Vec<String>)
    ensures
        views(r@) == manifest_paths(entries(m@)),
{
    let ghost ps = manifest_paths(entries(m@));
    assert(ps.len() == m@.len());
    assert(forall|j: int| 0 <= j < m@.len() ==> #[trigger] ps[j] == m@[j].1@);
    let mut r: Vec<String> = Vec::new();
    let mut i: usize = 0;
    while i < m.len()
        invariant
            i <= m@.len(),
            ps == manifest_paths(entries(m@)),
            ps.len() == m@.len(),
            forall|j: int| 0 <= j < m@.len() ==> #[trigger] ps[j] == m@[j].1@,
            views(r@) == ps.take(i as int),
        decreases m.len() - i,
    {
        let ghost before = r@;
        let p = m[i].1.clone();
        assert(p@ == ps[i as int]);
        r.push(p);
        assert(r@ == before.push(p));
        assert(views(r@) =~= views(before).push(p@));
        i += 1;
        assert(views(r@) =~= ps.take(i as int));
    }
    assert(ps.take(i as int) =~= ps);
    r
}

/// The listing that goes beside a content archive: the JSON array of the
/// manifest's paths.
pub fn content_listing(m: &[(String, String)]) -> (r: Option<String>)
    ensures
        r is Some,
        r matches Some(s) ==> s@ == json_string_array(manifest_paths(entries(m@))),
{
    let paths = paths_of(m);
    to_json_array(&paths)
}

} // verus!
