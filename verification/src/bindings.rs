//! Calls into std and into outside crates whose contracts Verus takes as
//! given. Each item names the function it calls and what it claims of it.
use vstd::prelude::*;

use crate::manifest::{mod_url_pattern, url_slug};
use crate::modrinth::json_string_list;
use crate::text::is_white_space;

verus! {

/// Calls `char::is_whitespace`, which std documents as Unicode
/// `White_Space`: the claim is that it accepts exactly `is_white_space`.
#[verifier::external_body]
pub fn char_is_whitespace(c: char) -> (r: bool)
    ensures
        r == is_white_space(c),
{
    c.is_whitespace()
}

/// Collects characters into a `String` (`FromIterator<&char> for String`):
/// the claim is that the string holds exactly those characters, in order.
#[verifier::external_body]
pub fn string_from_chars(v: &[char]) -> (s: String)
    ensures
        s@ == v@,
{
    v.iter().collect()
}

/// What the `csv` crate reads from `data` with a default `ReaderBuilder`
/// that has a header row: the header row and the records after it, each as
/// its fields; `None` where the reader reports an error.
pub uninterp spec fn csv_table(data: Seq<char>) -> Option<(Seq<Seq<char>>, Seq<Seq<Seq<char>>>)>;

/// Reads `data` with `csv::ReaderBuilder::new().has_headers(true)`, then
/// `Reader::headers` and `Reader::records`. The claim is that the outcome
/// is a function of `data`, named `csv_table`; that empty data gives an
/// empty header row and no records (`Reader::headers` documents the empty
/// record at once-reached EOF); and that every record has as many fields
/// as the header row (the reader is not flexible, so a record of another
/// length is an `UnequalLengths` error). The CSV grammar is left unstated.
#[verifier::external_body]
pub fn read_csv_table(data: &str) -> (r: Option<(Vec<String>, Vec<Vec<String>>)>)
    ensures
        match r {
            Some((h, rows)) => csv_table(data@) == Some((h.deep_view(), rows.deep_view())) && (
            data@.len() == 0 ==> h@.len() == 0 && rows@.len() == 0) && forall|i: int|
                0 <= i < rows@.len() ==> (#[trigger] rows@[i])@.len() == h@.len(),
            None => csv_table(data@) is None && data@.len() > 0,
        },
{
    let mut rdr = csv::ReaderBuilder::new().has_headers(true).from_reader(data.as_bytes());
    let head: Vec<String> = rdr.headers().ok()?.iter().map(String::from).collect();
    let rows: Result<Vec<Vec<String>>, csv::Error> =
        rdr.records().map(|rec| rec.map(|rec| rec.iter().map(String::from).collect())).collect();
    Some((head, rows.ok()?))
}

/// The text that the `csv` crate writes for `rows` with a default
/// `WriterBuilder`, one `Writer::write_record` per row; `None` where the
/// writer reports an error.
pub uninterp spec fn csv_text(rows: Seq<Seq<Seq<char>>>) -> Option<Seq<char>>;

/// Writes each row with `csv::Writer::write_record` into a buffer. The claim
/// is only that the outcome is a function of `rows`, named `csv_text`; the
/// quoting rules are left unstated.
#[verifier::external_body]
pub fn write_csv_table(rows: &Vec<Vec<String>>) -> (r: Option<String>)
    ensures
        match r {
            Some(t) => csv_text(rows.deep_view()) == Some(t@),
            None => csv_text(rows.deep_view()) is None,
        },
{
    let mut wtr = csv::WriterBuilder::new().from_writer(Vec::new());
    for row in rows.iter() {
        wtr.write_record(row).ok()?;
    }
    String::from_utf8(wtr.into_inner().ok()?).ok()
}

/// Whether `regex::Regex::new` accepts `pattern`.
pub uninterp spec fn regex_is_valid(pattern: Seq<char>) -> bool;

/// Calls `regex::Regex::new(pattern)`: the claim is that whether it succeeds
/// is a function of the pattern, named `regex_is_valid`, and that it
/// succeeds for the pattern of Modrinth project URLs,
/// `modrinth\.com/mod/(.*)`. Which other patterns compile is left unstated.
#[verifier::external_body]
pub fn regex_compiles(pattern: &str) -> (r: bool)
    ensures
        r == regex_is_valid(pattern@),
        pattern@ == mod_url_pattern() ==> r,
{
    regex::Regex::new(pattern).is_ok()
}

/// What `Regex::captures` of a valid `pattern` finds in `haystack`: `None`
/// where it does not match, else the text of capture group `group`, itself
/// `None` where that group took no part in the match.
pub uninterp spec fn regex_group(pattern: Seq<char>, haystack: Seq<char>, group: nat) -> Option<Option<Seq<char>>>;

/// Compiles `pattern` and calls `Regex::captures(haystack)` and then
/// `Captures::get(group)`. The claim is that the outcome is a function of
/// the three arguments, named `regex_group`, and what it is for the first
/// group of the pattern of Modrinth project URLs, `modrinth\.com/mod/(.*)`:
/// the leftmost match starts at the first `modrinth.com/mod/`, and `.*`
/// takes every character after it up to the first line break (`.` does not
/// match `\n`), so the group is `url_slug(haystack)`, and there is no match
/// where the text does not occur. Matching for other patterns is left
/// unstated.
#[verifier::external_body]
pub fn regex_capture(pattern: &str, haystack: &str, group: usize) -> (r: Option<Option<String>>)
    requires
        regex_is_valid(pattern@),
    ensures
        match r {
            Some(Some(g)) => regex_group(pattern@, haystack@, group as nat) == Some(Some(g@)),
            Some(None) => regex_group(pattern@, haystack@, group as nat) == Some(None::<Seq<char>>),
            None => regex_group(pattern@, haystack@, group as nat) is None,
        },
        pattern@ == mod_url_pattern() && group == 1 ==> match url_slug(haystack@) {
            Some(slug) => r matches Some(Some(g)) && g@ == slug,
            None => r is None,
        },
{
    let re = regex::Regex::new(pattern).unwrap();
    re.captures(haystack).map(|caps| caps.get(group).map(|m| m.as_str().to_string()))
}

/// Calls `serde_json::to_string` on a list of strings. Its documentation
/// says that serialization fails only where a `Serialize` impl decides to
/// or a map has non-string keys, neither of which a list of strings has, so
/// the error arm is never taken. The claim is that the text is the compact
/// JSON of the list as `json_string_list` spells it out: `[`, each string
/// between double quotes with `"`, `\` and the control characters escaped
/// (the escape table and `CompactFormatter` of `serde_json`'s `ser.rs`),
/// the strings separated by `,`, and `]`.
#[verifier::external_body]
pub fn json_string_array(items: &Vec<String>) -> (r: String)
    ensures
        r@ == json_string_list(items.deep_view()),
{
    match serde_json::to_string(items) {
        Ok(text) => text,
        Err(_) => String::new(),
    }
}

/// What `str::to_lowercase` gives: the Unicode lowercase of the text
/// (each character's lowercase mapping, with the final-sigma rule for
/// `Σ`).
pub uninterp spec fn lowercase(s: Seq<char>) -> Seq<char>;

/// The ASCII lowercase of `c`: `A` to `Z` become `a` to `z`, and every
/// other character stays as it is.
pub open spec fn ascii_lower(c: char) -> char {
    if 'A' <= c && c <= 'Z' {
        ((c as u32) + 32) as char
    } else {
        c
    }
}

/// Calls `str::to_lowercase`. The claim is that the result is a function of
/// the text, named `lowercase`; that it is empty exactly where the text is
/// (every character lowercases to one or more characters, as
/// `char::to_lowercase` documents); and that text of ASCII characters
/// lowercases character by character to its ASCII lowercase (Unicode's
/// lowercase mapping of an ASCII character is its ASCII lowercase). The
/// Unicode case tables beyond ASCII are left unstated.
#[verifier::external_body]
pub fn str_to_lowercase(s: &str) -> (r: String)
    ensures
        r@ == lowercase(s@),
        r@.len() == 0 <==> s@.len() == 0,
        (forall|i: int| 0 <= i < s@.len() ==> (#[trigger] s@[i] as u32) < 128) ==> r@ == s@.map_values(
            |c: char| ascii_lower(c),
        ),
{
    s.to_lowercase()
}

} // verus!
