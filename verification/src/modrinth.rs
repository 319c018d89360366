//! The Modrinth API: the records it answers with and the requests sent to it.
use vstd::prelude::*;

use crate::bindings::json_string_array;
use crate::commands::joined;
use crate::manifest::CsvMeta;
use crate::text::{push_str, string_of};

verus! {

/// A project as the Modrinth API describes it.
#[derive(Debug)]
pub struct Project {
    pub id: String,
    pub slug: String,
    pub title: String,
    pub client_side: String,
    pub server_side: String,
}

/// One published version of a project.
#[derive(Debug)]
pub struct ModVersion {
    pub id: String,
    pub version_number: String,
    pub version_type: String,
    pub dependencies: Vec<ModDependency>,
    pub files: Vec<VersionFile>,
}

/// A dependency of a version on another project.
#[derive(Debug)]
pub struct ModDependency {
    pub project_id: Option<String>,
    pub dependency_type: String,
}

/// A file of a version.
#[derive(Debug)]
pub struct VersionFile {
    pub hashes: Hashes,
    pub url: String,
    pub filename: String,
    pub size: i64,
}

/// The hashes of a file.
#[derive(Debug)]
pub struct Hashes {
    pub sha1: String,
}

/// A GET request: the URL and the query parameters, in order.
pub struct ApiRequest {
    pub url: String,
    pub query: Vec<(String, String)>,
}

/// The endpoint that describes several projects at once.
pub open spec fn projects_url() -> Seq<char> {
    "https://api.modrinth.com/v2/projects"@
}

/// The endpoint that lists the versions of the project `id`: the `%s` of
/// `https://api.modrinth.com/v2/project/%s/version` replaced by `id`.
pub open spec fn versions_url(id: Seq<char>) -> Seq<char> {
    "https://api.modrinth.com/v2/project/"@ + id + "/version"@
}

/// A one-item JSON list as the API's filters take it: `["s"]`, with `s`
/// written as it is.
pub open spec fn bracketed(s: Seq<char>) -> Seq<char> {
    "[\""@ + s + "\"]"@
}

/// The lowercase hexadecimal digit for `d`, from 0 to 15.
pub open spec fn hex_digit(d: int) -> char {
    "0123456789abcdef"@[d]
}

/// How JSON writes `c` inside a string: `"` and `\` behind a backslash;
/// the control characters below U+0020 as `\b`, `\t`, `\n`, `\f`, `\r`
/// where JSON has such an escape and as `\u00` and two lowercase hex digits
/// otherwise; every other character as it is.
pub open spec fn json_char(c: char) -> Seq<char> {
    let n = c as int;
    if c == '"' {
        seq!['\\', '"']
    } else if c == '\\' {
        seq!['\\', '\\']
    } else if n == 8 {
        seq!['\\', 'b']
    } else if n == 9 {
        seq!['\\', 't']
    } else if n == 10 {
        seq!['\\', 'n']
    } else if n == 12 {
        seq!['\\', 'f']
    } else if n == 13 {
        seq!['\\', 'r']
    } else if n < 32 {
        seq!['\\', 'u', '0', '0', hex_digit(n / 16), hex_digit(n % 16)]
    } else {
        seq![c]
    }
}

/// The characters of `s` as JSON writes them inside a string.
pub open spec fn json_chars(s: Seq<char>) -> Seq<char>
    decreases s.len(),
{
    if s.len() == 0 {
        seq![]
    } else {
        json_chars(s.drop_last()) + json_char(s.last())
    }
}

/// `s` as a JSON string: its characters, escaped, between double quotes.
pub open spec fn json_string(s: Seq<char>) -> Seq<char> {
    seq!['"'] + json_chars(s) + seq!['"']
}

/// A list of strings as compact JSON: `[`, the strings as JSON strings
/// separated by `,`, and `]`.
pub open spec fn json_string_list(items: Seq<Seq<char>>) -> Seq<char> {
    seq!['['] + joined(items.map_values(|s: Seq<char>| json_string(s)), seq![',']) + seq![']']
}

/// The request that describes the projects `ids`: their JSON list in the
/// `ids` parameter.
pub fn fetch_projects_request(ids: &Vec<String>) -> (r: ApiRequest)
    ensures
        r.url@ == projects_url(),
        r.query.deep_view() == seq![("ids"@, json_string_list(ids.deep_view()))],
{
    let mut query: Vec<(String, String)> = Vec::new();
    query.push((String::from_str("ids"), json_string_array(ids)));
    let r = ApiRequest { url: String::from_str("https://api.modrinth.com/v2/projects"), query };
    assert(r.query.deep_view() =~= seq![("ids"@, json_string_list(ids.deep_view()))]);
    r
}

fn bracketed_string(s: &str) -> (r: String)
    ensures
        r@ == bracketed(s@),
{
    let mut v: Vec<char> = Vec::new();
    push_str(&mut v, "[\"");
    push_str(&mut v, s);
    push_str(&mut v, "\"]");
    assert(v@ =~= bracketed(s@));
    string_of(&v)
}

/// The request that lists the versions of `project_id` for the manifest's
/// loader and Minecraft version.
pub fn fetch_versions_for_project(project_id: &str, meta: &CsvMeta) -> (r: ApiRequest)
    ensures
        r.url@ == versions_url(project_id@),
        r.query.deep_view() == seq![
            ("loaders"@, bracketed(meta.loader@)),
            ("game_versions"@, bracketed(meta.minecraft@)),
        ],
{
    let mut url: Vec<char> = Vec::new();
    push_str(&mut url, "https://api.modrinth.com/v2/project/");
    push_str(&mut url, project_id);
    push_str(&mut url, "/version");
    assert(url@ =~= versions_url(project_id@));
    let mut query: Vec<(String, String)> = Vec::new();
    query.push((String::from_str("loaders"), bracketed_string(meta.loader.as_str())));
    query.push((String::from_str("game_versions"), bracketed_string(meta.minecraft.as_str())));
    let r = ApiRequest { url: string_of(&url), query };
    assert(r.query.deep_view() =~= seq![
        ("loaders"@, bracketed(meta.loader@)),
        ("game_versions"@, bracketed(meta.minecraft@)),
    ]);
    r
}

} // verus!
