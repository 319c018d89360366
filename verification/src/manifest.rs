//! The manifest file: comment lines that carry the Minecraft version, the
//! loader and the format version, and a CSV table of projects.
//!
//! ```text
//! # version: 1
//! # minecraft: 1.21.1
//! # loader: fabric
//! id,version,environment
//! sodium,=mc1.21-0.5.11,c
//! lithium,,s
//! ```
//!
//! A line that starts with `#` is never part of the table: a project is
//! commented out by prefixing its row with `#`. On a row, a `#` that
//! follows white space after the row's text, outside quotes, starts an
//! annotation, which is not part of the row.
//! A version written as `=v` pins the project at `v`.
use vstd::prelude::*;

use crate::bindings::{
    char_is_whitespace,
    csv_table, csv_text, read_csv_table, regex_capture, regex_compiles, regex_is_valid,
    write_csv_table,
};
use crate::text::{
    chars_eq, chars_of, decimal, decimal_chars, has_prefix, lines_of, parse_u32, parse_u32_chars,
    push_all, push_str, slice_chars, split_lines, split_once, split_once_chars, starts_with_chars,
    string_of, strip_all_leading, strip_leading_chars, trim, trim_chars, views_of, lines_text,
    is_plain_line, is_white_space, lemma_first_index, lemma_trimmed_ends, lemma_trim_space_then,
    lemma_parse_u32_of_decimal, lemma_decimal_digits, lemma_lines_round_trip, lemma_trim_end_space,
    trim_start, trim_end, is_digit, trim_end_chars, first_occurrence, first_line, occurs_at, first_index_of, lemma_first_index_bounds,
};

verus! {

/// The format version that new manifests are written with.
pub const CSV_VERSION: u32 = 1;

/// One project row of the manifest.
#[derive(Debug)]
pub struct CsvEntry {
    /// Modrinth project id or slug.
    pub id: String,
    /// The version to install; `None` tracks the latest one.
    pub version: Option<String>,
    /// `c`, `s` or `cs`: the sides the project is installed on.
    pub environment: Option<String>,
    /// Whether the version is pinned (written `=version` in the file).
    pub is_version_fixed: bool,
}

/// The manifest's settings and its comment lines.
#[derive(Debug)]
pub struct CsvMeta {
    pub minecraft: String,
    pub loader: String,
    pub version: u32,
    /// Comment lines that carry no setting, kept as written.
    pub comments: Vec<String>,
}

/// A manifest row as text.
pub struct EntryView {
    pub id: Seq<char>,
    pub version: Option<Seq<char>>,
    pub environment: Option<Seq<char>>,
    pub is_version_fixed: bool,
}

/// A manifest's settings and comments as text.
pub struct MetaView {
    pub minecraft: Seq<char>,
    pub loader: Seq<char>,
    pub version: u32,
    pub comments: Seq<Seq<char>>,
}

impl View for CsvEntry {
    type V = EntryView;

    open spec fn view(&self) -> EntryView {
        EntryView {
            id: self.id@,
            version: self.version.deep_view(),
            environment: self.environment.deep_view(),
            is_version_fixed: self.is_version_fixed,
        }
    }
}

impl View for CsvMeta {
    type V = MetaView;

    open spec fn view(&self) -> MetaView {
        MetaView {
            minecraft: self.minecraft@,
            loader: self.loader@,
            version: self.version,
            comments: self.comments.deep_view(),
        }
    }
}

/// Why a manifest could not be read.
#[derive(Clone, Copy, Debug, PartialEq, Eq, Structural)]
pub enum ManifestError {
    /// A `# version:` line whose value is not a `u32`.
    BadVersion,
    /// The CSV reader refused the table.
    Table,
    /// A row does not give the fields of an entry.
    Record,
}

/// The views of a list of entries.
pub open spec fn entry_views(v: Seq<CsvEntry>) -> Seq<EntryView> {
    v.map_values(|e: CsvEntry| e@)
}

/// The settings of a manifest that says nothing.
pub open spec fn default_meta() -> MetaView {
    MetaView { minecraft: seq![], loader: seq![], version: CSV_VERSION, comments: seq![] }
}

impl Default for CsvMeta {
    fn default() -> (r: Self)
        ensures
            r@ == default_meta(),
    {
        let r = CsvMeta {
            minecraft: String::new(),
            loader: String::new(),
            version: CSV_VERSION,
            comments: Vec::new(),
        };
        assert(r.comments.deep_view() =~= Seq::<Seq<char>>::empty());
        r
    }
}

// ---------------------------------------------------------------------------
// Reading: comment lines and table lines.
// ---------------------------------------------------------------------------

/// Whether `line` belongs to the comment block rather than the table.
pub open spec fn is_hash_line(line: Seq<char>) -> bool {
    line.len() > 0 && line[0] == '#'
}

/// The key and value of a `# key: value` line, before trimming.
pub open spec fn setting_of(line: Seq<char>) -> Option<(Seq<char>, Seq<char>)> {
    split_once(trim(strip_all_leading(line, '#')), ':')
}

/// What one line does to the settings read so far and to the table text.
pub open spec fn scan_step(meta: MetaView, data: Seq<char>, line: Seq<char>) -> Result<
    (MetaView, Seq<char>),
    ManifestError,
> {
    if is_hash_line(line) {
        let kept = MetaView { comments: meta.comments.push(line), ..meta };
        match setting_of(line) {
            Some((key, val)) => {
                let k = trim(key);
                if k == "minecraft"@ {
                    Ok((MetaView { minecraft: trim(val), ..meta }, data))
                } else if k == "loader"@ {
                    Ok((MetaView { loader: trim(val), ..meta }, data))
                } else if k == "version"@ {
                    match parse_u32(trim(val)) {
                        Some(v) => Ok((MetaView { version: v, ..meta }, data)),
                        None => Err(ManifestError::BadVersion),
                    }
                } else {
                    Ok((kept, data))
                }
            },
            None => Ok((kept, data)),
        }
    } else {
        Ok((meta, data + without_annotation(line) + seq!['\n']))
    }
}

/// How many double quotes `s` holds.
pub open spec fn quote_count(s: Seq<char>) -> nat
    decreases s.len(),
{
    if s.len() == 0 {
        0
    } else {
        quote_count(s.drop_last()) + if s.last() == '"' {
            1nat
        } else {
            0nat
        }
    }
}

/// Whether `line` holds a character other than white space before `j`.
pub open spec fn has_text_before(line: Seq<char>, j: int) -> bool {
    exists|k: int| 0 <= k < j && !is_white_space(#[trigger] line[k])
}

/// Whether a row's annotation begins at `j`: a `#` right after white space,
/// after some text of the row and outside any quoted field.
pub open spec fn is_annotation_start(line: Seq<char>, j: int) -> bool {
    &&& 0 < j < line.len()
    &&& line[j] == '#'
    &&& is_white_space(line[j - 1])
    &&& has_text_before(line, j)
    &&& quote_count(line.take(j)) % 2 == 0
}

/// Where a row's annotation begins: the first `#` that follows white space
/// after the row's text, outside quotes; -1 where the row has none.
#[verifier::opaque]
pub open spec fn annotation_start(line: Seq<char>) -> int {
    if exists|j: int| is_annotation_start(line, j) {
        choose|j: int|
            is_annotation_start(line, j) && forall|k: int| 0 <= k < j ==> !is_annotation_start(line, k)
    } else {
        -1
    }
}

/// A table line without its annotation: from the first `#` that follows
/// white space after the row's text, outside quotes, to the end of the line
/// is a note for the reader, not part of the row, and the white space
/// before it goes too.
#[verifier::opaque]
pub open spec fn without_annotation(line: Seq<char>) -> Seq<char> {
    let j = annotation_start(line);
    if j < 0 {
        line
    } else {
        trim_end(line.take(j))
    }
}

/// The first annotation start is the one the search found.
proof fn lemma_annotation_at(line: Seq<char>, j: int)
    requires
        is_annotation_start(line, j),
        forall|k: int| 0 <= k < j ==> !is_annotation_start(line, k),
    ensures
        annotation_start(line) == j,
{
    reveal(annotation_start);
    let a = annotation_start(line);
    if a < j {
        assert(!is_annotation_start(line, a));
    }
    if j < a {
        assert(!is_annotation_start(line, j));
    }
}

/// A row with no annotation has no annotation start.
proof fn lemma_no_annotation(line: Seq<char>)
    requires
        forall|k: int| 0 <= k < line.len() ==> !is_annotation_start(line, k),
    ensures
        annotation_start(line) == -1,
{
    reveal(annotation_start);
    if exists|j: int| is_annotation_start(line, j) {
        let j = choose|j: int| is_annotation_start(line, j);
        assert(!is_annotation_start(line, j));
    }
}

/// A table line without its annotation.
pub fn strip_annotation(line: &Vec<char>) -> (r: Vec<char>)
    ensures
        r@ == without_annotation(line@),
{
    reveal(without_annotation);
    let mut j: usize = 0;
    let mut in_quotes = false;
    let mut has_text = false;
    while j < line.len()
        invariant
            j <= line@.len(),
            in_quotes == (quote_count(line@.take(j as int)) % 2 == 1),
            has_text == has_text_before(line@, j as int),
            forall|k: int| 0 <= k < j ==> !is_annotation_start(line@, k),
        decreases line.len() - j,
    {
        if j > 0 && line[j] == '#' && has_text && !in_quotes && char_is_whitespace(line[j - 1]) {
            proof {
                lemma_annotation_at(line@, j as int);
                reveal(without_annotation);
            }
            let head = slice_chars(line, 0, j);
            assert(head@ =~= line@.take(j as int));
            assert(without_annotation(line@) == trim_end(line@.take(j as int)));
            return trim_end_chars(&head);
        }
        let c = line[j];
        assert(line@.take(j + 1).drop_last() =~= line@.take(j as int));
        if c == '"' {
            in_quotes = !in_quotes;
        }
        if !char_is_whitespace(c) {
            has_text = true;
        }
        proof {
            if has_text && !has_text_before(line@, j as int) {
                assert(!is_white_space(line@[j as int]));
            }
            if has_text_before(line@, j + 1) && !has_text {
                let k = choose|k: int| 0 <= k < j + 1 && !is_white_space(#[trigger] line@[k]);
                assert(k < j);
            }
        }
        j = j + 1;
    }
    proof {
        lemma_no_annotation(line@);
    }
    assert(without_annotation(line@) == line@);
    let mut r: Vec<char> = Vec::new();
    push_all(&mut r, line);
    r
}

/// The settings and the table text that `lines` give, read in order.
pub open spec fn scan_lines(lines: Seq<Seq<char>>) -> Result<(MetaView, Seq<char>), ManifestError>
    decreases lines.len(),
{
    if lines.len() == 0 {
        Ok((default_meta(), seq![]))
    } else {
        match scan_lines(lines.drop_last()) {
            Ok((meta, data)) => scan_step(meta, data, lines.last()),
            Err(e) => Err(e),
        }
    }
}

fn set_field(s: &mut String, v: &Vec<char>)
    ensures
        final(s)@ == v@,
{
    *s = string_of(v);
}

/// Applies one line to the settings read so far and to the table text.
fn scan_line(meta: &mut CsvMeta, data: &mut Vec<char>, line: &Vec<char>) -> (r: Result<(), ManifestError>)
    ensures
        match scan_step(old(meta)@, old(data)@, line@) {
            Ok((m, d)) => r is Ok && final(meta)@ == m && final(data)@ == d,
            Err(e) => r == Err::<(), ManifestError>(e),
        },
{
    if line.len() > 0 && line[0] == '#' {
        let clean = trim_chars(&strip_leading_chars(line, '#'));
        match split_once_chars(&clean, ':') {
            Some((key, val)) => {
                let k = trim_chars(&key);
                let v = trim_chars(&val);
                if chars_eq(&k, &chars_of("minecraft")) {
                    set_field(&mut meta.minecraft, &v);
                    Ok(())
                } else if chars_eq(&k, &chars_of("loader")) {
                    set_field(&mut meta.loader, &v);
                    Ok(())
                } else if chars_eq(&k, &chars_of("version")) {
                    match parse_u32_chars(&v) {
                        Some(n) => {
                            meta.version = n;
                            Ok(())
                        },
                        None => Err(ManifestError::BadVersion),
                    }
                } else {
                    meta.comments.push(string_of(line));
                    assert(meta.comments.deep_view() =~= old(meta).comments.deep_view().push(line@));
                    Ok(())
                }
            },
            None => {
                meta.comments.push(string_of(line));
                assert(meta.comments.deep_view() =~= old(meta).comments.deep_view().push(line@));
                Ok(())
            },
        }
    } else {
        let row = strip_annotation(line);
        push_all(data, &row);
        data.push('\n');
        Ok(())
    }
}

/// Reads the settings from the comment lines and gathers the other lines,
/// each ended by `'\n'`, as the table text.
pub fn scan_manifest_lines(lines: &Vec<Vec<char>>) -> (r: Result<(CsvMeta, Vec<char>), ManifestError>)
    ensures
        match scan_lines(views_of(lines@)) {
            Ok((m, d)) => r matches Ok((meta, data)) && meta@ == m && data@ == d,
            Err(e) => r matches Err(e2) && e2 == e,
        },
{
    let mut meta = CsvMeta::default();
    let mut data: Vec<char> = Vec::new();
    let mut i: usize = 0;
    assert(views_of(lines@).take(0) =~= Seq::<Seq<char>>::empty());
    while i < lines.len()
        invariant
            i <= lines.len(),
            scan_lines(views_of(lines@).take(i as int)) == Ok::<(MetaView, Seq<char>), ManifestError>(
                (meta@, data@),
            ),
        decreases lines.len() - i,
    {
        assert(views_of(lines@).take(i + 1).drop_last() =~= views_of(lines@).take(i as int));
        match scan_line(&mut meta, &mut data, &lines[i]) {
            Ok(()) => {},
            Err(e) => {
                proof {
                    lemma_scan_error_stays(views_of(lines@), (i + 1) as int);
                }
                return Err(e);
            },
        }
        i = i + 1;
    }
    assert(views_of(lines@).take(lines.len() as int) =~= views_of(lines@));
    Ok((meta, data))
}

/// Once a line is refused, reading more lines does not change the outcome.
pub proof fn lemma_scan_error_stays(lines: Seq<Seq<char>>, k: int)
    requires
        0 <= k <= lines.len(),
        scan_lines(lines.take(k)) is Err,
    ensures
        scan_lines(lines) == scan_lines(lines.take(k)),
    decreases lines.len() - k,
{
    if k < lines.len() {
        assert(lines.take(k + 1).drop_last() =~= lines.take(k));
        lemma_scan_error_stays(lines, k + 1);
    } else {
        assert(lines.take(k) =~= lines);
    }
}

// ---------------------------------------------------------------------------
// Reading: table rows into entries.
// ---------------------------------------------------------------------------

/// The fields of an entry found so far while walking a row's headers.
pub struct FieldsSeen {
    pub id: Option<Seq<char>>,
    pub version: Option<Option<Seq<char>>>,
    pub environment: Option<Option<Seq<char>>>,
}

/// The optional field at `i`: absent where the row is shorter or the field
/// is empty.
pub open spec fn optional_field(row: Seq<Seq<char>>, i: int) -> Option<Seq<char>> {
    if i < row.len() && row[i].len() > 0 {
        Some(row[i])
    } else {
        None
    }
}

/// The header at `i` with its field: `None` where the row cannot give an
/// entry (a field named twice, a missing `id` value, or a missing value
/// under an unknown header).
pub open spec fn field_step(seen: FieldsSeen, header: Seq<char>, row: Seq<Seq<char>>, i: int) -> Option<FieldsSeen> {
    if header == "id"@ {
        if seen.id is Some || i >= row.len() {
            None
        } else {
            Some(FieldsSeen { id: Some(row[i]), ..seen })
        }
    } else if header == "version"@ {
        if seen.version is Some {
            None
        } else {
            Some(FieldsSeen { version: Some(optional_field(row, i)), ..seen })
        }
    } else if header == "environment"@ {
        if seen.environment is Some {
            None
        } else {
            Some(FieldsSeen { environment: Some(optional_field(row, i)), ..seen })
        }
    } else if i >= row.len() {
        None
    } else {
        Some(seen)
    }
}

/// The fields found under the first `n` headers.
pub open spec fn fields_of(headers: Seq<Seq<char>>, row: Seq<Seq<char>>, n: nat) -> Option<FieldsSeen>
    decreases n,
{
    if n == 0 {
        Some(FieldsSeen { id: None, version: None, environment: None })
    } else {
        match fields_of(headers, row, (n - 1) as nat) {
            Some(seen) => field_step(seen, headers[n - 1], row, n - 1),
            None => None,
        }
    }
}

/// A field that was never named is absent.
pub open spec fn flatten(o: Option<Option<Seq<char>>>) -> Option<Seq<char>> {
    match o {
        Some(x) => x,
        None => None,
    }
}

/// The entry that a row gives under `headers`, before its id and version
/// are read: fields are taken by header name, an empty field is absent,
/// other headers are ignored, and `id` is required.
pub open spec fn record_entry(headers: Seq<Seq<char>>, row: Seq<Seq<char>>) -> Option<EntryView> {
    match fields_of(headers, row, headers.len()) {
        Some(f) => match f.id {
            Some(id) => Some(
                EntryView {
                    id,
                    version: flatten(f.version),
                    environment: flatten(f.environment),
                    is_version_fixed: false,
                },
            ),
            None => None,
        },
        None => None,
    }
}

/// The pattern whose first group is the project slug in a Modrinth URL.
pub open spec fn mod_url_pattern() -> Seq<char> {
    "modrinth\\.com/mod/(.*)"@
}

/// A version written `=v` is pinned at `v`.
pub open spec fn pinned(e: EntryView) -> EntryView {
    match e.version {
        Some(v) => if v.len() > 0 && v[0] == '=' {
            EntryView { version: Some(v.drop_first()), is_version_fixed: true, ..e }
        } else {
            e
        },
        None => e,
    }
}

/// The text before a project's slug in a Modrinth URL.
pub open spec fn mod_url_prefix() -> Seq<char> {
    "modrinth.com/mod/"@
}

/// The slug that `mod_url_pattern` captures in `text`: what follows the
/// first `modrinth.com/mod/`, up to the first line break; `None` where
/// `text` does not hold `modrinth.com/mod/`.
#[verifier::opaque]
pub open spec fn url_slug(text: Seq<char>) -> Option<Seq<char>> {
    let i = first_occurrence(text, mod_url_prefix());
    if i < 0 {
        None
    } else {
        Some(first_line(text.skip(i + mod_url_prefix().len())))
    }
}

/// The id of an entry: a URL (an id that starts with `http`) stands for the
/// slug that the pattern captures, and for itself where it does not match.
pub open spec fn resolved_id(id: Seq<char>) -> Seq<char> {
    if has_prefix(id, "http"@) {
        match url_slug(id) {
            Some(slug) => slug,
            None => id,
        }
    } else {
        id
    }
}

/// A URL id is read as the text after its first `modrinth.com/mod/`: for
/// an id that starts with `http` and whose first `modrinth.com/mod/` is at
/// `i`, the entry read from it has as id the text that follows, up to the
/// first line break or the end.
pub proof fn lemma_url_id_read_as_slug(e: EntryView, i: int)
    requires
        has_prefix(e.id, "http"@),
        occurs_at(e.id, "modrinth.com/mod/"@, i),
        forall|j: int| 0 <= j < i ==> !occurs_at(e.id, "modrinth.com/mod/"@, j),
    ensures
        ({
            let slug = normalized_entry(e).id;
            let rest = e.id.skip(i + "modrinth.com/mod/"@.len());
            &&& slug.len() <= rest.len()
            &&& slug == rest.take(slug.len() as int)
            &&& !slug.contains('\n')
            &&& slug.len() == rest.len() || rest[slug.len() as int] == '\n'
        }),
{
    let m = "modrinth.com/mod/"@;
    assert(m == mod_url_prefix());
    assert(exists|k: int| occurs_at(e.id, m, k));
    let f = first_occurrence(e.id, m);
    assert(occurs_at(e.id, m, f) && forall|j: int| 0 <= j < f ==> !occurs_at(e.id, m, j));
    if f < i {
        assert(!occurs_at(e.id, m, f));
    }
    if i < f {
        assert(!occurs_at(e.id, m, i));
    }
    reveal(url_slug);
    let rest = e.id.skip(i + m.len());
    assert(url_slug(e.id) == Some(first_line(rest)));
    let slug = first_line(rest);
    lemma_first_index_bounds(rest, '\n');
    let k = first_index_of(rest, '\n');
    if k >= 0 {
        assert(slug =~= rest.take(k));
        assert forall|t: int| 0 <= t < slug.len() implies slug[t] != '\n' by {
            assert(slug[t] == rest[t]);
        }
    } else {
        assert(slug =~= rest.take(slug.len() as int));
    }
    assert(!slug.contains('\n'));
    assert(normalized_entry(e).id == slug);
}

/// An id that does not start with `http`, or does not hold
/// `modrinth.com/mod/`, is read as it is.
pub proof fn lemma_other_id_kept(e: EntryView)
    requires
        !has_prefix(e.id, "http"@) || forall|j: int| !occurs_at(e.id, "modrinth.com/mod/"@, j),
    ensures
        normalized_entry(e).id == e.id,
{
    reveal(url_slug);
    assert("modrinth.com/mod/"@ == mod_url_prefix());
}

/// An entry as read from a row: its id resolved and its version pin read.
pub open spec fn normalized_entry(e: EntryView) -> EntryView {
    pinned(EntryView { id: resolved_id(e.id), ..e })
}

/// The entries that the table rows give, in order.
pub open spec fn entries_from(headers: Seq<Seq<char>>, rows: Seq<Seq<Seq<char>>>) -> Result<
    Seq<EntryView>,
    ManifestError,
>
    decreases rows.len(),
{
    if rows.len() == 0 {
        Ok(seq![])
    } else {
        match entries_from(headers, rows.drop_last()) {
            Ok(es) => match record_entry(headers, rows.last()) {
                Some(e) => Ok(es.push(normalized_entry(e))),
                None => Err(ManifestError::Record),
            },
            Err(e) => Err(e),
        }
    }
}

/// The entries and the settings of the manifest whose text is `text`.
pub open spec fn manifest_of(text: Seq<char>) -> Result<(Seq<EntryView>, MetaView), ManifestError> {
    match scan_lines(lines_of(text)) {
        Ok((meta, data)) => match csv_table(data) {
            Some((headers, rows)) => match entries_from(headers, rows) {
                Ok(es) => Ok((es, meta)),
                Err(e) => Err(e),
            },
            None => Err(ManifestError::Table),
        },
        Err(e) => Err(e),
    }
}

/// The optional field at `i` of a row.
fn optional_field_of(row: &Vec<String>, i: usize) -> (r: Option<String>)
    ensures
        r.deep_view() == optional_field(row.deep_view(), i as int),
{
    if i < row.len() && row[i].as_str().unicode_len() > 0 {
        Some(row[i].clone())
    } else {
        None
    }
}

/// The exec form of `FieldsSeen`.
struct FieldsFound {
    id: Option<String>,
    version: Option<Option<String>>,
    environment: Option<Option<String>>,
}

impl FieldsFound {
    spec fn view(&self) -> FieldsSeen {
        FieldsSeen {
            id: self.id.deep_view(),
            version: match self.version {
                Some(v) => Some(v.deep_view()),
                None => None,
            },
            environment: match self.environment {
                Some(v) => Some(v.deep_view()),
                None => None,
            },
        }
    }
}

/// The entry that `row` gives under `headers`, before its id and version
/// are read.
pub fn record_to_entry(headers: &Vec<String>, row: &Vec<String>) -> (r: Option<CsvEntry>)
    ensures
        match record_entry(headers.deep_view(), row.deep_view()) {
            Some(e) => r matches Some(entry) && entry@ == e,
            None => r is None,
        },
{
    let ghost hv = headers.deep_view();
    let ghost rv = row.deep_view();
    let id_key = String::from_str("id");
    let version_key = String::from_str("version");
    let environment_key = String::from_str("environment");
    let mut found = FieldsFound { id: None, version: None, environment: None };
    let mut i: usize = 0;
    while i < headers.len()
        invariant
            i <= headers.len(),
            hv == headers.deep_view(),
            rv == row.deep_view(),
            id_key@ == "id"@,
            version_key@ == "version"@,
            environment_key@ == "environment"@,
            fields_of(hv, rv, i as nat) == Some(found.view()),
        decreases headers.len() - i,
    {
        let ghost seen = found.view();
        assert(hv[i as int] == headers[i as int]@);
        if headers[i] == id_key {
            if found.id.is_some() || i >= row.len() {
                proof {
                    lemma_fields_fail_stays(hv, rv, (i + 1) as nat);
                }
                return None;
            }
            found.id = Some(row[i].clone());
        } else if headers[i] == version_key {
            if found.version.is_some() {
                proof {
                    lemma_fields_fail_stays(hv, rv, (i + 1) as nat);
                }
                return None;
            }
            found.version = Some(optional_field_of(row, i));
        } else if headers[i] == environment_key {
            if found.environment.is_some() {
                proof {
                    lemma_fields_fail_stays(hv, rv, (i + 1) as nat);
                }
                return None;
            }
            found.environment = Some(optional_field_of(row, i));
        } else if i >= row.len() {
            proof {
                lemma_fields_fail_stays(hv, rv, (i + 1) as nat);
            }
            return None;
        }
        assert(fields_of(hv, rv, (i + 1) as nat) == Some(found.view()));
        i = i + 1;
    }
    match found.id {
        Some(id) => {
            let version = match found.version {
                Some(v) => v,
                None => None,
            };
            let environment = match found.environment {
                Some(v) => v,
                None => None,
            };
            Some(CsvEntry { id, version, environment, is_version_fixed: false })
        },
        None => None,
    }
}

/// Once a header is refused, the row gives no entry.
proof fn lemma_fields_fail_stays(headers: Seq<Seq<char>>, row: Seq<Seq<char>>, k: nat)
    requires
        k <= headers.len(),
        fields_of(headers, row, k) is None,
    ensures
        fields_of(headers, row, headers.len()) is None,
    decreases headers.len() - k,
{
    if k < headers.len() {
        lemma_fields_fail_stays(headers, row, k + 1);
    }
}

/// The pattern for Modrinth project URLs, as text.
fn mod_url_pattern_str() -> (r: &'static str)
    ensures
        r@ == mod_url_pattern(),
{
    "modrinth\\.com/mod/(.*)"
}

/// `e` with a version written `=v` read as pinned at `v`.
fn pin_entry(e: CsvEntry) -> (r: CsvEntry)
    ensures
        r@ == pinned(e@),
{
    let mut e = e;
    let stripped = match &e.version {
        Some(v) => {
            let cs = chars_of(v.as_str());
            if cs.len() > 0 && cs[0] == '=' {
                Some(string_of(&slice_chars(&cs, 1, cs.len())))
            } else {
                None
            }
        },
        None => None,
    };
    match stripped {
        Some(v) => {
            proof {
                let ov = e.version.deep_view()->0;
                assert(v@ =~= ov.drop_first());
            }
            e.version = Some(v);
            e.is_version_fixed = true;
        },
        None => {},
    }
    e
}

/// The entry as read from a row: an id that starts with `http` is replaced
/// by the slug that the Modrinth URL pattern captures, and a version `=v`
/// is read as pinned at `v`.
pub fn normalize_entry(e: CsvEntry) -> (r: CsvEntry)
    requires
        regex_is_valid(mod_url_pattern()),
    ensures
        r@ == normalized_entry(e@),
{
    let mut e = e;
    let id_chars = chars_of(e.id.as_str());
    if starts_with_chars(&id_chars, &chars_of("http")) {
        match regex_capture(mod_url_pattern_str(), e.id.as_str(), 1) {
            Some(Some(slug)) => {
                e.id = slug;
            },
            _ => {},
        }
    }
    pin_entry(e)
}

/// The entries that the table rows give, in order.
pub fn entries_from_table(headers: &Vec<String>, rows: &Vec<Vec<String>>) -> (r: Result<Vec<CsvEntry>, ManifestError>)
    requires
        regex_is_valid(mod_url_pattern()),
    ensures
        match entries_from(headers.deep_view(), rows.deep_view()) {
            Ok(es) => r matches Ok(v) && entry_views(v@) == es,
            Err(e) => r matches Err(e2) && e2 == e,
        },
{
    let ghost hv = headers.deep_view();
    let ghost rv = rows.deep_view();
    let mut out: Vec<CsvEntry> = Vec::new();
    let mut i: usize = 0;
    assert(rv.take(0) =~= Seq::<Seq<Seq<char>>>::empty());
    assert(entry_views(out@) =~= Seq::<EntryView>::empty());
    while i < rows.len()
        invariant
            i <= rows.len(),
            hv == headers.deep_view(),
            rv == rows.deep_view(),
            regex_is_valid(mod_url_pattern()),
            entries_from(hv, rv.take(i as int)) == Ok::<Seq<EntryView>, ManifestError>(entry_views(out@)),
        decreases rows.len() - i,
    {
        assert(rv.take(i + 1).drop_last() =~= rv.take(i as int));
        assert(rv.take(i + 1).last() == rows[i as int].deep_view());
        let ghost before = out@;
        let res = match record_to_entry(headers, &rows[i]) {
            Some(e) => Ok(normalize_entry(e)),
            None => Err(ManifestError::Record),
        };
        match res {
            Ok(n) => {
                out.push(n);
                assert(entry_views(out@) =~= entry_views(before).push(n@));
            },
            Err(err) => {
                proof {
                    lemma_entries_error_stays(hv, rv, (i + 1) as int);
                }
                return Err(err);
            },
        }
        i = i + 1;
    }
    assert(rv.take(rows.len() as int) =~= rv);
    Ok(out)
}

/// Once a row is refused, later rows do not change the outcome.
pub proof fn lemma_entries_error_stays(headers: Seq<Seq<char>>, rows: Seq<Seq<Seq<char>>>, k: int)
    requires
        0 <= k <= rows.len(),
        entries_from(headers, rows.take(k)) is Err,
    ensures
        entries_from(headers, rows) == entries_from(headers, rows.take(k)),
    decreases rows.len() - k,
{
    if k < rows.len() {
        assert(rows.take(k + 1).drop_last() =~= rows.take(k));
        lemma_entries_error_stays(headers, rows, k + 1);
    } else {
        assert(rows.take(k) =~= rows);
    }
}

/// Reads a manifest from its text: the settings from its comment lines, and
/// the entries from the CSV table that its other lines form.
pub fn parse_manifest(text: &str) -> (r: Result<(Vec<CsvEntry>, CsvMeta), ManifestError>)
    ensures
        match manifest_of(text@) {
            Ok((es, m)) => r matches Ok((entries, meta)) && entry_views(entries@) == es && meta@ == m,
            Err(e) => r matches Err(e2) && e2 == e,
        },
{
    let lines = split_lines(&chars_of(text));
    let (meta, data) = scan_manifest_lines(&lines)?;
    let compiled = regex_compiles(mod_url_pattern_str());
    assert(compiled);
    let data_text = string_of(&data);
    match read_csv_table(data_text.as_str()) {
        Some((headers, rows)) => {
            let entries = entries_from_table(&headers, &rows)?;
            Ok((entries, meta))
        },
        None => Err(ManifestError::Table),
    }
}

// ---------------------------------------------------------------------------
// Writing.
// ---------------------------------------------------------------------------

/// The version column of an entry: `=v` where it is pinned at `v`, and
/// empty where it has none.
pub open spec fn version_field(e: EntryView) -> Seq<char> {
    match e.version {
        Some(v) => if e.is_version_fixed {
            seq!['='] + v
        } else {
            v
        },
        None => seq![],
    }
}

/// The environment column of an entry, empty where it has none.
pub open spec fn environment_field(e: EntryView) -> Seq<char> {
    match e.environment {
        Some(x) => x,
        None => seq![],
    }
}

/// The row that an entry is written as.
pub open spec fn row_of(e: EntryView) -> Seq<Seq<char>> {
    seq![e.id, version_field(e), environment_field(e)]
}

/// The header row of the table.
pub open spec fn header_row() -> Seq<Seq<char>> {
    seq!["id"@, "version"@, "environment"@]
}

/// The rows of the table that holds `es`: the header row, then one row
/// per entry.
pub open spec fn table_rows(es: Seq<EntryView>) -> Seq<Seq<Seq<char>>> {
    seq![header_row()] + es.map_values(|e: EntryView| row_of(e))
}

/// The three setting lines that open a manifest.
pub open spec fn settings_text(meta: MetaView) -> Seq<char> {
    "# version: "@ + decimal(meta.version as nat) + seq!['\n'] + "# minecraft: "@ + meta.minecraft
        + seq!['\n'] + "# loader: "@ + meta.loader + seq!['\n']
}

/// The text of the manifest that holds `es` and `meta`: the setting lines,
/// the CSV table (nothing at all where there are no entries), then the
/// comment lines. `None` where the CSV writer refuses the rows.
pub open spec fn manifest_text(es: Seq<EntryView>, meta: MetaView) -> Option<Seq<char>> {
    let table = if es.len() == 0 {
        Some(Seq::<char>::empty())
    } else {
        csv_text(table_rows(es))
    };
    match table {
        Some(t) => Some(settings_text(meta) + t + lines_text(meta.comments)),
        None => None,
    }
}

fn string_opt_chars(o: &Option<String>) -> (r: Vec<char>)
    ensures
        r@ == match o.deep_view() {
            Some(x) => x,
            None => Seq::<char>::empty(),
        },
{
    match o {
        Some(s) => chars_of(s.as_str()),
        None => Vec::new(),
    }
}

/// The row that `e` is written as.
pub fn entry_row(e: &CsvEntry) -> (r: Vec<String>)
    ensures
        r.deep_view() == row_of(e@),
{
    let mut version: Vec<char> = Vec::new();
    if e.is_version_fixed && e.version.is_some() {
        version.push('=');
    }
    let v = string_opt_chars(&e.version);
    push_all(&mut version, &v);
    let env = string_opt_chars(&e.environment);
    let mut r: Vec<String> = Vec::new();
    r.push(e.id.clone());
    r.push(string_of(&version));
    r.push(string_of(&env));
    assert(r.deep_view() =~= row_of(e@));
    r
}

/// The rows of the table that holds `entries`.
fn table_of(entries: &Vec<CsvEntry>) -> (r: Vec<Vec<String>>)
    ensures
        r.deep_view() == table_rows(entry_views(entries@)),
{
    let mut header: Vec<String> = Vec::new();
    header.push(String::from_str("id"));
    header.push(String::from_str("version"));
    header.push(String::from_str("environment"));
    assert(header.deep_view() =~= header_row());
    let mut r: Vec<Vec<String>> = Vec::new();
    r.push(header);
    let ghost es = entry_views(entries@);
    assert(es.take(0).map_values(|e: EntryView| row_of(e)) =~= Seq::<Seq<Seq<char>>>::empty());
    assert(r.deep_view() =~= table_rows(es.take(0)));
    for i in 0..entries.len()
        invariant
            es == entry_views(entries@),
            r.deep_view() == table_rows(es.take(i as int)),
    {
        let ghost before = r.deep_view();
        let row = entry_row(&entries[i]);
        r.push(row);
        assert(r.deep_view() =~= before.push(row.deep_view()));
        assert(table_rows(es.take(i + 1)) =~= table_rows(es.take(i as int)).push(row_of(es[i as int])));
    }
    assert(es.take(entries.len() as int) =~= es);
    r
}

/// Writes the three setting lines.
fn settings_chars(meta: &CsvMeta) -> (r: Vec<char>)
    ensures
        r@ == settings_text(meta@),
{
    let mut r: Vec<char> = Vec::new();
    push_str(&mut r, "# version: ");
    push_all(&mut r, &decimal_chars(meta.version as u64));
    r.push('\n');
    push_str(&mut r, "# minecraft: ");
    push_str(&mut r, meta.minecraft.as_str());
    r.push('\n');
    push_str(&mut r, "# loader: ");
    push_str(&mut r, meta.loader.as_str());
    r.push('\n');
    assert(r@ =~= settings_text(meta@));
    r
}

/// The text of the manifest that holds `entries` and `meta`.
pub fn render_manifest(entries: &Vec<CsvEntry>, meta: &CsvMeta) -> (r: Option<String>)
    ensures
        match manifest_text(entry_views(entries@), meta@) {
            Some(t) => r matches Some(s) && s@ == t,
            None => r is None,
        },
{
    let mut out = settings_chars(meta);
    if entries.len() > 0 {
        match write_csv_table(&table_of(entries)) {
            Some(t) => {
                let tc = chars_of(t.as_str());
                push_all(&mut out, &tc);
            },
            None => {
                return None;
            },
        }
    } else {
        assert(entry_views(entries@).len() == 0);
    }
    let ghost cs = meta.comments.deep_view();
    let ghost head = out@;
    assert(cs.take(0) =~= Seq::<Seq<char>>::empty());
    assert(head =~= head + lines_text(cs.take(0)));
    for i in 0..meta.comments.len()
        invariant
            cs == meta.comments.deep_view(),
            out@ == head + lines_text(cs.take(i as int)),
    {
        let c = chars_of(meta.comments[i].as_str());
        push_all(&mut out, &c);
        out.push('\n');
        assert(cs.take(i + 1).drop_last() =~= cs.take(i as int));
        assert(out@ =~= head + lines_text(cs.take(i + 1)));
    }
    assert(cs.take(meta.comments.len() as int) =~= cs);
    Some(string_of(&out))
}

// ---------------------------------------------------------------------------
// What is written reads back.
// ---------------------------------------------------------------------------

/// The three setting lines that open a manifest.
pub open spec fn settings_lines(meta: MetaView) -> Seq<Seq<char>> {
    seq![
        "# version: "@ + decimal(meta.version as nat),
        "# minecraft: "@ + meta.minecraft,
        "# loader: "@ + meta.loader,
    ]
}

/// The setting lines of `meta`, each ended by `'\n'`, are its setting text.
proof fn lemma_settings_lines_text(meta: MetaView)
    ensures
        lines_text(settings_lines(meta)) == settings_text(meta),
{
    let ls = settings_lines(meta);
    let e = ls.drop_last().drop_last().drop_last();
    assert(e =~= Seq::<Seq<char>>::empty());
    assert(lines_text(e) == Seq::<char>::empty());
    assert(ls.drop_last().drop_last().last() == ls[0]);
    assert(lines_text(ls.drop_last().drop_last()) =~= ls[0] + seq!['\n']);
    assert(ls.drop_last().last() == ls[1]);
    assert(lines_text(ls.drop_last()) =~= ls[0] + seq!['\n'] + ls[1] + seq!['\n']);
    assert(lines_text(ls) =~= settings_text(meta));
}

/// A comment line that carries no setting and so is kept as a comment.
pub open spec fn is_comment_line(line: Seq<char>) -> bool {
    &&& is_hash_line(line)
    &&& match setting_of(line) {
        Some((key, _)) => trim(key) != "minecraft"@ && trim(key) != "loader"@ && trim(key) != "version"@,
        None => true,
    }
}

/// A setting written `# key: value` reads back as `key` and `value`.
proof fn lemma_setting_line(key: Seq<char>, v: Seq<char>)
    requires
        key.len() > 0,
        !key.contains(':'),
        key[0] != '#',
        !is_white_space(key[0]),
        !is_white_space(key.last()),
        trim(v) == v,
    ensures
        setting_of(seq!['#', ' '] + key + seq![':', ' '] + v) matches Some((k, val)) && trim(k) == key
            && trim(val) == v,
{
    let line = seq!['#', ' '] + key + seq![':', ' '] + v;
    let x = key + seq![':', ' '] + v;
    assert(line.drop_first() =~= seq![' '] + x);
    assert((seq![' '] + x).drop_first() =~= x);
    assert(strip_all_leading(seq![' '] + x, '#') == seq![' '] + x);
    assert(strip_all_leading(line, '#') == seq![' '] + x);
    assert(x[0] == key[0]);
    assert(trim_start(seq![' '] + x) == trim_start(x));
    assert(trim_start(x) == x);
    let y = if v.len() > 0 {
        crate::text::lemma_trimmed_ends(v);
        assert(x.last() == v.last());
        assert(trim_end(x) == x);
        x
    } else {
        assert(x =~= key + seq![':'] + seq![' ']);
        lemma_trim_end_space(key + seq![':']);
        assert((key + seq![':']).last() == ':');
        assert(trim_end(key + seq![':']) == key + seq![':']);
        key + seq![':']
    };
    assert(trim(strip_all_leading(line, '#')) == y);
    assert forall|j: int| 0 <= j < key.len() implies y[j] != ':' by {
        assert(y[j] == key[j]);
    }
    assert(y[key.len() as int] == ':');
    lemma_first_index(y, ':', key.len() as int);
    assert(y.take(key.len() as int) =~= key);
    lemma_trimmed_key(key);
    if v.len() > 0 {
        assert(y.skip(key.len() as int + 1) =~= seq![' '] + v);
        lemma_trim_space_then(v);
    } else {
        assert(y.skip(key.len() as int + 1) =~= Seq::<char>::empty());
    }
}

/// A key that begins and ends with characters that are not white space is
/// its own trim.
proof fn lemma_trimmed_key(key: Seq<char>)
    requires
        key.len() > 0,
        !is_white_space(key[0]),
        !is_white_space(key.last()),
    ensures
        trim(key) == key,
{
    assert(trim_start(key) == key);
}

/// A `# version:` line sets the format version.
proof fn lemma_version_step(m: MetaView, n: u32)
    ensures
        scan_step(m, seq![], "# version: "@ + decimal(n as nat)) == Ok::<(MetaView, Seq<char>), ManifestError>(
            (MetaView { version: n, ..m }, seq![]),
        ),
{
    reveal_strlit("version");
    reveal_strlit("minecraft");
    reveal_strlit("loader");
    reveal_strlit("# version: ");
    let d = decimal(n as nat);
    lemma_decimal_digits(n as nat);
    lemma_digits_trimmed(d);
    lemma_parse_u32_of_decimal(n);
    let l = "# version: "@ + d;
    assert(l =~= seq!['#', ' '] + "version"@ + seq![':', ' '] + d);
    lemma_setting_line("version"@, d);
    assert(is_hash_line(l));
}

/// A `# minecraft:` line sets the Minecraft version.
proof fn lemma_minecraft_step(m: MetaView, v: Seq<char>)
    requires
        trim(v) == v,
    ensures
        scan_step(m, seq![], "# minecraft: "@ + v) == Ok::<(MetaView, Seq<char>), ManifestError>(
            (MetaView { minecraft: v, ..m }, seq![]),
        ),
{
    reveal_strlit("minecraft");
    reveal_strlit("# minecraft: ");
    let l = "# minecraft: "@ + v;
    assert(l =~= seq!['#', ' '] + "minecraft"@ + seq![':', ' '] + v);
    lemma_setting_line("minecraft"@, v);
    assert(is_hash_line(l));
}

/// A `# loader:` line sets the loader.
proof fn lemma_loader_step(m: MetaView, v: Seq<char>)
    requires
        trim(v) == v,
    ensures
        scan_step(m, seq![], "# loader: "@ + v) == Ok::<(MetaView, Seq<char>), ManifestError>(
            (MetaView { loader: v, ..m }, seq![]),
        ),
{
    reveal_strlit("minecraft");
    reveal_strlit("loader");
    reveal_strlit("# loader: ");
    let l = "# loader: "@ + v;
    assert(l =~= seq!['#', ' '] + "loader"@ + seq![':', ' '] + v);
    lemma_setting_line("loader"@, v);
    assert(is_hash_line(l));
}

/// The setting lines of `meta` read back as its settings, with no comment
/// and no table, where its Minecraft version and loader are trimmed.
#[verifier::spinoff_prover]
#[verifier::rlimit(40)]
proof fn lemma_settings_read_back(meta: MetaView)
    requires
        trim(meta.minecraft) == meta.minecraft,
        trim(meta.loader) == meta.loader,
    ensures
        scan_lines(settings_lines(meta)) == Ok::<(MetaView, Seq<char>), ManifestError>(
            (MetaView { comments: seq![], ..meta }, seq![]),
        ),
{
    let ls = settings_lines(meta);
    let d = default_meta();
    let m1 = MetaView { version: meta.version, ..d };
    let m2 = MetaView { minecraft: meta.minecraft, ..m1 };
    let m3 = MetaView { loader: meta.loader, ..m2 };
    lemma_version_step(d, meta.version);
    lemma_minecraft_step(m1, meta.minecraft);
    lemma_loader_step(m2, meta.loader);
    let e = ls.drop_last().drop_last().drop_last();
    assert(e =~= Seq::<Seq<char>>::empty());
    assert(scan_lines(e) == Ok::<(MetaView, Seq<char>), ManifestError>((d, seq![])));
    assert(ls.drop_last().drop_last().last() == ls[0]);
    assert(ls[0] == "# version: "@ + decimal(meta.version as nat));
    assert(ls.drop_last().last() == ls[1]);
    assert(ls.last() == ls[2]);
    assert(scan_lines(ls.drop_last().drop_last()) == Ok::<(MetaView, Seq<char>), ManifestError>((m1, seq![])));
    assert(scan_lines(ls.drop_last()) == Ok::<(MetaView, Seq<char>), ManifestError>((m2, seq![])));
    assert(m3 == MetaView { comments: seq![], ..meta });
}

/// A numeral is its own trim.
proof fn lemma_digits_trimmed(n: Seq<char>)
    requires
        n.len() > 0,
        forall|i: int| 0 <= i < n.len() ==> is_digit(#[trigger] n[i]),
    ensures
        trim(n) == n,
{
    assert(is_digit(n[0]));
    assert(is_digit(n[n.len() - 1]));
    lemma_trimmed_key(n);
}

/// Comment lines after lines that read as `m` and the table text `d` are
/// kept, in order, as comments.
proof fn lemma_comments_read_back(pre: Seq<Seq<char>>, m: MetaView, d: Seq<char>, cs: Seq<Seq<char>>)
    requires
        scan_lines(pre) == Ok::<(MetaView, Seq<char>), ManifestError>((m, d)),
        forall|i: int| 0 <= i < cs.len() ==> is_comment_line(#[trigger] cs[i]),
    ensures
        scan_lines(pre + cs) == Ok::<(MetaView, Seq<char>), ManifestError>(
            (MetaView { comments: m.comments + cs, ..m }, d),
        ),
    decreases cs.len(),
{
    if cs.len() == 0 {
        assert(pre + cs =~= pre);
        assert(m.comments + cs =~= m.comments);
    } else {
        lemma_comments_read_back(pre, m, d, cs.drop_last());
        assert((pre + cs).drop_last() =~= pre + cs.drop_last());
        assert((pre + cs).last() == cs.last());
        assert(is_comment_line(cs[cs.len() - 1]));
        assert(m.comments + cs.drop_last() + seq![cs.last()] =~= m.comments + cs);
        assert((m.comments + cs.drop_last()).push(cs.last()) =~= m.comments + cs);
    }
}

/// A manifest with no entries reads back as it was written: its settings
/// and comments come back and its table text is empty, where the Minecraft
/// version and the loader are trimmed and hold no line break, and each
/// comment is a plain line that carries no setting.
#[verifier::rlimit(40)]
pub proof fn lemma_settings_round_trip(meta: MetaView)
    requires
        trim(meta.minecraft) == meta.minecraft,
        trim(meta.loader) == meta.loader,
        !meta.minecraft.contains('\n'),
        !meta.loader.contains('\n'),
        forall|i: int|
            0 <= i < meta.comments.len() ==> is_plain_line(#[trigger] meta.comments[i])
                && is_comment_line(meta.comments[i]),
    ensures
        manifest_text(seq![], meta) matches Some(t) && scan_lines(lines_of(t)) == Ok::<
            (MetaView, Seq<char>),
            ManifestError,
        >((meta, seq![])),
{
    reveal_strlit("# version: ");
    reveal_strlit("# minecraft: ");
    reveal_strlit("# loader: ");
    let ls = settings_lines(meta);
    let all = ls + meta.comments;
    lemma_decimal_digits(meta.version as nat);
    lemma_plain_setting("# version: "@, decimal(meta.version as nat));
    if meta.minecraft.len() > 0 {
        lemma_trimmed_ends(meta.minecraft);
    }
    if meta.loader.len() > 0 {
        lemma_trimmed_ends(meta.loader);
    }
    lemma_plain_setting("# minecraft: "@, meta.minecraft);
    lemma_plain_setting("# loader: "@, meta.loader);
    assert forall|i: int| 0 <= i < all.len() implies is_plain_line(#[trigger] all[i]) by {
        if i >= 3 {
            assert(all[i] == meta.comments[i - 3]);
        }
    }
    lemma_lines_round_trip(all);
    crate::text::lemma_lines_text_append(ls, meta.comments);
    lemma_settings_lines_text(meta);
    assert(manifest_text(seq![], meta) == Some(settings_text(meta) + Seq::<char>::empty() + lines_text(meta.comments)));
    assert(settings_text(meta) + Seq::<char>::empty() + lines_text(meta.comments) =~= lines_text(all));
    lemma_settings_read_back(meta);
    assert forall|i: int| 0 <= i < meta.comments.len() implies is_comment_line(#[trigger] meta.comments[i]) by {}
    lemma_comments_read_back(ls, MetaView { comments: seq![], ..meta }, seq![], meta.comments);
    assert(Seq::<Seq<char>>::empty() + meta.comments =~= meta.comments);
}

/// A setting line is plain where its value holds no line break and does
/// not end in white space.
proof fn lemma_plain_setting(head: Seq<char>, v: Seq<char>)
    requires
        head.len() > 0,
        !head.contains('\n'),
        head.last() == ' ',
        !v.contains('\n'),
        v.len() > 0 ==> !is_white_space(v.last()),
    ensures
        is_plain_line(head + v),
{
    let l = head + v;
    if l.contains('\n') {
        let j = choose|j: int| 0 <= j < l.len() && l[j] == '\n';
        if j < head.len() {
            assert(head[j] == '\n');
        } else {
            assert(v[j - head.len()] == '\n');
        }
    }
}

/// An entry that is written as it is read (`reads_back`) reads back from
/// its row as itself.
pub proof fn lemma_row_round_trip(e: EntryView)
    requires
        reads_back(e),
    ensures
        record_entry(header_row(), row_of(e)) matches Some(r) && normalized_entry(r) == e,
{
    reveal_strlit("id");
    reveal_strlit("version");
    reveal_strlit("environment");
    let h = header_row();
    let row = row_of(e);
    let f0 = FieldsSeen { id: None, version: None, environment: None };
    let f1 = FieldsSeen { id: Some(e.id), ..f0 };
    let f2 = FieldsSeen { version: Some(optional_field(row, 1)), ..f1 };
    let f3 = FieldsSeen { environment: Some(optional_field(row, 2)), ..f2 };
    assert(fields_of(h, row, 0) == Some(f0));
    assert(h[0] == "id"@ && h[1] == "version"@ && h[2] == "environment"@);
    assert("version"@.len() == 7 && "id"@.len() == 2 && "environment"@.len() == 11);
    assert("version"@ != "id"@);
    assert("environment"@ != "id"@ && "environment"@ != "version"@);
    assert(fields_of(h, row, 1) == Some(f1));
    assert(field_step(f1, h[1], row, 1) == Some(f2));
    assert(fields_of(h, row, 2) == Some(f2));
    assert(field_step(f2, h[2], row, 2) == Some(f3));
    assert(fields_of(h, row, 3) == Some(f3));
    let r = EntryView {
        id: e.id,
        version: optional_field(row, 1),
        environment: optional_field(row, 2),
        is_version_fixed: false,
    };
    assert(record_entry(h, row) == Some(r));
    assert(resolved_id(e.id) == e.id);
    match e.version {
        Some(v) => {
            if e.is_version_fixed {
                assert(version_field(e) == seq!['='] + v);
                assert((seq!['='] + v).drop_first() =~= v);
            }
        },
        None => {},
    }
    assert(optional_field(row, 2) == e.environment);
    assert(pinned(r) == e);
}

// ---------------------------------------------------------------------------
// Commenting out a row.
// ---------------------------------------------------------------------------

/// The table text of `lines`: each line that does not start with `#`,
/// ended by `'\n'`.
pub open spec fn table_text(lines: Seq<Seq<char>>) -> Seq<char>
    decreases lines.len(),
{
    if lines.len() == 0 {
        seq![]
    } else if is_hash_line(lines.last()) {
        table_text(lines.drop_last())
    } else {
        table_text(lines.drop_last()) + without_annotation(lines.last()) + seq!['\n']
    }
}

/// The table text that reading gathers is the text of the lines that do
/// not start with `#`.
pub proof fn lemma_scan_table_text(lines: Seq<Seq<char>>)
    ensures
        scan_lines(lines) matches Ok((_, d)) ==> d == table_text(lines),
    decreases lines.len(),
{
    if lines.len() > 0 {
        lemma_scan_table_text(lines.drop_last());
    }
}

/// The table text of two lists of lines is that of one, then of the other.
pub proof fn lemma_table_text_append(a: Seq<Seq<char>>, b: Seq<Seq<char>>)
    ensures
        table_text(a + b) == table_text(a) + table_text(b),
    decreases b.len(),
{
    if b.len() == 0 {
        assert(a + b =~= a);
        assert(table_text(a) + table_text(b) =~= table_text(a));
    } else {
        lemma_table_text_append(a, b.drop_last());
        assert((a + b).drop_last() =~= a + b.drop_last());
        assert((a + b).last() == b.last());
        assert(table_text(a + b) =~= table_text(a) + table_text(b));
    }
}

/// Commenting out a row (prefixing it with `#`) takes exactly that row out
/// of the table text, and so out of the table that is read.
pub proof fn lemma_comment_out_row(lines: Seq<Seq<char>>, i: int)
    requires
        0 <= i < lines.len(),
        !is_hash_line(lines[i]),
    ensures
        table_text(lines.update(i, seq!['#'] + lines[i])) == table_text(lines.remove(i)),
        scan_lines(lines.update(i, seq!['#'] + lines[i])) matches Ok((_, d)) ==> d == table_text(
            lines.remove(i),
        ),
{
    let c = seq!['#'] + lines[i];
    let a = lines.take(i);
    let b = lines.skip(i + 1);
    assert(lines.update(i, c) =~= a + seq![c] + b);
    assert(lines.remove(i) =~= a + b);
    lemma_table_text_append(a + seq![c], b);
    lemma_table_text_append(a, seq![c]);
    lemma_table_text_append(a, b);
    assert(seq![c].drop_last() =~= Seq::<Seq<char>>::empty());
    assert(seq![c].last() == c);
    assert(c[0] == '#');
    assert(is_hash_line(seq![c].last()));
    assert(table_text(Seq::<Seq<char>>::empty()) == Seq::<char>::empty());
    assert(table_text(seq![c]) == table_text(seq![c].drop_last()));
    assert(table_text(seq![c]) == Seq::<char>::empty());
    assert(table_text(a) + Seq::<char>::empty() =~= table_text(a));
    lemma_scan_table_text(lines.update(i, c));
}

// ---------------------------------------------------------------------------
// A written manifest reads back.
// ---------------------------------------------------------------------------

/// Table lines after lines that read as `m` and `d` add themselves, each
/// ended by `'\n'`, to the table text.
proof fn lemma_table_lines_read_back(pre: Seq<Seq<char>>, m: MetaView, d: Seq<char>, ls: Seq<Seq<char>>)
    requires
        scan_lines(pre) == Ok::<(MetaView, Seq<char>), ManifestError>((m, d)),
        forall|i: int| 0 <= i < ls.len() ==> !is_hash_line(#[trigger] ls[i]),
        forall|i: int| 0 <= i < ls.len() ==> without_annotation(#[trigger] ls[i]) == ls[i],
    ensures
        scan_lines(pre + ls) == Ok::<(MetaView, Seq<char>), ManifestError>((m, d + lines_text(ls))),
    decreases ls.len(),
{
    if ls.len() == 0 {
        assert(pre + ls =~= pre);
        assert(d + lines_text(ls) =~= d);
    } else {
        lemma_table_lines_read_back(pre, m, d, ls.drop_last());
        assert((pre + ls).drop_last() =~= pre + ls.drop_last());
        assert((pre + ls).last() == ls.last());
        assert(!is_hash_line(ls[ls.len() - 1]));
        assert(without_annotation(ls[ls.len() - 1]) == ls.last());
        assert(d + lines_text(ls.drop_last()) + ls.last() + seq!['\n'] =~= d + lines_text(ls));
    }
}

/// Whether an entry is written as it is read: its id is no URL, a pinned
/// version is written with its `=` (an empty one too), an unpinned version
/// is not empty and does not begin with `=`, and the environment is not
/// empty.
pub open spec fn reads_back(e: EntryView) -> bool {
    &&& !has_prefix(e.id, "http"@)
    &&& e.version matches Some(v) ==> e.is_version_fixed || (v.len() > 0 && v[0] != '=')
    &&& e.version is None ==> !e.is_version_fixed
    &&& e.environment matches Some(x) ==> x.len() > 0
}

/// The rows of entries that are written as they are read give those
/// entries back.
proof fn lemma_rows_read_back(es: Seq<EntryView>)
    requires
        forall|i: int| 0 <= i < es.len() ==> reads_back(#[trigger] es[i]),
    ensures
        entries_from(header_row(), es.map_values(|e: EntryView| row_of(e))) == Ok::<
            Seq<EntryView>,
            ManifestError,
        >(es),
    decreases es.len(),
{
    let rows = es.map_values(|e: EntryView| row_of(e));
    if es.len() == 0 {
        assert(es =~= Seq::<EntryView>::empty());
    } else {
        lemma_rows_read_back(es.drop_last());
        assert(rows.drop_last() =~= es.drop_last().map_values(|e: EntryView| row_of(e)));
        assert(rows.last() == row_of(es.last()));
        assert(reads_back(es[es.len() - 1]));
        lemma_row_round_trip(es.last());
        assert(es.drop_last().push(es.last()) =~= es);
    }
}

/// What a write wrote, a read gives back: the manifest text written for
/// entries and settings reads back as those entries and settings, where
/// the CSV crate reads back the rows that it wrote as lines that do not
/// start with `#` and carry no annotation, each entry is written as it is
/// read, the Minecraft version and
/// the loader are trimmed and hold no line break, and each comment is a
/// plain line that carries no setting.
pub proof fn lemma_manifest_round_trip(es: Seq<EntryView>, meta: MetaView, t: Seq<char>)
    requires
        es.len() > 0,
        forall|i: int| 0 <= i < es.len() ==> reads_back(#[trigger] es[i]),
        trim(meta.minecraft) == meta.minecraft,
        trim(meta.loader) == meta.loader,
        !meta.minecraft.contains('\n'),
        !meta.loader.contains('\n'),
        forall|i: int|
            0 <= i < meta.comments.len() ==> is_plain_line(#[trigger] meta.comments[i])
                && is_comment_line(meta.comments[i]),
        csv_text(table_rows(es)) == Some(t),
        t == lines_text(lines_of(t)),
        forall|i: int|
            0 <= i < lines_of(t).len() ==> is_plain_line(#[trigger] lines_of(t)[i]) && !is_hash_line(
                lines_of(t)[i],
            ) && without_annotation(lines_of(t)[i]) == lines_of(t)[i],
        csv_table(t) == Some((header_row(), es.map_values(|e: EntryView| row_of(e)))),
    ensures
        manifest_text(es, meta) == Some(settings_text(meta) + t + lines_text(meta.comments)),
        manifest_of(settings_text(meta) + t + lines_text(meta.comments)) == Ok::<
            (Seq<EntryView>, MetaView),
            ManifestError,
        >((es, meta)),
{
    reveal_strlit("# version: ");
    reveal_strlit("# minecraft: ");
    reveal_strlit("# loader: ");
    let ls = settings_lines(meta);
    let tl = lines_of(t);
    let all = ls + tl + meta.comments;
    lemma_decimal_digits(meta.version as nat);
    if meta.minecraft.len() > 0 {
        lemma_trimmed_ends(meta.minecraft);
    }
    if meta.loader.len() > 0 {
        lemma_trimmed_ends(meta.loader);
    }
    lemma_plain_setting("# version: "@, decimal(meta.version as nat));
    lemma_plain_setting("# minecraft: "@, meta.minecraft);
    lemma_plain_setting("# loader: "@, meta.loader);
    assert forall|i: int| 0 <= i < all.len() implies is_plain_line(#[trigger] all[i]) by {
        if 3 <= i < 3 + tl.len() {
            assert(all[i] == tl[i - 3]);
        } else if i >= 3 + tl.len() {
            assert(all[i] == meta.comments[i - 3 - tl.len()]);
        }
    }
    lemma_lines_round_trip(all);
    crate::text::lemma_lines_text_append(ls + tl, meta.comments);
    crate::text::lemma_lines_text_append(ls, tl);
    lemma_settings_lines_text(meta);
    let text = settings_text(meta) + t + lines_text(meta.comments);
    assert(lines_text(all) =~= text);
    assert(lines_of(text) == all);
    lemma_settings_read_back(meta);
    let m0 = MetaView { comments: seq![], ..meta };
    assert forall|i: int| 0 <= i < tl.len() implies !is_hash_line(#[trigger] tl[i]) by {}
    assert forall|i: int| 0 <= i < tl.len() implies without_annotation(#[trigger] tl[i]) == tl[i] by {}
    lemma_table_lines_read_back(ls, m0, seq![], tl);
    assert(Seq::<char>::empty() + lines_text(tl) =~= t);
    assert forall|i: int| 0 <= i < meta.comments.len() implies is_comment_line(#[trigger] meta.comments[i]) by {}
    lemma_comments_read_back(ls + tl, m0, t, meta.comments);
    assert(Seq::<Seq<char>>::empty() + meta.comments =~= meta.comments);
    assert(MetaView { comments: m0.comments + meta.comments, ..m0 } == meta);
    assert(scan_lines(lines_of(text)) == Ok::<(MetaView, Seq<char>), ManifestError>((meta, t)));
    lemma_rows_read_back(es);
}

/// A manifest with no entries reads back whole as it was written: no
/// entries and the same settings and comments, where the CSV reader finds
/// no rows in empty text (as `read_csv_table` states of every call), and
/// the conditions of `lemma_settings_round_trip` hold.
pub proof fn lemma_empty_manifest_round_trip(meta: MetaView)
    requires
        trim(meta.minecraft) == meta.minecraft,
        trim(meta.loader) == meta.loader,
        !meta.minecraft.contains('\n'),
        !meta.loader.contains('\n'),
        forall|i: int|
            0 <= i < meta.comments.len() ==> is_plain_line(#[trigger] meta.comments[i])
                && is_comment_line(meta.comments[i]),
        csv_table(Seq::<char>::empty()) matches Some((h, rows)) && rows.len() == 0,
    ensures
        manifest_text(seq![], meta) matches Some(t) && manifest_of(t) == Ok::<
            (Seq<EntryView>, MetaView),
            ManifestError,
        >((seq![], meta)),
{
    lemma_settings_round_trip(meta);
    let (h, rows) = csv_table(Seq::<char>::empty())->0;
    assert(entries_from(h, rows) == Ok::<Seq<EntryView>, ManifestError>(seq![]));
}

} // verus!
