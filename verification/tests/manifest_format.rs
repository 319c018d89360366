use hoppr::manifest::{parse_manifest, render_manifest, CsvEntry, CsvMeta, ManifestError, CSV_VERSION};

fn entry(id: &str, version: Option<&str>, environment: Option<&str>, fixed: bool) -> CsvEntry {
    CsvEntry {
        id: id.to_string(),
        version: version.map(|v| v.to_string()),
        environment: environment.map(|e| e.to_string()),
        is_version_fixed: fixed,
    }
}

fn same(a: &CsvEntry, b: &CsvEntry) -> bool {
    a.id == b.id && a.version == b.version && a.environment == b.environment && a.is_version_fixed == b.is_version_fixed
}

#[test]
fn reads_the_readme_manifest() {
    let text = "# version: 1\n# minecraft: 1.21.1\n# loader: fabric\nid,version,environment\nsodium,=mc1.21-0.5.11,c     # Pinned version (won't be updated)\nlithium,,s                 # Tracks the latest version\nvoicechat,2.6.18,          # Specific version (will be updated on 'hoppr update')\n";
    let (entries, meta) = parse_manifest(text).unwrap();
    assert_eq!(meta.minecraft, "1.21.1");
    assert_eq!(meta.loader, "fabric");
    assert_eq!(meta.version, 1);
    assert!(meta.comments.is_empty());
    assert_eq!(entries.len(), 3);
    assert!(same(&entries[0], &entry("sodium", Some("mc1.21-0.5.11"), Some("c"), true)));
    assert!(same(&entries[1], &entry("lithium", None, Some("s"), false)));
    assert!(same(&entries[2], &entry("voicechat", Some("2.6.18"), None, false)));
}

#[test]
fn row_annotations_are_dropped() {
    let text = "id,version,environment\nsodium,=mc1.21-0.5.11,c     # Pinned version\nhttps://modrinth.com/mod/x#y,1,\tcs\t#note\n";
    let (entries, _) = parse_manifest(text).unwrap();
    assert_eq!(entries[0].environment.as_deref(), Some("c"));
    assert_eq!(entries[1].id, "x#y");
    assert_eq!(entries[1].environment.as_deref(), Some("\tcs"));
}

#[test]
fn hash_inside_quotes_is_part_of_the_field() {
    let text = "id,version,environment\n\"a #b\",1,c\n\"x #y\",2,s   # note\n";
    let (entries, _) = parse_manifest(text).unwrap();
    assert_eq!(entries.len(), 2);
    assert!(same(&entries[0], &entry("a #b", Some("1"), Some("c"), false)));
    assert!(same(&entries[1], &entry("x #y", Some("2"), Some("s"), false)));
}

#[test]
fn indented_hash_line_is_a_row() {
    let (entries, _) = parse_manifest("id\n  # note\n").unwrap();
    assert_eq!(entries.len(), 1);
    assert_eq!(entries[0].id, "  # note");
    assert_eq!(
        parse_manifest("id,version,environment\n  # note\n").unwrap_err(),
        ManifestError::Table
    );
}

#[test]
fn url_ids_become_slugs() {
    let text = "id,version,environment\nhttps://modrinth.com/mod/sodium,,\nhttp://example.com/x,,\n";
    let (entries, _) = parse_manifest(text).unwrap();
    assert_eq!(entries[0].id, "sodium");
    assert_eq!(entries[1].id, "http://example.com/x");
}

#[test]
fn url_slug_runs_from_the_first_prefix_to_the_line_end() {
    let text = "id\nhttps://modrinth.com/mod/sodium/versions\nhttps://modrinth.com/mod/a?r=modrinth.com/mod/b\n\"https://modrinth.com/mod/x\ny\"\nhttps://modrinth.com/mod/\n";
    let (entries, _) = parse_manifest(text).unwrap();
    assert_eq!(entries[0].id, "sodium/versions");
    assert_eq!(entries[1].id, "a?r=modrinth.com/mod/b");
    assert_eq!(entries[2].id, "x");
    assert_eq!(entries[3].id, "");
}

#[test]
fn settings_are_trimmed_and_other_comments_kept() {
    let text = "##  minecraft :  1.20.4  \n# note: hello\n# just a comment\n#loader:forge\nid,version,environment\n";
    let (entries, meta) = parse_manifest(text).unwrap();
    assert!(entries.is_empty());
    assert_eq!(meta.minecraft, "1.20.4");
    assert_eq!(meta.loader, "forge");
    assert_eq!(meta.version, CSV_VERSION);
    assert_eq!(meta.comments, vec!["# note: hello".to_string(), "# just a comment".to_string()]);
}

#[test]
fn bad_version_setting_is_refused() {
    assert_eq!(parse_manifest("# version: one\n").unwrap_err(), ManifestError::BadVersion);
    assert_eq!(parse_manifest("# version: -1\n").unwrap_err(), ManifestError::BadVersion);
    assert_eq!(parse_manifest("# version: 4294967296\n").unwrap_err(), ManifestError::BadVersion);
    let (_, meta) = parse_manifest("# version: +7\n").unwrap();
    assert_eq!(meta.version, 7);
}

#[test]
fn commented_out_row_is_skipped() {
    let text = "id,version,environment\n#sodium,1.0,c\nlithium,2.0,s\n";
    let (entries, meta) = parse_manifest(text).unwrap();
    assert_eq!(entries.len(), 1);
    assert_eq!(entries[0].id, "lithium");
    assert_eq!(meta.comments, vec!["#sodium,1.0,c".to_string()]);
}

#[test]
fn rows_without_an_id_column_are_refused() {
    assert_eq!(parse_manifest("name,version\nsodium,1\n").unwrap_err(), ManifestError::Record);
}

#[test]
fn a_field_named_twice_is_refused() {
    assert_eq!(parse_manifest("id,id\na,b\n").unwrap_err(), ManifestError::Record);
}

#[test]
fn unknown_columns_are_ignored_and_missing_ones_absent() {
    let (entries, _) = parse_manifest("id,extra\nsodium,x\n").unwrap();
    assert!(same(&entries[0], &entry("sodium", None, None, false)));
}

#[test]
fn rows_of_unequal_length_are_refused() {
    assert_eq!(parse_manifest("id,version\nsodium,1,2\n").unwrap_err(), ManifestError::Table);
}

#[test]
fn crlf_line_endings_are_read() {
    let text = "# loader: quilt\r\nid,version,environment\r\nsodium,1,c\r\n";
    let (entries, meta) = parse_manifest(text).unwrap();
    assert_eq!(meta.loader, "quilt");
    assert!(same(&entries[0], &entry("sodium", Some("1"), Some("c"), false)));
}

#[test]
fn quoted_fields_are_read() {
    let (entries, _) = parse_manifest("id,version,environment\n\"a,b\",\"1\",\n").unwrap();
    assert_eq!(entries[0].id, "a,b");
    assert_eq!(entries[0].version.as_deref(), Some("1"));
}

#[test]
fn empty_text_has_default_settings() {
    let (entries, meta) = parse_manifest("").unwrap();
    assert!(entries.is_empty());
    assert_eq!(meta.version, 1);
    assert_eq!(meta.minecraft, "");
    assert_eq!(meta.loader, "");
}

#[test]
fn default_meta() {
    let meta = CsvMeta::default();
    assert_eq!(meta.version, CSV_VERSION);
    assert_eq!(meta.minecraft, "");
    assert_eq!(meta.loader, "");
    assert!(meta.comments.is_empty());
}

#[test]
fn new_manifest_has_only_settings() {
    let meta = CsvMeta { minecraft: "1.21.1".to_string(), loader: "fabric".to_string(), version: CSV_VERSION, comments: vec![] };
    let text = render_manifest(&vec![], &meta).unwrap();
    assert_eq!(text, "# version: 1\n# minecraft: 1.21.1\n# loader: fabric\n");
}

#[test]
fn pinned_versions_are_written_with_equals() {
    let meta = CsvMeta { minecraft: "1.21.1".to_string(), loader: "fabric".to_string(), version: 12, comments: vec!["# keep me".to_string()] };
    let entries = vec![entry("sodium", Some("0.5"), Some("c"), true), entry("lithium", None, None, false)];
    let text = render_manifest(&entries, &meta).unwrap();
    assert_eq!(
        text,
        "# version: 12\n# minecraft: 1.21.1\n# loader: fabric\nid,version,environment\nsodium,=0.5,c\nlithium,,\n# keep me\n"
    );
}

#[test]
fn written_manifest_reads_back() {
    let meta = CsvMeta { minecraft: "1.20".to_string(), loader: "paper".to_string(), version: 3, comments: vec!["# hi".to_string()] };
    let entries = vec![
        entry("sodium", Some("0.5"), Some("cs"), true),
        entry("with,comma", Some("1.0"), None, false),
        entry("lithium", None, Some("s"), false),
    ];
    let text = render_manifest(&entries, &meta).unwrap();
    let (back, meta2) = parse_manifest(&text).unwrap();
    assert_eq!(back.len(), 3);
    for (a, b) in back.iter().zip(entries.iter()) {
        assert!(same(a, b));
    }
    assert_eq!(meta2.minecraft, "1.20");
    assert_eq!(meta2.loader, "paper");
    assert_eq!(meta2.version, 3);
    assert_eq!(meta2.comments, vec!["# hi".to_string()]);
}

#[test]
fn settings_only_manifest_reads_back() {
    let meta = CsvMeta {
        minecraft: "1.19.2".to_string(),
        loader: "neoforge".to_string(),
        version: 4294967295,
        comments: vec!["# a".to_string(), "#b: c".to_string()],
    };
    let text = render_manifest(&vec![], &meta).unwrap();
    let (entries, back) = parse_manifest(&text).unwrap();
    assert!(entries.is_empty());
    assert_eq!(back.minecraft, meta.minecraft);
    assert_eq!(back.loader, meta.loader);
    assert_eq!(back.version, meta.version);
    assert_eq!(back.comments, meta.comments);
}

#[test]
fn commenting_out_a_row_removes_only_that_entry() {
    let with = "id,version,environment\na,1,\nb,2,\nc,3,\n";
    let without = "id,version,environment\na,1,\n#b,2,\nc,3,\n";
    let (e1, _) = parse_manifest(with).unwrap();
    let (e2, m2) = parse_manifest(without).unwrap();
    let ids1: Vec<&str> = e1.iter().map(|e| e.id.as_str()).collect();
    let ids2: Vec<&str> = e2.iter().map(|e| e.id.as_str()).collect();
    assert_eq!(ids1, vec!["a", "b", "c"]);
    assert_eq!(ids2, vec!["a", "c"]);
    assert_eq!(m2.comments, vec!["#b,2,".to_string()]);
}
