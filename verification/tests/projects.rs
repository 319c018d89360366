use hoppr::cli::EnvType;
use hoppr::commands::{
    chosen_file, env_code, join_strings, json_entry, list_report, remove_entry, AddQueue, Lookup,
};
use hoppr::manifest::{CsvEntry, CsvMeta};
use hoppr::modrinth::{
    fetch_projects_request, fetch_versions_for_project, Hashes, ModDependency, ModVersion, Project,
    VersionFile,
};
use hoppr::utils::{find_version, select_projects, unnamed_project, CsvProjectEntry};

fn project(id: &str, slug: &str, title: &str, client: &str, server: &str) -> Project {
    Project {
        id: id.to_string(),
        slug: slug.to_string(),
        title: title.to_string(),
        client_side: client.to_string(),
        server_side: server.to_string(),
    }
}

fn entry(id: &str, version: Option<&str>, env: Option<&str>) -> CsvEntry {
    CsvEntry {
        id: id.to_string(),
        version: version.map(|v| v.to_string()),
        environment: env.map(|e| e.to_string()),
        is_version_fixed: false,
    }
}

fn file(name: &str) -> VersionFile {
    VersionFile {
        hashes: Hashes { sha1: format!("sha-{}", name) },
        url: format!("https://cdn/{}", name),
        filename: name.to_string(),
        size: 42,
    }
}

fn version(id: &str, number: &str, deps: Vec<ModDependency>, files: Vec<VersionFile>) -> ModVersion {
    ModVersion {
        id: id.to_string(),
        version_number: number.to_string(),
        version_type: "release".to_string(),
        dependencies: deps,
        files,
    }
}

fn dep(pid: Option<&str>, kind: &str) -> ModDependency {
    ModDependency { project_id: pid.map(|p| p.to_string()), dependency_type: kind.to_string() }
}

fn meta() -> CsvMeta {
    CsvMeta { minecraft: "1.21.1".to_string(), loader: "fabric".to_string(), version: 1, comments: vec![] }
}

#[test]
fn versions_request_for_a_project() {
    let req = fetch_versions_for_project("AANobbMI", &meta());
    assert_eq!(req.url, "https://api.modrinth.com/v2/project/AANobbMI/version");
    assert_eq!(
        req.query,
        vec![
            ("loaders".to_string(), "[\"fabric\"]".to_string()),
            ("game_versions".to_string(), "[\"1.21.1\"]".to_string()),
        ]
    );
}

#[test]
fn projects_request_lists_ids_as_json() {
    let req = fetch_projects_request(&vec!["sodium".to_string(), "a\"b".to_string()]);
    assert_eq!(req.url, "https://api.modrinth.com/v2/projects");
    assert_eq!(req.query, vec![("ids".to_string(), "[\"sodium\",\"a\\\"b\"]".to_string())]);
}

#[test]
fn projects_request_escapes_ids_as_json_strings() {
    let ids = vec!["c\\d".to_string(), "e\nf\tg".to_string(), "\u{1}\u{1f}\u{7f}".to_string(), "é".to_string()];
    let req = fetch_projects_request(&ids);
    assert_eq!(req.query[0].1, "[\"c\\\\d\",\"e\\nf\\tg\",\"\\u0001\\u001f\u{7f}\",\"é\"]");
    assert_eq!(fetch_projects_request(&vec![]).query[0].1, "[]");
}

#[test]
fn pinned_version_is_found_by_number_or_id() {
    let versions = vec![
        version("v3", "3.0", vec![], vec![]),
        version("v2", "2.0", vec![], vec![]),
        version("v1", "1.0", vec![], vec![]),
    ];
    let mut pe = CsvProjectEntry { project: project("p", "s", "T", "required", "required"), csv_entry: entry("s", Some("2.0"), None) };
    assert_eq!(find_version(&pe, &versions).unwrap().id, "v2");
    pe.csv_entry.version = Some("v1".to_string());
    assert_eq!(find_version(&pe, &versions).unwrap().version_number, "1.0");
    pe.csv_entry.version = Some("9.9".to_string());
    assert!(find_version(&pe, &versions).is_none());
    pe.csv_entry.version = None;
    assert_eq!(find_version(&pe, &versions).unwrap().id, "v3");
    assert!(find_version(&pe, &[]).is_none());
}

#[test]
fn chosen_file_is_first_file_of_chosen_version() {
    let versions = vec![version("v2", "2.0", vec![], vec![file("a.jar"), file("b.jar")]), version("v1", "1.0", vec![], vec![])];
    let mut pe = CsvProjectEntry { project: project("p", "s", "T", "required", "required"), csv_entry: entry("s", None, None) };
    assert_eq!(chosen_file(&pe, &versions).unwrap().filename, "a.jar");
    pe.csv_entry.version = Some("1.0".to_string());
    assert!(chosen_file(&pe, &versions).is_none());
}

#[test]
fn export_entry_describes_the_file() {
    let j = json_entry(&file("x.jar"));
    assert_eq!(j.name, "x.jar");
    assert_eq!(j.size, 42);
    assert_eq!(j.sha1, "sha-x.jar");
    assert_eq!(j.url, "https://cdn/x.jar");
}

#[test]
fn side_filter_uses_override_then_modrinth() {
    let entries = vec![
        entry("a", None, Some(" C ")),
        entry("b", None, Some("s")),
        entry("c", None, None),
        entry("d", None, None),
        entry("e", None, Some("cs")),
    ];
    let projects = vec![
        project("ida", "a", "A", "unsupported", "required"),
        project("idb", "b", "B", "required", "required"),
        project("idc", "c", "C", "unsupported", "required"),
        project("idd", "d", "D", "unknown", "unknown"),
        project("e", "slug-e", "E", "unsupported", "unsupported"),
    ];
    assert!(unnamed_project(&entries, &projects).is_none());
    let (client, warnings) = select_projects(&entries, &projects, EnvType::Client, meta());
    let kept: Vec<&str> = client.projects.iter().map(|p| p.project.title.as_str()).collect();
    let left: Vec<&str> = client.filtered.iter().map(|p| p.0.title.as_str()).collect();
    assert_eq!(kept, vec!["A", "D", "E"]);
    assert_eq!(left, vec!["B", "C"]);
    assert_eq!(warnings, vec!["D".to_string()]);
    assert_eq!(client.meta.loader, "fabric");

    let (server, _) = select_projects(&entries, &projects, EnvType::Server, meta());
    let kept: Vec<&str> = server.projects.iter().map(|p| p.project.title.as_str()).collect();
    assert_eq!(kept, vec!["B", "C", "D", "E"]);

    let (both, _) = select_projects(&entries, &projects, EnvType::Both, meta());
    assert_eq!(both.projects.len(), 5);
    assert!(both.filtered.is_empty());
}

#[test]
fn projects_pair_with_the_first_entry_that_names_them() {
    let entries = vec![entry("slug", Some("1"), None), entry("pid", Some("2"), None)];
    let projects = vec![project("pid", "slug", "P", "required", "required")];
    let (r, _) = select_projects(&entries, &projects, EnvType::Both, meta());
    assert_eq!(r.projects[0].csv_entry.version.as_deref(), Some("1"));
}

#[test]
fn unnamed_projects_are_found() {
    let entries = vec![entry("a", None, None)];
    let projects = vec![project("ida", "a", "A", "", ""), project("x", "y", "Z", "", "")];
    assert_eq!(unnamed_project(&entries, &projects), Some(1));
}

#[test]
fn env_codes() {
    assert_eq!(env_code(None), None);
    assert_eq!(env_code(Some(EnvType::Client)).as_deref(), Some("c"));
    assert_eq!(env_code(Some(EnvType::Server)).as_deref(), Some("s"));
    assert_eq!(env_code(Some(EnvType::Both)).as_deref(), Some("cs"));
}

#[test]
fn add_follows_required_dependencies_once() {
    let existing = vec![entry("fabric-api", None, None)];
    let mut q = AddQueue::new(&vec!["sodium".to_string()], &existing);
    let (first, asked) = q.pop_next().unwrap();
    assert_eq!(first, "sodium");
    assert!(asked);
    let sodium = project("AANobbMI", "sodium", "Sodium", "required", "unsupported");
    assert!(!q.has_seen(&sodium));
    let v = version(
        "v1",
        "0.5.11",
        vec![dep(Some("fabric-api"), "required"), dep(Some("P7dR8mSH"), "required"), dep(Some("opt"), "optional"), dep(None, "required")],
        vec![],
    );
    assert!(q.resolve(first, asked, &sodium, &vec![v], &None, Some(EnvType::Client)));
    assert_eq!(q.queue, vec![("P7dR8mSH".to_string(), false)]);
    assert_eq!(q.result.len(), 1);
    assert_eq!(q.result[0].id, "sodium");
    assert_eq!(q.result[0].version.as_deref(), Some("0.5.11"));
    assert_eq!(q.result[0].environment.as_deref(), Some("c"));
    assert!(!q.result[0].is_version_fixed);
    assert!(q.has_seen(&project("other", "sodium", "", "", "")));
    assert!(q.has_seen(&project("fabric-api", "x", "", "", "")));
    let (next, asked) = q.pop_next().unwrap();
    assert_eq!(next, "P7dR8mSH");
    assert!(!asked);
    assert!(q.pop_next().is_none());
    assert_eq!(q.added_ids(), "sodium");
}

#[test]
fn add_with_a_dependency_cycle_adds_each_project_once() {
    let mut q = AddQueue::new(&vec!["a".to_string(), "b".to_string()], &vec![]);
    let a = project("ida", "a", "A", "", "");
    let b = project("idb", "b", "B", "", "");
    let va = vec![version("va", "1", vec![dep(Some("idb"), "required")], vec![])];
    let vb = vec![version("vb", "2", vec![dep(Some("ida"), "required")], vec![])];
    let mut lookups = 0;
    while let Some((id, asked)) = q.pop_next() {
        lookups += 1;
        let found = if id == "a" || id == "ida" { copy(&a) } else { copy(&b) };
        match q.consider(&vec![copy(&found)]) {
            Lookup::Resolve => {
                let versions = if found.id == "ida" { &va } else { &vb };
                assert!(q.resolve(id, asked, &found, versions, &None, None));
            }
            Lookup::Handled => {}
            Lookup::NotFound => unreachable!(),
        }
    }
    assert_eq!(lookups, 4);
    let ids: Vec<&str> = q.result.iter().map(|e| e.id.as_str()).collect();
    assert_eq!(ids, vec!["a", "b"]);
    assert_eq!(q.seen, vec!["a".to_string(), "b".to_string()]);
}

#[test]
fn remove_takes_out_the_first_match() {
    let mut entries = vec![entry("a", Some("1"), None), entry("b", None, None), entry("a", Some("2"), None)];
    let removed = remove_entry(&mut entries, &"a".to_string()).unwrap();
    assert_eq!(removed.version.as_deref(), Some("1"));
    let ids: Vec<&str> = entries.iter().map(|e| e.id.as_str()).collect();
    assert_eq!(ids, vec!["b", "a"]);
    assert!(remove_entry(&mut entries, &"zzz".to_string()).is_none());
    assert_eq!(entries.len(), 2);
}

#[test]
fn joins_with_separator() {
    assert_eq!(join_strings(&vec![], ", "), "");
    assert_eq!(join_strings(&vec!["a".to_string()], ", "), "a");
    assert_eq!(join_strings(&vec!["a".to_string(), "b".to_string(), "c".to_string()], ", "), "a, b, c");
}

#[test]
fn list_report_lines() {
    let kept = vec![
        CsvProjectEntry { project: project("id1", "s1", "One", "", ""), csv_entry: entry("s1", None, None) },
        CsvProjectEntry { project: project("id2", "s2", "Two", "", ""), csv_entry: entry("s2", None, None) },
    ];
    let left = vec![(project("id3", "s3", "Three", "", ""), entry("s3", None, None))];
    assert_eq!(
        list_report(&kept, &left),
        vec![
            "List of mods (2, filtered 1):".to_string(),
            "One (id1, s1), Two (id2, s2)".to_string(),
            "Filtered:".to_string(),
            "Three (id3, s3)".to_string(),
        ]
    );
    assert_eq!(list_report(&kept, &vec![]).len(), 2);
}

#[test]
fn add_with_version_pins_the_asked_version() {
    let existing = vec![entry("fabric-api", None, None)];
    let mut q = AddQueue::new(&vec!["sodium".to_string()], &existing);
    let (id, asked) = q.pop_next().unwrap();
    let sodium = project("AANobbMI", "sodium", "Sodium", "required", "unsupported");
    assert_eq!(q.consider(&vec![]), Lookup::NotFound);
    assert_eq!(q.consider(&vec![project("x", "fabric-api", "F", "", "")]), Lookup::Handled);
    assert_eq!(q.consider(&vec![copy(&sodium)]), Lookup::Resolve);
    let versions = vec![
        version("v3", "0.6.0", vec![], vec![]),
        version("v2", "0.5.11", vec![dep(Some("dep1"), "required")], vec![]),
    ];
    let pin = Some("0.5.11".to_string());
    assert!(q.resolve(id, asked, &sodium, &versions, &pin, None));
    assert_eq!(q.result[0].version.as_deref(), Some("0.5.11"));
    assert!(q.result[0].is_version_fixed);
    assert_eq!(q.queue, vec![("dep1".to_string(), false)]);
    // A dependency takes its latest version, unpinned, whatever was asked.
    let (dep_id, dep_asked) = q.pop_next().unwrap();
    let dep_project = project("dep1", "dep-one", "Dep", "", "");
    assert!(q.resolve(dep_id, dep_asked, &dep_project, &versions, &pin, None));
    assert_eq!(q.result[1].version.as_deref(), Some("0.6.0"));
    assert!(!q.result[1].is_version_fixed);
}

#[test]
fn add_with_unknown_version_adds_nothing() {
    let mut q = AddQueue::new(&vec!["sodium".to_string()], &vec![]);
    let (id, asked) = q.pop_next().unwrap();
    let sodium = project("AANobbMI", "sodium", "Sodium", "", "");
    let versions = vec![version("v3", "0.6.0", vec![], vec![])];
    assert!(!q.resolve(id, asked, &sodium, &versions, &Some("9.9".to_string()), None));
    assert!(q.result.is_empty());
    assert!(q.seen.is_empty());
    let mut q2 = AddQueue::new(&vec!["sodium".to_string()], &vec![]);
    let (id, asked) = q2.pop_next().unwrap();
    assert!(q2.resolve(id, asked, &sodium, &versions, &Some("v3".to_string()), None));
    assert_eq!(q2.result[0].version.as_deref(), Some("0.6.0"));
    assert!(q2.result[0].is_version_fixed);
}

#[test]
fn add_without_version_takes_latest_unpinned() {
    let mut q = AddQueue::new(&vec!["sodium".to_string()], &vec![]);
    let (id, asked) = q.pop_next().unwrap();
    let sodium = project("AANobbMI", "sodium", "Sodium", "", "");
    assert!(!q.resolve(id.clone(), asked, &sodium, &vec![], &None, None));
    let versions = vec![version("v3", "0.6.0", vec![], vec![])];
    assert!(q.resolve(id, asked, &sodium, &versions, &None, Some(EnvType::Both)));
    assert_eq!(q.result[0].version.as_deref(), Some("0.6.0"));
    assert!(!q.result[0].is_version_fixed);
    assert_eq!(q.result[0].environment.as_deref(), Some("cs"));
    assert!(q.has_seen(&sodium));
    assert_eq!(q.consider(&vec![copy(&sodium)]), Lookup::Handled);
}

#[test]
fn white_space_environment_falls_back_to_modrinth() {
    let entries = vec![entry("a", None, Some("   "))];
    let projects = vec![project("ida", "a", "A", "unsupported", "required")];
    let (client, _) = select_projects(&entries, &projects, EnvType::Client, meta());
    assert!(client.projects.is_empty());
    let (server, _) = select_projects(&entries, &projects, EnvType::Server, meta());
    assert_eq!(server.projects.len(), 1);
}

fn copy(p: &Project) -> Project {
    project(&p.id, &p.slug, &p.title, &p.client_side, &p.server_side)
}
