//! Matching the manifest's entries with the projects that Modrinth
//! describes, choosing a version, and filtering by side.
use vstd::prelude::*;

use crate::bindings::{lowercase, str_to_lowercase};
use crate::cli::EnvType;
use crate::manifest::{entry_views, CsvEntry, CsvMeta, EntryView};
use crate::modrinth::{ModVersion, Project};
use crate::text::{chars_of, contains_char, string_of, trim, trim_chars};

verus! {

/// A project of the manifest with its Modrinth description.
pub struct CsvProjectEntry {
    pub project: Project,
    pub csv_entry: CsvEntry,
}

/// The projects of a manifest split by side, and its settings.
pub struct LoadProjectResult {
    /// The projects kept for the side asked for.
    pub projects: Vec<CsvProjectEntry>,
    /// The projects left out, each with its entry.
    pub filtered: Vec<(Project, CsvEntry)>,
    pub meta: CsvMeta,
}

/// A project as text.
pub struct ProjectView {
    pub id: Seq<char>,
    pub slug: Seq<char>,
    pub title: Seq<char>,
    pub client_side: Seq<char>,
    pub server_side: Seq<char>,
}

impl View for Project {
    type V = ProjectView;

    open spec fn view(&self) -> ProjectView {
        ProjectView {
            id: self.id@,
            slug: self.slug@,
            title: self.title@,
            client_side: self.client_side@,
            server_side: self.server_side@,
        }
    }
}

// ---------------------------------------------------------------------------
// Choosing a version.
// ---------------------------------------------------------------------------

/// Whether `v` is the version written `want`: by version number or by id.
pub open spec fn is_wanted(v: ModVersion, want: Seq<char>) -> bool {
    v.version_number@ == want || v.id@ == want
}

/// The version to install for `entry`: where the entry names a version, the
/// first of `versions` that it names; otherwise the first of `versions`,
/// the latest that Modrinth lists.
pub fn find_version<'a>(project: &CsvProjectEntry, versions: &'a [ModVersion]) -> (r: Option<&'a ModVersion>)
    ensures
        match project.csv_entry.version.deep_view() {
            Some(want) => match r {
                Some(v) => exists|i: int|
                    0 <= i < versions@.len() && versions@[i] == *v && is_wanted(versions@[i], want)
                        && forall|j: int| 0 <= j < i ==> !is_wanted(#[trigger] versions@[j], want),
                None => forall|j: int| 0 <= j < versions@.len() ==> !is_wanted(#[trigger] versions@[j], want),
            },
            None => true,
        },
        match project.csv_entry.version.deep_view() {
            Some(want) => match r {
                Some(v) => (v.version_number@ == want || v.id@ == want) && exists|i: int|
                    0 <= i < versions@.len() && versions@[i] == *v && forall|j: int|
                        0 <= j < i ==> (#[trigger] versions@[j]).version_number@ != want
                            && versions@[j].id@ != want,
                None => forall|j: int|
                    0 <= j < versions@.len() ==> (#[trigger] versions@[j]).version_number@ != want
                        && versions@[j].id@ != want,
            },
            None => match r {
                Some(v) => versions@.len() > 0 && *v == versions@[0],
                None => versions@.len() == 0,
            },
        },
{
    match &project.csv_entry.version {
        Some(want) => {
            let mut i: usize = 0;
            while i < versions.len()
                invariant
                    i <= versions@.len(),
                    project.csv_entry.version.deep_view() == Some(want@),
                    forall|j: int| 0 <= j < i ==> !is_wanted(#[trigger] versions@[j], want@),
                decreases versions.len() - i,
            {
                if versions[i].version_number == *want || versions[i].id == *want {
                    return Some(&versions[i]);
                }
                i = i + 1;
            }
            None
        },
        None => {
            if versions.len() > 0 {
                Some(&versions[0])
            } else {
                None
            }
        },
    }
}

// ---------------------------------------------------------------------------
// Matching entries with projects.
// ---------------------------------------------------------------------------

/// Whether `entry` names `project`, by id or by slug.
pub open spec fn names_project(entry: EntryView, project: ProjectView) -> bool {
    entry.id == project.id || entry.id == project.slug
}

/// The position of the first entry that names `p`, or -1.
#[verifier::opaque]
pub open spec fn entry_index(entries: Seq<EntryView>, p: ProjectView) -> int {
    if exists|i: int| 0 <= i < entries.len() && names_project(entries[i], p) {
        choose|i: int|
            0 <= i < entries.len() && names_project(entries[i], p) && forall|j: int|
                0 <= j < i ==> !names_project(#[trigger] entries[j], p)
    } else {
        -1
    }
}

/// Whether some entry names `p`.
pub open spec fn is_named(entries: Seq<EntryView>, p: ProjectView) -> bool {
    exists|i: int| 0 <= i < entries.len() && names_project(entries[i], p)
}

/// Whether every project is named by some entry.
pub open spec fn all_named(entries: Seq<EntryView>, projects: Seq<ProjectView>) -> bool {
    forall|k: int| 0 <= k < projects.len() ==> is_named(entries, #[trigger] projects[k])
}

/// The views of a list of projects.
pub open spec fn projects_view(projects: Seq<Project>) -> Seq<ProjectView> {
    projects.map_values(|p: Project| p@)
}

/// Where some entry names `p`, one is the first to.
proof fn lemma_entry_index(entries: Seq<EntryView>, p: ProjectView, k: int)
    requires
        0 <= k < entries.len(),
        names_project(entries[k], p),
    ensures
        0 <= entry_index(entries, p) <= k,
        names_project(entries[entry_index(entries, p)], p),
        forall|j: int| 0 <= j < entry_index(entries, p) ==> !names_project(#[trigger] entries[j], p),
    decreases k,
{
    reveal(entry_index);
    if exists|j: int| 0 <= j < k && names_project(entries[j], p) {
        let j = choose|j: int| 0 <= j < k && names_project(entries[j], p);
        lemma_entry_index(entries, p, j);
    } else {
        let i = entry_index(entries, p);
        if i > k {
            assert(!names_project(entries[k], p));
        }
        if i < k {
            assert(names_project(entries[i], p));
        }
    }
}

/// The position of the first entry that names `project`, if any.
pub fn find_entry(entries: &Vec<CsvEntry>, project: &Project) -> (r: Option<usize>)
    ensures
        match r {
            Some(i) => i == entry_index(entry_views(entries@), project@),
            None => entry_index(entry_views(entries@), project@) == -1,
        },
{
    let ghost es = entry_views(entries@);
    let mut i: usize = 0;
    while i < entries.len()
        invariant
            i <= entries@.len(),
            es == entry_views(entries@),
            forall|j: int| 0 <= j < i ==> !names_project(#[trigger] es[j], project@),
        decreases entries.len() - i,
    {
        if entries[i].id == project.id || entries[i].id == project.slug {
            proof {
                assert(names_project(es[i as int], project@));
                lemma_entry_index(es, project@, i as int);
            }
            return Some(i);
        }
        i = i + 1;
    }
    assert(es.len() == entries@.len());
    proof {
        lemma_entry_index_found(es, project@);
        if exists|j: int| 0 <= j < es.len() && names_project(es[j], project@) {
            let j = choose|j: int| 0 <= j < es.len() && names_project(es[j], project@);
            assert(!names_project(es[j], project@));
        }
    }
    None
}

/// The first project that no entry names, if any: such a project cannot be
/// paired with its entry.
pub fn unnamed_project(entries: &Vec<CsvEntry>, projects: &Vec<Project>) -> (r: Option<usize>)
    ensures
        match r {
            Some(k) => k < projects@.len() && entry_index(entry_views(entries@), projects@[k as int]@) == -1
                && (forall|m: int|
                    0 <= m < k ==> entry_index(entry_views(entries@), (#[trigger] projects@[m])@) >= 0)
                && !all_named(entry_views(entries@), projects_view(projects@)),
            None => all_named(entry_views(entries@), projects_view(projects@)),
        },
{
    let ghost es = entry_views(entries@);
    let ghost ps = projects_view(projects@);
    let mut k: usize = 0;
    while k < projects.len()
        invariant
            k <= projects@.len(),
            es == entry_views(entries@),
            ps == projects_view(projects@),
            ps.len() == projects@.len(),
            forall|m: int| 0 <= m < k ==> entry_index(es, #[trigger] ps[m]) >= 0,
        decreases projects.len() - k,
    {
        let found = find_entry(entries, &projects[k]);
        assert(ps[k as int] == projects@[k as int]@);
        if found.is_none() {
            proof {
                lemma_entry_index_found(es, ps[k as int]);
                assert forall|m: int| 0 <= m < k implies entry_index(es, (#[trigger] projects@[m])@) >= 0 by {
                    assert(ps[m] == projects@[m]@);
                }
            }
            return Some(k);
        }
        k = k + 1;
    }
    assert(ps.len() == projects@.len());
    proof {
        assert forall|m: int| 0 <= m < ps.len() implies is_named(es, #[trigger] ps[m]) by {
            assert(entry_index(es, ps[m]) >= 0);
            lemma_entry_index_found(es, ps[m]);
        }
        assert(all_named(es, ps));
    }
    None
}

/// `entry_index` is -1 exactly where no entry names the project.
proof fn lemma_entry_index_found(entries: Seq<EntryView>, p: ProjectView)
    ensures
        entry_index(entries, p) >= -1,
        (entry_index(entries, p) >= 0) == is_named(entries, p),
        entry_index(entries, p) >= 0 ==> entry_index(entries, p) < entries.len() && names_project(
            entries[entry_index(entries, p)],
            p,
        ),
{
    reveal(entry_index);
    if exists|i: int| 0 <= i < entries.len() && names_project(entries[i], p) {
        let k = choose|i: int| 0 <= i < entries.len() && names_project(entries[i], p);
        lemma_entry_index(entries, p, k);
    }
}

// ---------------------------------------------------------------------------
// Filtering by side.
// ---------------------------------------------------------------------------

/// The side an entry asks for: its environment trimmed and lowercased;
/// empty where it has none or only white space (which lowercases to
/// nothing, as `str_to_lowercase` states).
pub open spec fn env_override(e: EntryView) -> Seq<char> {
    match e.environment {
        Some(x) => if trim(x).len() > 0 {
            lowercase(trim(x))
        } else {
            seq![]
        },
        None => seq![],
    }
}

/// Whether a project is kept for `side`: by the entry's environment where
/// it gives one (`c` for the client, `s` for the server), otherwise by what
/// Modrinth says the side supports. Every project is kept for both sides.
pub open spec fn is_kept(side: EnvType, p: ProjectView, e: EntryView) -> bool {
    let o = env_override(e);
    if o.len() > 0 {
        match side {
            EnvType::Client => o.contains('c'),
            EnvType::Server => o.contains('s'),
            EnvType::Both => true,
        }
    } else {
        match side {
            EnvType::Client => p.client_side != "unsupported"@,
            EnvType::Server => p.server_side != "unsupported"@,
            EnvType::Both => true,
        }
    }
}

/// Where the entry gives no environment (none, or only white space), a
/// project is kept for the client exactly when Modrinth does not call its
/// client side `unsupported`, for the server likewise by its server side,
/// and always for both sides.
pub proof fn lemma_kept_by_modrinth_sides(p: ProjectView, e: EntryView)
    requires
        match e.environment {
            None => true,
            Some(x) => trim(x).len() == 0,
        },
    ensures
        is_kept(EnvType::Client, p, e) <==> p.client_side != "unsupported"@,
        is_kept(EnvType::Server, p, e) <==> p.server_side != "unsupported"@,
        is_kept(EnvType::Both, p, e),
{
}

/// Where the entry gives an environment (which `str_to_lowercase` keeps
/// non-empty), a project is kept for the client exactly when the
/// environment, trimmed and lowercased, holds `c`, for the
/// server exactly when it holds `s`, and always for both sides, whatever
/// Modrinth says.
pub proof fn lemma_kept_by_entry_environment(p: ProjectView, e: EntryView, x: Seq<char>)
    requires
        e.environment == Some(x),
        trim(x).len() > 0,
        lowercase(trim(x)).len() > 0,
    ensures
        is_kept(EnvType::Client, p, e) <==> lowercase(trim(x)).contains('c'),
        is_kept(EnvType::Server, p, e) <==> lowercase(trim(x)).contains('s'),
        is_kept(EnvType::Both, p, e),
{
}

/// Whether nothing tells on which side a project runs: the entry gives no
/// environment and Modrinth knows neither side.
pub open spec fn lacks_side_info(p: ProjectView, e: EntryView) -> bool {
    env_override(e).len() == 0 && p.client_side == "unknown"@ && p.server_side == "unknown"@
}

/// Each project with the first entry that names it.
pub open spec fn paired(es: Seq<EntryView>, ps: Seq<ProjectView>) -> Seq<(ProjectView, EntryView)> {
    ps.map_values(|p: ProjectView| (p, es[entry_index(es, p)]))
}

/// The pairs kept for `side`, in order.
pub open spec fn kept(pairs: Seq<(ProjectView, EntryView)>, side: EnvType) -> Seq<(ProjectView, EntryView)>
    decreases pairs.len(),
{
    if pairs.len() == 0 {
        seq![]
    } else {
        let rest = kept(pairs.drop_last(), side);
        if is_kept(side, pairs.last().0, pairs.last().1) {
            rest.push(pairs.last())
        } else {
            rest
        }
    }
}

/// The pairs left out for `side`, in order.
pub open spec fn dropped(pairs: Seq<(ProjectView, EntryView)>, side: EnvType) -> Seq<(ProjectView, EntryView)>
    decreases pairs.len(),
{
    if pairs.len() == 0 {
        seq![]
    } else {
        let rest = dropped(pairs.drop_last(), side);
        if is_kept(side, pairs.last().0, pairs.last().1) {
            rest
        } else {
            rest.push(pairs.last())
        }
    }
}

/// The titles of the projects that lack side information, in order.
pub open spec fn side_warnings(pairs: Seq<(ProjectView, EntryView)>) -> Seq<Seq<char>>
    decreases pairs.len(),
{
    if pairs.len() == 0 {
        seq![]
    } else {
        let rest = side_warnings(pairs.drop_last());
        if lacks_side_info(pairs.last().0, pairs.last().1) {
            rest.push(pairs.last().0.title)
        } else {
            rest
        }
    }
}

/// The kept projects as pairs.
pub open spec fn selected_view(v: Seq<CsvProjectEntry>) -> Seq<(ProjectView, EntryView)> {
    v.map_values(|x: CsvProjectEntry| (x.project@, x.csv_entry@))
}

/// The left-out projects as pairs.
pub open spec fn filtered_view(v: Seq<(Project, CsvEntry)>) -> Seq<(ProjectView, EntryView)> {
    v.map_values(|x: (Project, CsvEntry)| (x.0@, x.1@))
}

/// A copy of `p`.
pub fn copy_project(p: &Project) -> (r: Project)
    ensures
        r@ == p@,
{
    Project {
        id: p.id.clone(),
        slug: p.slug.clone(),
        title: p.title.clone(),
        client_side: p.client_side.clone(),
        server_side: p.server_side.clone(),
    }
}

/// A copy of `e`.
pub fn copy_entry(e: &CsvEntry) -> (r: CsvEntry)
    ensures
        r@ == e@,
{
    let version = match &e.version {
        Some(v) => Some(v.clone()),
        None => None,
    };
    let environment = match &e.environment {
        Some(v) => Some(v.clone()),
        None => None,
    };
    CsvEntry { id: e.id.clone(), version, environment, is_version_fixed: e.is_version_fixed }
}

/// The side an entry asks for.
fn env_override_of(e: &CsvEntry) -> (r: Vec<char>)
    ensures
        r@ == env_override(e@),
{
    match &e.environment {
        Some(x) => {
            let t = string_of(&trim_chars(&chars_of(x.as_str())));
            let o = chars_of(str_to_lowercase(t.as_str()).as_str());
            proof {
                if t@.len() == 0 {
                    assert(o@ =~= Seq::<char>::empty());
                }
            }
            o
        },
        None => Vec::new(),
    }
}

/// Whether `p` with `e` is kept for `side`, and whether it lacks side
/// information.
fn classify(side: EnvType, p: &Project, e: &CsvEntry) -> (r: (bool, bool))
    ensures
        r.0 == is_kept(side, p@, e@),
        r.1 == lacks_side_info(p@, e@),
{
    let o = env_override_of(e);
    let unsupported = String::from_str("unsupported");
    let unknown = String::from_str("unknown");
    let lacks = o.len() == 0 && p.client_side == unknown && p.server_side == unknown;
    let keep = if o.len() > 0 {
        match side {
            EnvType::Client => contains_char(&o, 'c'),
            EnvType::Server => contains_char(&o, 's'),
            EnvType::Both => true,
        }
    } else {
        match side {
            EnvType::Client => !(p.client_side == unsupported),
            EnvType::Server => !(p.server_side == unsupported),
            EnvType::Both => true,
        }
    };
    (keep, lacks)
}

/// The projects of a manifest, each with the first entry that names it,
/// split into those kept for `side` and those left out, in order, with the
/// titles of the projects that lack side information. Every project must be
/// named by some entry.
pub fn select_projects(entries: &Vec<CsvEntry>, projects: &Vec<Project>, side: EnvType, meta: CsvMeta) -> (r: (
    LoadProjectResult,
    Vec<String>,
))
    requires
        all_named(entry_views(entries@), projects_view(projects@)),
    ensures
        selected_view(r.0.projects@) == kept(
            paired(entry_views(entries@), projects_view(projects@)),
            side,
        ),
        filtered_view(r.0.filtered@) == dropped(
            paired(entry_views(entries@), projects_view(projects@)),
            side,
        ),
        r.0.meta@ == meta@,
        r.1.deep_view() == side_warnings(paired(entry_views(entries@), projects_view(projects@))),
{
    let ghost es = entry_views(entries@);
    let ghost ps = projects_view(projects@);
    let ghost pairs = paired(es, ps);
    let mut chosen: Vec<CsvProjectEntry> = Vec::new();
    let mut left: Vec<(Project, CsvEntry)> = Vec::new();
    let mut warnings: Vec<String> = Vec::new();
    let mut k: usize = 0;
    assert(pairs.take(0) =~= Seq::<(ProjectView, EntryView)>::empty());
    assert(selected_view(chosen@) =~= Seq::<(ProjectView, EntryView)>::empty());
    assert(filtered_view(left@) =~= Seq::<(ProjectView, EntryView)>::empty());
    assert(warnings.deep_view() =~= Seq::<Seq<char>>::empty());
    while k < projects.len()
        invariant
            k <= projects@.len(),
            es == entry_views(entries@),
            ps == projects_view(projects@),
            pairs == paired(es, ps),
            pairs.len() == projects@.len(),
            all_named(es, ps),
            selected_view(chosen@) == kept(pairs.take(k as int), side),
            filtered_view(left@) == dropped(pairs.take(k as int), side),
            warnings.deep_view() == side_warnings(pairs.take(k as int)),
        decreases projects.len() - k,
    {
        assert(ps[k as int] == projects@[k as int]@);
        assert(is_named(es, ps[k as int]));
        proof {
            lemma_entry_index_found(es, ps[k as int]);
        }
        let idx = find_entry(entries, &projects[k]);
        let i = match idx {
            Some(i) => i,
            None => {
                assert(false);
                0
            },
        };
        let p = copy_project(&projects[k]);
        let e = copy_entry(&entries[i]);
        assert(es[i as int] == entries@[i as int]@);
        assert(pairs[k as int] == (p@, e@));
        assert(pairs.take(k + 1).drop_last() =~= pairs.take(k as int));
        assert(pairs.take(k + 1).last() == pairs[k as int]);
        let ghost c0 = selected_view(chosen@);
        let ghost l0 = filtered_view(left@);
        let ghost w0 = warnings.deep_view();
        let (keep, lacks) = classify(side, &p, &e);
        if lacks {
            warnings.push(p.title.clone());
            assert(warnings.deep_view() =~= w0.push(p@.title));
        }
        if keep {
            chosen.push(CsvProjectEntry { project: p, csv_entry: e });
            assert(selected_view(chosen@) =~= c0.push(pairs[k as int]));
        } else {
            left.push((p, e));
            assert(filtered_view(left@) =~= l0.push(pairs[k as int]));
        }
        k = k + 1;
    }
    assert(pairs.take(projects.len() as int) =~= pairs);
    (LoadProjectResult { projects: chosen, filtered: left, meta }, warnings)
}

/// Filtering by side splits the projects in two: every project kept
/// passes the side test and every one left out fails it, the two lists
/// together are as long as the list of projects, and for both sides every
/// project is kept.
pub proof fn lemma_side_partition(pairs: Seq<(ProjectView, EntryView)>, side: EnvType)
    ensures
        kept(pairs, side).len() + dropped(pairs, side).len() == pairs.len(),
        forall|i: int|
            0 <= i < kept(pairs, side).len() ==> is_kept(
                side,
                (#[trigger] kept(pairs, side)[i]).0,
                kept(pairs, side)[i].1,
            ),
        forall|i: int|
            0 <= i < dropped(pairs, side).len() ==> !is_kept(
                side,
                (#[trigger] dropped(pairs, side)[i]).0,
                dropped(pairs, side)[i].1,
            ),
        side == EnvType::Both ==> kept(pairs, side) == pairs && dropped(pairs, side).len() == 0,
    decreases pairs.len(),
{
    if pairs.len() > 0 {
        lemma_side_partition(pairs.drop_last(), side);
        let k0 = kept(pairs.drop_last(), side);
        let d0 = dropped(pairs.drop_last(), side);
        if is_kept(side, pairs.last().0, pairs.last().1) {
            assert forall|i: int| 0 <= i < kept(pairs, side).len() implies is_kept(
                side,
                (#[trigger] kept(pairs, side)[i]).0,
                kept(pairs, side)[i].1,
            ) by {
                if i < k0.len() {
                    assert(kept(pairs, side)[i] == k0[i]);
                }
            }
        } else {
            assert forall|i: int| 0 <= i < dropped(pairs, side).len() implies !is_kept(
                side,
                (#[trigger] dropped(pairs, side)[i]).0,
                dropped(pairs, side)[i].1,
            ) by {
                if i < d0.len() {
                    assert(dropped(pairs, side)[i] == d0[i]);
                }
            }
        }
        if side == EnvType::Both {
            assert(pairs.drop_last().push(pairs.last()) =~= pairs);
        }
    }
}

} // verus!
