//! The decisions behind the commands: which projects `add` puts in the
//! manifest and which dependencies it follows, which entry `remove` takes
//! out, what `list` shows and what `download` and `export-json` take.
use vstd::prelude::*;

use crate::cli::EnvType;
use crate::manifest::{entry_views, CsvEntry, EntryView};
use crate::modrinth::{ModDependency, ModVersion, Project, VersionFile};
use crate::text::{chars_of, decimal, decimal_chars, push_all, push_str, string_of};
use crate::utils::{copy_project, find_version, is_wanted, CsvProjectEntry, ProjectView};

verus! {

// ---------------------------------------------------------------------------
// add
// ---------------------------------------------------------------------------

/// The environment column written for a side: `c`, `s` or `cs`; none where
/// no side is asked for.
pub open spec fn env_code_of(env: Option<EnvType>) -> Option<Seq<char>> {
    match env {
        None => None,
        Some(EnvType::Client) => Some("c"@),
        Some(EnvType::Server) => Some("s"@),
        Some(EnvType::Both) => Some("cs"@),
    }
}

/// The environment column written for a side.
pub fn env_code(env: Option<EnvType>) -> (r: Option<String>)
    ensures
        r.deep_view() == env_code_of(env),
{
    match env {
        None => None,
        Some(EnvType::Client) => Some(String::from_str("c")),
        Some(EnvType::Server) => Some(String::from_str("s")),
        Some(EnvType::Both) => Some(String::from_str("cs")),
    }
}

/// The projects that `deps` requires and that are not in `seen`, in order.
pub open spec fn new_requirements(deps: Seq<ModDependency>, seen: Seq<Seq<char>>) -> Seq<Seq<char>>
    decreases deps.len(),
{
    if deps.len() == 0 {
        seq![]
    } else {
        let rest = new_requirements(deps.drop_last(), seen);
        let d = deps.last();
        match d.project_id.deep_view() {
            Some(pid) => if d.dependency_type@ == "required"@ && !seen.contains(pid) {
                rest.push(pid)
            } else {
                rest
            },
            None => rest,
        }
    }
}

/// Every project that `add` queues as a dependency is required by the
/// version and was not handled yet: projects already in the manifest, or
/// already added, are never looked up again as dependencies.
pub proof fn lemma_requirements_are_new(deps: Seq<ModDependency>, seen: Seq<Seq<char>>)
    ensures
        forall|k: int|
            0 <= k < new_requirements(deps, seen).len() ==> !seen.contains(
                #[trigger] new_requirements(deps, seen)[k],
            ) && exists|j: int|
                0 <= j < deps.len() && deps[j].dependency_type@ == "required"@
                    && deps[j].project_id.deep_view() == Some(new_requirements(deps, seen)[k]),
        new_requirements(deps, seen).len() <= deps.len(),
    decreases deps.len(),
{
    if deps.len() > 0 {
        let rest = deps.drop_last();
        lemma_requirements_are_new(rest, seen);
        let r0 = new_requirements(rest, seen);
        let r = new_requirements(deps, seen);
        assert forall|k: int| 0 <= k < r.len() implies !seen.contains(#[trigger] r[k]) && exists|j: int|
            0 <= j < deps.len() && deps[j].dependency_type@ == "required"@
                && deps[j].project_id.deep_view() == Some(r[k]) by {
            if k < r0.len() {
                assert(r[k] == r0[k]);
                let j = choose|j: int|
                    0 <= j < rest.len() && rest[j].dependency_type@ == "required"@
                        && rest[j].project_id.deep_view() == Some(r0[k]);
                assert(deps[j] == rest[j]);
            } else {
                assert(deps[deps.len() - 1] == deps.last());
            }
        }
    }
}

/// The projects that `deps` requires, in order.
pub open spec fn required_ids(deps: Seq<ModDependency>) -> Seq<Seq<char>>
    decreases deps.len(),
{
    if deps.len() == 0 {
        seq![]
    } else {
        let rest = required_ids(deps.drop_last());
        let d = deps.last();
        match d.project_id.deep_view() {
            Some(pid) => if d.dependency_type@ == "required"@ {
                rest.push(pid)
            } else {
                rest
            },
            None => rest,
        }
    }
}

/// What following the dependencies `deps` does to the queue, given the ids
/// `seen` handled: the queue keeps what it held, in front; every dependency
/// of type `required` that names a project not in `seen` is queued as a
/// dependency; and everything queued is such a project.
pub open spec fn queues_requirements(
    before: Seq<(Seq<char>, bool)>,
    after: Seq<(Seq<char>, bool)>,
    deps: Seq<ModDependency>,
    seen: Seq<Seq<char>>,
) -> bool {
    &&& before.len() <= after.len()
    &&& after.take(before.len() as int) == before
    &&& forall|j: int|
        0 <= j < deps.len() && (#[trigger] deps[j]).dependency_type@ == "required"@ && deps[j].project_id is Some
            && !seen.contains(deps[j].project_id->0@) ==> after.subrange(before.len() as int, after.len() as int).contains(
            (deps[j].project_id->0@, false),
        )
    &&& forall|k: int|
        before.len() <= k < after.len() ==> !(#[trigger] after[k]).1 && !seen.contains(after[k].0) && exists|j: int|
            0 <= j < deps.len() && deps[j].dependency_type@ == "required"@ && deps[j].project_id.deep_view()
                == Some(after[k].0)
}

/// Every dependency of type `required` that names a project not handled yet
/// is among the projects that `add` queues, and every dependency of type
/// `required` that names a project is among those that `deps` requires.
pub proof fn lemma_requirements_complete(deps: Seq<ModDependency>, seen: Seq<Seq<char>>, j: int)
    requires
        0 <= j < deps.len(),
        deps[j].dependency_type@ == "required"@,
        deps[j].project_id is Some,
    ensures
        required_ids(deps).contains(deps[j].project_id->0@),
        !seen.contains(deps[j].project_id->0@) ==> new_requirements(deps, seen).contains(
            deps[j].project_id->0@,
        ),
    decreases deps.len(),
{
    let pid = deps[j].project_id->0@;
    let r = required_ids(deps);
    let n = new_requirements(deps, seen);
    if j == deps.len() - 1 {
        assert(deps.last() == deps[j]);
        assert(deps[j].project_id.deep_view() == Some(pid));
        assert(r[r.len() - 1] == pid);
        if !seen.contains(pid) {
            assert(n[n.len() - 1] == pid);
        }
    } else {
        let rest = deps.drop_last();
        assert(rest[j] == deps[j]);
        lemma_requirements_complete(rest, seen, j);
        let r0 = required_ids(rest);
        let n0 = new_requirements(rest, seen);
        let k = choose|k: int| 0 <= k < r0.len() && r0[k] == pid;
        assert(r[k] == r0[k]);
        if !seen.contains(pid) {
            let k2 = choose|k2: int| 0 <= k2 < n0.len() && n0[k2] == pid;
            assert(n[k2] == n0[k2]);
        }
    }
}

/// Every project that `add` queues for `deps` is one that `deps` requires.
proof fn lemma_requirements_are_required(deps: Seq<ModDependency>, seen: Seq<Seq<char>>)
    ensures
        forall|k: int|
            0 <= k < new_requirements(deps, seen).len() ==> required_ids(deps).contains(
                #[trigger] new_requirements(deps, seen)[k],
            ),
    decreases deps.len(),
{
    if deps.len() > 0 {
        let rest = deps.drop_last();
        lemma_requirements_are_required(rest, seen);
        let r0 = required_ids(rest);
        let n0 = new_requirements(rest, seen);
        let r = required_ids(deps);
        let n = new_requirements(deps, seen);
        assert forall|k: int| 0 <= k < n.len() implies r.contains(#[trigger] n[k]) by {
            if k < n0.len() {
                assert(n[k] == n0[k]);
                let idx = choose|idx: int| 0 <= idx < r0.len() && r0[idx] == n0[k];
                assert(r[idx] == r0[idx]);
            } else {
                assert(r[r.len() - 1] == n[k]);
            }
        }
    }
}

/// Every project that `deps` requires is either handled already or among
/// the new requirements that `add` queues.
proof fn lemma_required_are_covered(deps: Seq<ModDependency>, seen: Seq<Seq<char>>)
    ensures
        forall|k: int|
            0 <= k < required_ids(deps).len() ==> seen.contains(#[trigger] required_ids(deps)[k])
                || new_requirements(deps, seen).contains(required_ids(deps)[k]),
    decreases deps.len(),
{
    if deps.len() > 0 {
        let rest = deps.drop_last();
        lemma_required_are_covered(rest, seen);
        let r0 = required_ids(rest);
        let n0 = new_requirements(rest, seen);
        let r = required_ids(deps);
        let n = new_requirements(deps, seen);
        assert(n.take(n0.len() as int) =~= n0);
        assert forall|k: int| 0 <= k < r.len() implies seen.contains(#[trigger] r[k]) || n.contains(r[k]) by {
            if k < r0.len() {
                assert(r[k] == r0[k]);
                if n0.contains(r0[k]) {
                    let idx = choose|idx: int| 0 <= idx < n0.len() && n0[idx] == r0[k];
                    assert(n[idx] == n0[idx]);
                }
            } else if !seen.contains(r[k]) {
                assert(n[n.len() - 1] == r[k]);
            }
        }
    }
}

/// The entry that `add` writes for `project` at `version`, pinned where a
/// version was asked for.
pub open spec fn added_entry(project: Project, version: ModVersion, env: Option<EnvType>, pinned: bool) -> EntryView {
    EntryView {
        id: project.slug@,
        version: Some(version.version_number@),
        environment: env_code_of(env),
        is_version_fixed: pinned,
    }
}

/// Whether `p` has been handled, by id or by slug.
pub open spec fn handled(seen: Seq<Seq<char>>, p: ProjectView) -> bool {
    seen.contains(p.id) || seen.contains(p.slug)
}

/// What `add` does with the projects that one lookup found.
#[derive(Clone, Copy, Debug, PartialEq, Eq, Structural)]
pub enum Lookup {
    /// Modrinth knows no such project: skip it.
    NotFound,
    /// The first project found is handled already: skip it.
    Handled,
    /// The first project found is new: fetch its versions.
    Resolve,
}

/// The version that `add` installs for a lookup: the version asked for
/// (`--version`) where the lookup was asked for and a version was given,
/// otherwise the latest.
pub open spec fn wanted_version(asked: bool, pin: Option<Seq<char>>) -> Option<Seq<char>> {
    if asked {
        pin
    } else {
        None
    }
}

/// Once a project is added under a lookup `q` that is its id or slug, a
/// later lookup that finds the same project (same id and slug) finds it
/// handled, as long as nothing handled is forgotten; so the same project is
/// not added twice.
pub proof fn lemma_added_stays_handled(seen: Seq<Seq<char>>, q: Seq<char>, p: ProjectView, later: Seq<Seq<char>>, p2: ProjectView)
    requires
        q == p.id || q == p.slug,
        p2.id == p.id,
        p2.slug == p.slug,
        forall|x: Seq<char>| #[trigger] seen.push(q).contains(x) ==> later.contains(x),
    ensures
        handled(later, p2),
{
    assert(seen.push(q)[seen.len() as int] == q);
    assert(seen.push(q).contains(q));
    assert(later.contains(q));
}

/// The state of an `add`: the ids still to look up (each marked whether it
/// was asked for or is a dependency), the ids and slugs already handled,
/// and the entries added so far; and, as ghost state for its contracts,
/// what was asked, what the manifest held, what was looked up and added,
/// and what the added versions require.
pub struct AddQueue {
    pub queue: Vec<(String, bool)>,
    pub seen: Vec<String>,
    pub result: Vec<CsvEntry>,
    /// The ids asked for.
    pub asked: Ghost<Seq<Seq<char>>>,
    /// The ids of the manifest's entries when the `add` began.
    pub initial: Ghost<Seq<Seq<char>>>,
    /// Each lookup that added a project, with the project it found.
    pub added: Ghost<Seq<(Seq<char>, ProjectView)>>,
    /// The ids taken off the queue so far.
    pub looked_up: Ghost<Seq<Seq<char>>>,
    /// The projects that the versions added so far require.
    pub required: Ghost<Seq<Seq<char>>>,
}

/// The lookups of the added projects, in order.
pub open spec fn lookups(added: Seq<(Seq<char>, ProjectView)>) -> Seq<Seq<char>> {
    added.map_values(|a: (Seq<char>, ProjectView)| a.0)
}

impl AddQueue {
    /// Whether a queued lookup comes from where its mark says: an id asked
    /// for, or a project that an added version requires.
    pub open spec fn has_source(&self, item: (Seq<char>, bool)) -> bool {
        &&& item.1 ==> self.asked@.contains(item.0)
        &&& !item.1 ==> self.required@.contains(item.0)
    }

    /// Whether `id` is handled, still queued as a dependency, or has been
    /// looked up.
    pub open spec fn followed(&self, id: Seq<char>) -> bool {
        ||| self.seen.deep_view().contains(id)
        ||| self.queue.deep_view().contains((id, false))
        ||| self.looked_up@.contains(id)
    }

    /// The invariant of an `add`: the handled ids are the manifest's ids and
    /// then the lookups of the added projects; the entries added are the
    /// slugs of those projects; no added project was handled when it was
    /// added; every project that an added version requires is followed;
    /// and every lookup, queued or done, is of an id asked for or of a
    /// required project, and every project was added for a lookup done.
    pub open spec fn wf(&self) -> bool {
        &&& self.seen.deep_view() == self.initial@ + lookups(self.added@)
        &&& entry_views(self.result@).len() == self.added@.len()
        &&& forall|j: int|
            0 <= j < self.added@.len() ==> (#[trigger] entry_views(self.result@)[j]).id
                == self.added@[j].1.slug
        &&& forall|j: int|
            0 <= j < self.added@.len() ==> !handled(self.initial@, #[trigger] self.added@[j].1)
        &&& forall|i: int, j: int|
            0 <= i < j < self.added@.len() ==> (#[trigger] self.added@[i]).0 != (#[trigger] self.added@[j]).1.id
                && self.added@[i].0 != self.added@[j].1.slug
        &&& forall|k: int| 0 <= k < self.required@.len() ==> self.followed(#[trigger] self.required@[k])
        &&& forall|k: int|
            0 <= k < self.queue.deep_view().len() ==> self.has_source(#[trigger] self.queue.deep_view()[k])
        &&& forall|k: int|
            0 <= k < self.looked_up@.len() ==> self.asked@.contains(#[trigger] self.looked_up@[k])
                || self.required@.contains(self.looked_up@[k])
        &&& forall|j: int| 0 <= j < self.added@.len() ==> self.looked_up@.contains((#[trigger] self.added@[j]).0)
    }
}

impl AddQueue {
    /// Starts an `add` of `ids` to a manifest that holds `entries`: every
    /// id is queued as asked for, and the ids of the entries count as
    /// handled.
    pub fn new(ids: &Vec<String>, entries: &Vec<CsvEntry>) -> (q: AddQueue)
        ensures
            q.queue.deep_view() == ids.deep_view().map_values(|id: Seq<char>| (id, true)),
            q.seen.deep_view() == entry_views(entries@).map_values(|e: EntryView| e.id),
            q.result@.len() == 0,
            q.asked@ == ids.deep_view(),
            q.initial@ == entry_views(entries@).map_values(|e: EntryView| e.id),
            q.added@.len() == 0,
            q.looked_up@.len() == 0,
            q.required@.len() == 0,
            q.wf(),
    {
        let mut queue: Vec<(String, bool)> = Vec::new();
        for i in 0..ids.len()
            invariant
                queue.deep_view() == ids.deep_view().take(i as int).map_values(
                    |id: Seq<char>| (id, true),
                ),
        {
            let ghost before = queue.deep_view();
            queue.push((ids[i].clone(), true));
            assert(queue.deep_view() =~= before.push((ids.deep_view()[i as int], true)));
            assert(ids.deep_view().take(i + 1).map_values(|id: Seq<char>| (id, true))
                =~= ids.deep_view().take(i as int).map_values(|id: Seq<char>| (id, true)).push(
                (ids.deep_view()[i as int], true),
            ));
        }
        assert(ids.deep_view().take(ids.len() as int) =~= ids.deep_view());
        let mut seen: Vec<String> = Vec::new();
        let ghost es = entry_views(entries@);
        for i in 0..entries.len()
            invariant
                es == entry_views(entries@),
                seen.deep_view() == es.take(i as int).map_values(|e: EntryView| e.id),
        {
            let ghost before = seen.deep_view();
            seen.push(entries[i].id.clone());
            assert(seen.deep_view() =~= before.push(es[i as int].id));
            assert(es.take(i + 1).map_values(|e: EntryView| e.id) =~= es.take(i as int).map_values(
                |e: EntryView| e.id,
            ).push(es[i as int].id));
        }
        assert(es.take(entries.len() as int) =~= es);
        let ghost initial = seen.deep_view();
        assert(lookups(Seq::<(Seq<char>, ProjectView)>::empty()) =~= Seq::<Seq<char>>::empty());
        assert(initial + Seq::<Seq<char>>::empty() =~= initial);
        let result: Vec<CsvEntry> = Vec::new();
        assert(entry_views(result@) =~= Seq::<EntryView>::empty());
        let ghost iv = ids.deep_view();
        assert forall|k: int| 0 <= k < queue.deep_view().len() implies iv.contains(
            (#[trigger] queue.deep_view()[k]).0,
        ) by {
            assert(queue.deep_view()[k].0 == iv[k]);
        }
        let asked: Ghost<Seq<Seq<char>>> = Ghost(iv);
        let initial: Ghost<Seq<Seq<char>>> = Ghost(initial);
        let added: Ghost<Seq<(Seq<char>, ProjectView)>> = Ghost(Seq::empty());
        let looked_up: Ghost<Seq<Seq<char>>> = Ghost(Seq::empty());
        let required: Ghost<Seq<Seq<char>>> = Ghost(Seq::empty());
        AddQueue { queue, seen, result, asked, initial, added, looked_up, required }
    }

    /// Takes the next id to look up off the front of the queue.
    /// The id taken counts as looked up.
    pub fn pop_next(&mut self) -> (r: Option<(String, bool)>)
        requires
            old(self).wf(),
        ensures
            old(self).queue@.len() == 0 ==> r is None && final(self).queue@ == old(self).queue@
                && final(self).looked_up@ == old(self).looked_up@,
            old(self).queue@.len() > 0 ==> r == Some(old(self).queue@[0]) && final(self).queue@
                == old(self).queue@.drop_first() && final(self).looked_up@ == old(
                self,
            ).looked_up@.push(old(self).queue@[0].0@),
            final(self).seen@ == old(self).seen@,
            final(self).result@ == old(self).result@,
            final(self).asked@ == old(self).asked@,
            final(self).initial@ == old(self).initial@,
            final(self).added@ == old(self).added@,
            final(self).required@ == old(self).required@,
            final(self).wf(),
    {
        if self.queue.len() == 0 {
            None
        } else {
            let ghost q0 = self.queue.deep_view();
            let x = self.queue.remove(0);
            assert(self.queue@ =~= old(self).queue@.drop_first());
            assert(self.queue.deep_view() =~= q0.drop_first());
            let ghost id = x.0@;
            assert(q0[0] == (id, x.1));
            self.looked_up = Ghost(self.looked_up@.push(id));
            assert forall|k: int| 0 <= k < self.required@.len() implies self.followed(
                #[trigger] self.required@[k],
            ) by {
                let r = self.required@[k];
                assert(old(self).followed(r));
                if q0.contains((r, false)) {
                    let idx = choose|idx: int| 0 <= idx < q0.len() && q0[idx] == (r, false);
                    if idx == 0 {
                        assert(self.looked_up@[self.looked_up@.len() - 1] == r);
                    } else {
                        assert(self.queue.deep_view()[idx - 1] == (r, false));
                    }
                } else if old(self).looked_up@.contains(r) {
                    let idx = choose|idx: int| 0 <= idx < old(self).looked_up@.len() && old(self).looked_up@[idx] == r;
                    assert(self.looked_up@[idx] == r);
                }
            }
            assert(old(self).has_source(q0[0]));
            assert forall|k: int| 0 <= k < self.queue.deep_view().len() implies self.has_source(
                #[trigger] self.queue.deep_view()[k],
            ) by {
                assert(self.queue.deep_view()[k] == q0[k + 1]);
                assert(old(self).has_source(q0[k + 1]));
            }
            assert forall|j: int| 0 <= j < self.added@.len() implies self.looked_up@.contains(
                (#[trigger] self.added@[j]).0,
            ) by {
                let a = self.added@[j].0;
                assert(old(self).looked_up@.contains(a));
                let idx = choose|idx: int| 0 <= idx < old(self).looked_up@.len() && old(self).looked_up@[idx] == a;
                assert(self.looked_up@[idx] == a);
            }
            Some(x)
        }
    }

    /// Whether `id` has been handled.
    fn has_id(&self, id: &String) -> (r: bool)
        ensures
            r == self.seen.deep_view().contains(id@),
    {
        let ghost sv = self.seen.deep_view();
        let mut i: usize = 0;
        while i < self.seen.len()
            invariant
                i <= self.seen@.len(),
                sv == self.seen.deep_view(),
                forall|j: int| 0 <= j < i ==> sv[j] != id@,
            decreases self.seen.len() - i,
        {
            if self.seen[i] == *id {
                assert(sv[i as int] == id@);
                return true;
            }
            i = i + 1;
        }
        false
    }

    /// Whether `project` has been handled, by id or by slug.
    pub fn has_seen(&self, project: &Project) -> (r: bool)
        ensures
            r == (self.seen.deep_view().contains(project.id@) || self.seen.deep_view().contains(
                project.slug@,
            )),
    {
        self.has_id(&project.id) || self.has_id(&project.slug)
    }

    /// What to do with the projects that a lookup found: skip where none
    /// was found or the first is handled already, else fetch the first's
    /// versions.
    pub fn consider(&self, projects: &Vec<Project>) -> (r: Lookup)
        ensures
            projects@.len() == 0 ==> r == Lookup::NotFound,
            projects@.len() > 0 ==> (r == Lookup::Handled) == handled(self.seen.deep_view(), projects@[0]@),
            projects@.len() > 0 ==> (r == Lookup::Resolve) == !handled(self.seen.deep_view(), projects@[0]@),
    {
        if projects.len() == 0 {
            Lookup::NotFound
        } else if self.has_seen(&projects[0]) {
            Lookup::Handled
        } else {
            Lookup::Resolve
        }
    }

    /// Adds `project` from the `versions` that Modrinth lists for it, for
    /// the lookup `queried` (`asked` where it was asked for rather than
    /// queued as a dependency), given the version `pin` asked for. The
    /// version taken is `version_for(versions, wanted_version(asked, pin))`;
    /// where there is none, nothing changes and the result is `false`. The
    /// lookup must have been taken off the queue (`pop_next`), and the
    /// project must not be handled yet (`consider` says `Resolve`).
    /// Otherwise the result is `true` and the project is accepted at that
    /// version, pinned exactly where a version was wanted.
    pub fn resolve(
        &mut self,
        queried: String,
        asked: bool,
        project: &Project,
        versions: &Vec<ModVersion>,
        pin: &Option<String>,
        env: Option<EnvType>,
    ) -> (r: bool)
        requires
            old(self).wf(),
            old(self).looked_up@.contains(queried@),
            !handled(old(self).seen.deep_view(), project@),
        ensures
            final(self).wf(),
            final(self).asked@ == old(self).asked@,
            final(self).initial@ == old(self).initial@,
            final(self).looked_up@ == old(self).looked_up@,
            match version_for(versions@, wanted_version(asked, pin.deep_view())) {
                None => !r && final(self).seen@ == old(self).seen@ && final(self).queue@ == old(self).queue@
                    && final(self).result@ == old(self).result@ && final(self).added@ == old(self).added@
                    && final(self).required@ == old(self).required@,
                Some(i) => r && queues_requirements(
                    old(self).queue.deep_view(),
                    final(self).queue.deep_view(),
                    versions@[i].dependencies@,
                    old(self).seen.deep_view().push(queried@),
                ) && final(self).added@ == old(self).added@.push((queried@, project@))
                    && final(self).required@ == old(self).required@ + required_ids(versions@[i].dependencies@)
                    && final(self).seen.deep_view() == old(self).seen.deep_view().push(queried@)
                    && final(self).queue.deep_view() == old(self).queue.deep_view() + new_requirements(
                    versions@[i].dependencies@,
                    old(self).seen.deep_view().push(queried@),
                ).map_values(|id: Seq<char>| (id, false)) && entry_views(final(self).result@)
                    == entry_views(old(self).result@).push(
                    added_entry(*project, versions@[i], env, wanted_version(asked, pin.deep_view()) is Some),
                ),
            },
    {
        let none: Option<String> = None;
        let want = if asked { pin } else { &none };
        assert(want.deep_view() == wanted_version(asked, pin.deep_view()));
        let picked = pick_version(versions, want);
        match picked {
            Some(i) => {
                assert(version_for(versions@, want.deep_view()) == Some(i as int));
                assert(want.deep_view() == wanted_version(asked, pin.deep_view()));
                let pinned = want.is_some();
                assert(pinned == (wanted_version(asked, pin.deep_view()) is Some));
                self.accept(queried, project, &versions[i], env, pinned);
                true
            },
            None => false,
        }
    }

    /// Adds `project` at `version`, looked up as `queried`: `queried` counts
    /// as handled, every project that `version` requires and that is not
    /// handled yet is queued as a dependency, and the entry for the
    /// project's slug at that version is added, pinned where `pinned`.
    fn accept(&mut self, queried: String, project: &Project, version: &ModVersion, env: Option<EnvType>, pinned: bool)
        requires
            old(self).wf(),
            old(self).looked_up@.contains(queried@),
            !handled(old(self).seen.deep_view(), project@),
        ensures
            final(self).wf(),
            final(self).asked@ == old(self).asked@,
            final(self).initial@ == old(self).initial@,
            final(self).looked_up@ == old(self).looked_up@,
            final(self).added@ == old(self).added@.push((queried@, project@)),
            final(self).required@ == old(self).required@ + required_ids(version.dependencies@),
            queues_requirements(
                old(self).queue.deep_view(),
                final(self).queue.deep_view(),
                version.dependencies@,
                old(self).seen.deep_view().push(queried@),
            ),
            final(self).seen.deep_view() == old(self).seen.deep_view().push(queried@),
            final(self).queue.deep_view() == old(self).queue.deep_view() + new_requirements(
                version.dependencies@,
                old(self).seen.deep_view().push(queried@),
            ).map_values(|id: Seq<char>| (id, false)),
            entry_views(final(self).result@) == entry_views(old(self).result@).push(
                added_entry(*project, *version, env, pinned),
            ),
    {
        self.seen.push(queried);
        let ghost seen = self.seen.deep_view();
        assert(seen =~= old(self).seen.deep_view().push(queried@));
        let ghost q0 = self.queue.deep_view();
        let deps = &version.dependencies;
        let required = String::from_str("required");
        assert(deps@.take(0) =~= Seq::<ModDependency>::empty());
        assert(q0 =~= q0 + new_requirements(deps@.take(0), seen).map_values(
            |id: Seq<char>| (id, false),
        ));
        for i in 0..deps.len()
            invariant
                seen == self.seen.deep_view(),
                self.result@ == old(self).result@,
                self.asked@ == old(self).asked@,
                self.initial@ == old(self).initial@,
                self.added@ == old(self).added@,
                self.looked_up@ == old(self).looked_up@,
                required@ == "required"@,
                self.queue.deep_view() == q0 + new_requirements(deps@.take(i as int), seen).map_values(
                    |id: Seq<char>| (id, false),
                ),
        {
            let ghost before = self.queue.deep_view();
            assert(deps@.take(i + 1).drop_last() =~= deps@.take(i as int));
            assert(deps@.take(i + 1).last() == deps@[i as int]);
            let d = &deps[i];
            match &d.project_id {
                Some(pid) => {
                    if d.dependency_type == required && !self.has_id(pid) {
                        self.queue.push((pid.clone(), false));
                        assert(self.queue.deep_view() =~= before.push((pid@, false)));
                        assert(new_requirements(deps@.take(i + 1), seen) == new_requirements(
                            deps@.take(i as int),
                            seen,
                        ).push(pid@));
                        assert(self.queue.deep_view() =~= q0 + new_requirements(
                            deps@.take(i + 1),
                            seen,
                        ).map_values(|id: Seq<char>| (id, false)));
                    }
                },
                None => {},
            }
        }
        assert(deps@.take(deps.len() as int) =~= deps@);
        proof {
            let q1 = self.queue.deep_view();
            let fresh = new_requirements(deps@, seen);
            let tail = fresh.map_values(|id: Seq<char>| (id, false));
            assert(q1.take(q0.len() as int) =~= q0);
            assert(q1.subrange(q0.len() as int, q1.len() as int) =~= tail);
            lemma_requirements_are_new(deps@, seen);
            assert forall|j: int|
                0 <= j < deps@.len() && (#[trigger] deps@[j]).dependency_type@ == "required"@
                    && deps@[j].project_id is Some && !seen.contains(deps@[j].project_id->0@) implies tail.contains(
                (deps@[j].project_id->0@, false),
            ) by {
                lemma_requirements_complete(deps@, seen, j);
                let k = choose|k: int| 0 <= k < fresh.len() && fresh[k] == deps@[j].project_id->0@;
                assert(tail[k] == (fresh[k], false));
            }
            assert forall|k: int| q0.len() <= k < q1.len() implies !(#[trigger] q1[k]).1 && !seen.contains(q1[k].0)
                && exists|j: int|
                0 <= j < deps@.len() && deps@[j].dependency_type@ == "required"@
                    && deps@[j].project_id.deep_view() == Some(q1[k].0) by {
                assert(q1[k] == tail[k - q0.len()]);
                assert(fresh[k - q0.len()] == q1[k].0);
            }
        }
        let entry = CsvEntry {
            id: project.slug.clone(),
            version: Some(version.version_number.clone()),
            environment: env_code(env),
            is_version_fixed: pinned,
        };
        let ghost r0 = entry_views(self.result@);
        self.result.push(entry);
        assert(entry_views(self.result@) =~= r0.push(entry@));
        let ghost a0 = self.added@;
        let ghost p = project@;
        let ghost s0 = old(self).seen.deep_view();
        let ghost init = self.initial@;
        self.added = Ghost(a0.push((queried@, p)));
        self.required = Ghost(old(self).required@ + required_ids(deps@));
        proof {
            assert(lookups(self.added@) =~= lookups(a0).push(queried@));
            assert(seen =~= init + lookups(self.added@));
            assert forall|j: int| 0 <= j < self.added@.len() implies !handled(init, #[trigger] self.added@[j].1) by {
                if j == a0.len() {
                    if init.contains(p.id) {
                        let k = choose|k: int| 0 <= k < init.len() && init[k] == p.id;
                        assert(s0[k] == p.id);
                    }
                    if init.contains(p.slug) {
                        let k = choose|k: int| 0 <= k < init.len() && init[k] == p.slug;
                        assert(s0[k] == p.slug);
                    }
                } else {
                    assert(self.added@[j] == a0[j]);
                }
            }
            assert forall|i: int, j: int| 0 <= i < j < self.added@.len() implies (#[trigger] self.added@[i]).0
                != (#[trigger] self.added@[j]).1.id && self.added@[i].0 != self.added@[j].1.slug by {
                assert(self.added@[i] == a0[i]);
                if j == a0.len() {
                    assert(s0[init.len() + i] == a0[i].0);
                } else {
                    assert(self.added@[j] == a0[j]);
                }
            }
            assert forall|j: int| 0 <= j < self.added@.len() implies (#[trigger] entry_views(self.result@)[j]).id
                == self.added@[j].1.slug by {
                if j < a0.len() {
                    assert(entry_views(self.result@)[j] == r0[j]);
                }
            }
            let deps_req = required_ids(deps@);
            let fresh = new_requirements(deps@, seen);
            let q1 = self.queue.deep_view();
            lemma_required_are_covered(deps@, seen);
            assert forall|k: int| 0 <= k < self.required@.len() implies self.followed(#[trigger] self.required@[k]) by {
                let r = self.required@[k];
                if k < old(self).required@.len() {
                    assert(old(self).followed(r));
                    if s0.contains(r) {
                        let idx = choose|idx: int| 0 <= idx < s0.len() && s0[idx] == r;
                        assert(seen[idx] == r);
                    }
                    if q0.contains((r, false)) {
                        let idx = choose|idx: int| 0 <= idx < q0.len() && q0[idx] == (r, false);
                        assert(q1[idx] == (r, false));
                    }
                } else {
                    assert(r == deps_req[k - old(self).required@.len()]);
                    if fresh.contains(r) {
                        let idx = choose|idx: int| 0 <= idx < fresh.len() && fresh[idx] == r;
                        assert(q1[q0.len() + idx] == (r, false));
                    }
                }
            }
            let req = self.required@;
            let r_old = old(self).required@;
            assert forall|x: Seq<char>| r_old.contains(x) implies req.contains(x) by {
                let idx = choose|idx: int| 0 <= idx < r_old.len() && r_old[idx] == x;
                assert(req[idx] == x);
            }
            lemma_requirements_are_required(deps@, seen);
            assert forall|k: int| 0 <= k < q1.len() implies self.has_source(#[trigger] q1[k]) by {
                if k < q0.len() {
                    assert(q1[k] == q0[k]);
                    assert(old(self).has_source(q0[k]));
                } else {
                    let r = fresh[k - q0.len()];
                    assert(q1[k] == (r, false));
                    assert(deps_req.contains(r));
                    let idx = choose|idx: int| 0 <= idx < deps_req.len() && deps_req[idx] == r;
                    assert(req[r_old.len() + idx] == r);
                }
            }
            assert forall|k: int| 0 <= k < self.looked_up@.len() implies self.asked@.contains(
                #[trigger] self.looked_up@[k],
            ) || req.contains(self.looked_up@[k]) by {
                assert(old(self).asked@.contains(self.looked_up@[k]) || r_old.contains(self.looked_up@[k]));
            }
            assert forall|j: int| 0 <= j < self.added@.len() implies self.looked_up@.contains(
                (#[trigger] self.added@[j]).0,
            ) by {
                if j < a0.len() {
                    assert(self.added@[j] == a0[j]);
                }
            }
        }
    }

    /// The ids of the entries added so far, joined by `", "`.
    pub fn added_ids(&self) -> (r: String)
        ensures
            r@ == joined(entry_views(self.result@).map_values(|e: EntryView| e.id), ", "@),
    {
        let mut ids: Vec<String> = Vec::new();
        let ghost es = entry_views(self.result@);
        for i in 0..self.result.len()
            invariant
                es == entry_views(self.result@),
                ids.deep_view() == es.take(i as int).map_values(|e: EntryView| e.id),
        {
            let ghost before = ids.deep_view();
            ids.push(self.result[i].id.clone());
            assert(ids.deep_view() =~= before.push(es[i as int].id));
            assert(es.take(i + 1).map_values(|e: EntryView| e.id) =~= es.take(i as int).map_values(
                |e: EntryView| e.id,
            ).push(es[i as int].id));
        }
        assert(es.take(self.result.len() as int) =~= es);
        join_strings(&ids, ", ")
    }
}

/// Dependencies are followed to the end: once an `add` has nothing left in
/// its queue, every project that an added version requires has been
/// handled or looked up (in every state before, it may also still be
/// queued, as `AddQueue::wf` states).
pub proof fn lemma_dependencies_followed(q: AddQueue)
    requires
        q.wf(),
        q.queue@.len() == 0,
    ensures
        forall|k: int|
            0 <= k < q.required@.len() ==> q.seen.deep_view().contains(#[trigger] q.required@[k])
                || q.looked_up@.contains(q.required@[k]),
{
    assert forall|k: int| 0 <= k < q.required@.len() implies q.seen.deep_view().contains(
        #[trigger] q.required@[k],
    ) || q.looked_up@.contains(q.required@[k]) by {
        assert(q.followed(q.required@[k]));
        assert(q.queue.deep_view().len() == 0);
    }
}

/// An `add` looks up only ids that were asked for and projects that an
/// added version requires, and adds a project only for such a lookup.
pub proof fn lemma_lookups_have_a_source(q: AddQueue)
    requires
        q.wf(),
    ensures
        forall|k: int|
            0 <= k < q.looked_up@.len() ==> q.asked@.contains(#[trigger] q.looked_up@[k])
                || q.required@.contains(q.looked_up@[k]),
        forall|j: int|
            0 <= j < q.added@.len() ==> q.asked@.contains((#[trigger] q.added@[j]).0)
                || q.required@.contains(q.added@[j].0),
{
    assert forall|j: int| 0 <= j < q.added@.len() implies q.asked@.contains((#[trigger] q.added@[j]).0)
        || q.required@.contains(q.added@[j].0) by {
        let a = q.added@[j].0;
        let idx = choose|idx: int| 0 <= idx < q.looked_up@.len() && q.looked_up@[idx] == a;
        assert(q.asked@.contains(q.looked_up@[idx]) || q.required@.contains(q.looked_up@[idx]));
    }
}

/// No project is added twice, nor one that the manifest already names:
/// where each lookup found the project whose id or slug it is, no added
/// project has its id or slug among the manifest's ids, and no two added
/// projects have both the same id and the same slug.
pub proof fn lemma_no_project_added_twice(q: AddQueue)
    requires
        q.wf(),
        forall|j: int|
            0 <= j < q.added@.len() ==> (#[trigger] q.added@[j]).0 == q.added@[j].1.id || q.added@[j].0
                == q.added@[j].1.slug,
    ensures
        forall|j: int| 0 <= j < q.added@.len() ==> !handled(q.initial@, #[trigger] q.added@[j].1),
        forall|i: int, j: int|
            0 <= i < j < q.added@.len() ==> (#[trigger] q.added@[i]).1.id != (#[trigger] q.added@[j]).1.id
                || q.added@[i].1.slug != q.added@[j].1.slug,
{
}

/// The entries that an `add` writes name different projects: where each
/// lookup found the project whose id or slug it is, and projects with
/// different ids have different slugs, the added entries' ids are pairwise
/// different and none is the id of an entry that the manifest held.
pub proof fn lemma_added_entries_are_new(q: AddQueue)
    requires
        q.wf(),
        forall|j: int|
            0 <= j < q.added@.len() ==> (#[trigger] q.added@[j]).0 == q.added@[j].1.id || q.added@[j].0
                == q.added@[j].1.slug,
        forall|i: int, j: int|
            0 <= i < q.added@.len() && 0 <= j < q.added@.len() && (#[trigger] q.added@[i]).1.id
                != (#[trigger] q.added@[j]).1.id ==> q.added@[i].1.slug != q.added@[j].1.slug,
    ensures
        forall|i: int, j: int|
            0 <= i < j < q.result@.len() ==> (#[trigger] entry_views(q.result@)[i]).id != (
            #[trigger] entry_views(q.result@)[j]).id,
        forall|j: int|
            0 <= j < q.result@.len() ==> !q.initial@.contains((#[trigger] entry_views(q.result@)[j]).id),
{
    let es = entry_views(q.result@);
    assert forall|i: int, j: int| 0 <= i < j < q.result@.len() implies (#[trigger] es[i]).id != (
    #[trigger] es[j]).id by {
        assert(q.added@[i].0 != q.added@[j].1.id && q.added@[i].0 != q.added@[j].1.slug);
        assert(es[i].id == q.added@[i].1.slug);
        assert(es[j].id == q.added@[j].1.slug);
    }
    assert forall|j: int| 0 <= j < q.result@.len() implies !q.initial@.contains((#[trigger] es[j]).id) by {
        assert(es[j].id == q.added@[j].1.slug);
        assert(!handled(q.initial@, q.added@[j].1));
    }
}

// ---------------------------------------------------------------------------
// Joining text.
// ---------------------------------------------------------------------------

/// `items` joined by `sep`, as `Itertools::join` writes them.
pub open spec fn joined(items: Seq<Seq<char>>, sep: Seq<char>) -> Seq<char>
    decreases items.len(),
{
    if items.len() == 0 {
        seq![]
    } else if items.len() == 1 {
        items[0]
    } else {
        joined(items.drop_last(), sep) + sep + items.last()
    }
}

/// `items` joined by `sep`.
pub fn join_strings(items: &Vec<String>, sep: &str) -> (r: String)
    ensures
        r@ == joined(items.deep_view(), sep@),
{
    let ghost iv = items.deep_view();
    let sep_chars = chars_of(sep);
    let mut out: Vec<char> = Vec::new();
    assert(out@ =~= joined(iv.take(0), sep@));
    for i in 0..items.len()
        invariant
            iv == items.deep_view(),
            sep_chars@ == sep@,
            out@ == joined(iv.take(i as int), sep@),
    {
        if i > 0 {
            push_all(&mut out, &sep_chars);
        }
        push_str(&mut out, items[i].as_str());
        assert(iv.take(i + 1).drop_last() =~= iv.take(i as int));
        if i == 0 {
            assert(out@ =~= joined(iv.take(1), sep@));
        } else {
            assert(out@ =~= joined(iv.take(i + 1), sep@));
        }
    }
    assert(iv.take(items.len() as int) =~= iv);
    string_of(&out)
}

// ---------------------------------------------------------------------------
// remove
// ---------------------------------------------------------------------------

/// Takes out of `entries` the first entry whose id is `id`, and gives it
/// back; leaves `entries` as it was where none has that id.
pub fn remove_entry(entries: &mut Vec<CsvEntry>, id: &String) -> (r: Option<CsvEntry>)
    ensures
        match r {
            Some(e) => exists|i: int|
                0 <= i < old(entries)@.len() && old(entries)@[i] == e && e.id@ == id@ && (forall|j: int|
                    0 <= j < i ==> (#[trigger] old(entries)@[j]).id@ != id@) && final(entries)@ == old(
                    entries,
                )@.remove(i),
            None => final(entries)@ == old(entries)@ && forall|j: int|
                0 <= j < old(entries)@.len() ==> (#[trigger] old(entries)@[j]).id@ != id@,
        },
{
    let mut i: usize = 0;
    while i < entries.len()
        invariant
            i <= entries@.len(),
            entries@ == old(entries)@,
            forall|j: int| 0 <= j < i ==> (#[trigger] entries@[j]).id@ != id@,
        decreases entries.len() - i,
    {
        if entries[i].id == *id {
            let e = entries.remove(i);
            return Some(e);
        }
        i = i + 1;
    }
    None
}

// ---------------------------------------------------------------------------
// list
// ---------------------------------------------------------------------------

/// How `list` shows a project: `title (id, slug)`.
pub open spec fn described(p: ProjectView) -> Seq<char> {
    p.title + " ("@ + p.id + ", "@ + p.slug + ")"@
}

/// How `list` shows a project.
pub fn describe_project(p: &Project) -> (r: String)
    ensures
        r@ == described(p@),
{
    let mut v: Vec<char> = Vec::new();
    push_str(&mut v, p.title.as_str());
    push_str(&mut v, " (");
    push_str(&mut v, p.id.as_str());
    push_str(&mut v, ", ");
    push_str(&mut v, p.slug.as_str());
    push_str(&mut v, ")");
    assert(v@ =~= described(p@));
    string_of(&v)
}

/// The heading of `list`: how many projects are kept and how many left out.
pub open spec fn list_heading(kept: nat, left: nat) -> Seq<char> {
    "List of mods ("@ + decimal(kept) + ", filtered "@ + decimal(left) + "):"@
}

/// The lines that `list` prints: the heading, the kept projects joined by
/// `", "`, and where some are left out, `Filtered:` and those joined the
/// same way.
pub open spec fn list_lines(kept: Seq<ProjectView>, left: Seq<ProjectView>) -> Seq<Seq<char>> {
    let shown = seq![
        list_heading(kept.len(), left.len()),
        joined(kept.map_values(|p: ProjectView| described(p)), ", "@),
    ];
    if left.len() == 0 {
        shown
    } else {
        shown + seq!["Filtered:"@, joined(left.map_values(|p: ProjectView| described(p)), ", "@)]
    }
}

/// What `list` prints, line by line: first the heading with how many
/// projects are kept and how many left out; then, whatever was left out,
/// every kept project as `title (id, slug)`, joined by `", "`; and only
/// where some were left out, `Filtered:` and those projects the same way.
pub proof fn lemma_list_lines(kept: Seq<ProjectView>, left: Seq<ProjectView>)
    ensures
        list_lines(kept, left).len() == if left.len() == 0 {
            2int
        } else {
            4int
        },
        list_lines(kept, left)[0] == "List of mods ("@ + decimal(kept.len()) + ", filtered "@ + decimal(
            left.len(),
        ) + "):"@,
        list_lines(kept, left)[1] == joined(
            kept.map_values(|p: ProjectView| p.title + " ("@ + p.id + ", "@ + p.slug + ")"@),
            ", "@,
        ),
        left.len() > 0 ==> list_lines(kept, left)[2] == "Filtered:"@ && list_lines(kept, left)[3] == joined(
            left.map_values(|p: ProjectView| p.title + " ("@ + p.id + ", "@ + p.slug + ")"@),
            ", "@,
        ),
{
    assert(kept.map_values(|p: ProjectView| described(p)) =~= kept.map_values(
        |p: ProjectView| p.title + " ("@ + p.id + ", "@ + p.slug + ")"@,
    ));
    assert(left.map_values(|p: ProjectView| described(p)) =~= left.map_values(
        |p: ProjectView| p.title + " ("@ + p.id + ", "@ + p.slug + ")"@,
    ));
}

/// The descriptions of `ps`, in order.
fn describe_all(ps: &Vec<Project>) -> (r: Vec<String>)
    ensures
        r.deep_view() == ps@.map_values(|p: Project| described(p@)),
{
    let mut r: Vec<String> = Vec::new();
    for i in 0..ps.len()
        invariant
            r.deep_view() == ps@.take(i as int).map_values(|p: Project| described(p@)),
    {
        let ghost before = r.deep_view();
        r.push(describe_project(&ps[i]));
        assert(r.deep_view() =~= before.push(described(ps@[i as int]@)));
        assert(ps@.take(i + 1).map_values(|p: Project| described(p@)) =~= ps@.take(i as int).map_values(
            |p: Project| described(p@),
        ).push(described(ps@[i as int]@)));
    }
    assert(ps@.take(ps.len() as int) =~= ps@);
    r
}

/// The lines that `list` prints for the projects kept and those left out.
pub fn list_report(kept: &Vec<CsvProjectEntry>, left: &Vec<(Project, CsvEntry)>) -> (r: Vec<String>)
    ensures
        r.deep_view() == list_lines(
            kept@.map_values(|x: CsvProjectEntry| x.project@),
            left@.map_values(|x: (Project, CsvEntry)| x.0@),
        ),
        r@.len() >= 2,
        r@[1]@ == joined(kept@.map_values(|x: CsvProjectEntry| described(x.project@)), ", "@),
{
    let ghost kv = kept@.map_values(|x: CsvProjectEntry| x.project@);
    let ghost lv = left@.map_values(|x: (Project, CsvEntry)| x.0@);
    let mut kp: Vec<Project> = Vec::new();
    for i in 0..kept.len()
        invariant
            kp@.len() == i,
            forall|j: int| 0 <= j < i ==> (#[trigger] kp@[j])@ == kept@[j].project@,
    {
        kp.push(copy_project(&kept[i].project));
    }
    let mut lp: Vec<Project> = Vec::new();
    for i in 0..left.len()
        invariant
            lp@.len() == i,
            forall|j: int| 0 <= j < i ==> (#[trigger] lp@[j])@ == left@[j].0@,
    {
        lp.push(copy_project(&left[i].0));
    }
    let kd = describe_all(&kp);
    let ld = describe_all(&lp);
    assert(kd.deep_view() =~= kv.map_values(|p: ProjectView| described(p)));
    assert(ld.deep_view() =~= lv.map_values(|p: ProjectView| described(p)));
    let mut heading: Vec<char> = Vec::new();
    push_str(&mut heading, "List of mods (");
    push_all(&mut heading, &decimal_chars(kept.len() as u64));
    push_str(&mut heading, ", filtered ");
    push_all(&mut heading, &decimal_chars(left.len() as u64));
    push_str(&mut heading, "):");
    assert(heading@ =~= list_heading(kv.len(), lv.len()));
    let mut r: Vec<String> = Vec::new();
    r.push(string_of(&heading));
    r.push(join_strings(&kd, ", "));
    if left.len() > 0 {
        r.push(String::from_str("Filtered:"));
        r.push(join_strings(&ld, ", "));
    }
    assert(r.deep_view() =~= list_lines(kv, lv));
    assert(kv.map_values(|p: ProjectView| described(p)) =~= kept@.map_values(
        |x: CsvProjectEntry| described(x.project@),
    ));
    assert(r.deep_view()[1] == r@[1]@);
    r
}

// ---------------------------------------------------------------------------
// download and export-json
// ---------------------------------------------------------------------------

/// The file that `download` and `export-json` take for a project: the
/// first file of the version that `find_version` chooses.
pub fn chosen_file<'a>(project: &CsvProjectEntry, versions: &'a [ModVersion]) -> (r: Option<&'a VersionFile>)
    ensures
        match find_version_spec(project, versions@) {
            Some(i) => match r {
                Some(f) => versions@[i].files@.len() > 0 && *f == versions@[i].files@[0],
                None => versions@[i].files@.len() == 0,
            },
            None => r is None,
        },
{
    match find_version(project, versions) {
        Some(v) => {
            proof {
                lemma_version_for(versions@, project.csv_entry.version.deep_view(), *v);
            }
            if v.files.len() > 0 {
                Some(&v.files[0])
            } else {
                None
            }
        },
        None => {
            proof {
                lemma_version_for_none(versions@, project.csv_entry.version.deep_view());
            }
            None
        },
    }
}

/// The position of the version chosen for `want`: where a version is
/// wanted, the first listed whose number or id is it; otherwise the first
/// listed, the latest that Modrinth gives.
pub open spec fn version_for(versions: Seq<ModVersion>, want: Option<Seq<char>>) -> Option<int> {
    match want {
        Some(w) => if exists|i: int| 0 <= i < versions.len() && is_wanted(versions[i], w) {
            Some(
                choose|i: int|
                    0 <= i < versions.len() && is_wanted(versions[i], w) && forall|j: int|
                        0 <= j < i ==> !is_wanted(#[trigger] versions[j], w),
            )
        } else {
            None
        },
        None => if versions.len() > 0 {
            Some(0)
        } else {
            None
        },
    }
}

/// The position of the version that `find_version` chooses, or `None`.
pub open spec fn find_version_spec(project: &CsvProjectEntry, versions: Seq<ModVersion>) -> Option<int> {
    version_for(versions, project.csv_entry.version.deep_view())
}

proof fn lemma_version_for(versions: Seq<ModVersion>, want: Option<Seq<char>>, v: ModVersion)
    requires
        match want {
            Some(w) => exists|i: int|
                0 <= i < versions.len() && versions[i] == v && is_wanted(versions[i], w)
                    && forall|j: int| 0 <= j < i ==> !is_wanted(#[trigger] versions[j], w),
            None => versions.len() > 0 && v == versions[0],
        },
    ensures
        version_for(versions, want) matches Some(i) && 0 <= i < versions.len() && versions[i] == v,
{
    match want {
        Some(w) => {
            let i = choose|i: int|
                0 <= i < versions.len() && versions[i] == v && is_wanted(versions[i], w)
                    && forall|j: int| 0 <= j < i ==> !is_wanted(#[trigger] versions[j], w);
            let k = version_for(versions, want)->0;
            if k < i {
                assert(!is_wanted(versions[k], w));
            }
            if i < k {
                assert(!is_wanted(versions[i], w));
            }
        },
        None => {},
    }
}

proof fn lemma_version_for_none(versions: Seq<ModVersion>, want: Option<Seq<char>>)
    requires
        match want {
            Some(w) => forall|j: int| 0 <= j < versions.len() ==> !is_wanted(#[trigger] versions[j], w),
            None => versions.len() == 0,
        },
    ensures
        version_for(versions, want) is None,
{
}

/// The version chosen for a wanted text `w` is the first listed whose
/// version number is `w` or whose id is `w`, and there is none only where
/// no version has that number or id; with nothing wanted, it is the first
/// listed.
pub proof fn lemma_version_for_matches(versions: Seq<ModVersion>, want: Option<Seq<char>>)
    ensures
        want matches Some(w) ==> match version_for(versions, want) {
            Some(i) => 0 <= i < versions.len() && (versions[i].version_number@ == w || versions[i].id@ == w)
                && forall|j: int|
                0 <= j < i ==> (#[trigger] versions[j]).version_number@ != w && versions[j].id@ != w,
            None => forall|j: int|
                0 <= j < versions.len() ==> (#[trigger] versions[j]).version_number@ != w && versions[j].id@ != w,
        },
        want is None ==> version_for(versions, want) == (if versions.len() > 0 {
            Some(0int)
        } else {
            None
        }),
{
    if let Some(w) = want {
        if exists|i: int| 0 <= i < versions.len() && is_wanted(versions[i], w) {
            let m = first_wanted_from(versions, w, 0);
            assert(0 <= m < versions.len() && is_wanted(versions[m], w) && forall|j: int|
                0 <= j < m ==> !is_wanted(#[trigger] versions[j], w));
        }
    }
}

/// The first version from `start` on that is wanted, where one is and none
/// before `start` is.
proof fn first_wanted_from(versions: Seq<ModVersion>, w: Seq<char>, start: int) -> (m: int)
    requires
        0 <= start,
        exists|i: int| start <= i < versions.len() && is_wanted(versions[i], w),
        forall|j: int| 0 <= j < start ==> !is_wanted(#[trigger] versions[j], w),
    ensures
        start <= m < versions.len(),
        is_wanted(versions[m], w),
        forall|j: int| 0 <= j < m ==> !is_wanted(#[trigger] versions[j], w),
    decreases versions.len() - start,
{
    if is_wanted(versions[start], w) {
        start
    } else {
        assert forall|j: int| 0 <= j < start + 1 implies !is_wanted(#[trigger] versions[j], w) by {}
        first_wanted_from(versions, w, start + 1)
    }
}

/// The position of the version chosen for `want`.
pub fn pick_version(versions: &Vec<ModVersion>, want: &Option<String>) -> (r: Option<usize>)
    ensures
        match version_for(versions@, want.deep_view()) {
            Some(i) => 0 <= i < versions@.len() && (r matches Some(j) && j as int == i),
            None => r is None,
        },
        want.deep_view() matches Some(w) ==> match r {
            Some(i) => i < versions@.len() && (versions@[i as int].version_number@ == w
                || versions@[i as int].id@ == w),
            None => forall|j: int|
                0 <= j < versions@.len() ==> (#[trigger] versions@[j]).version_number@ != w
                    && versions@[j].id@ != w,
        },
{
    match want {
        Some(w) => {
            let mut i: usize = 0;
            while i < versions.len()
                invariant
                    i <= versions@.len(),
                    want.deep_view() == Some(w@),
                    forall|j: int| 0 <= j < i ==> !is_wanted(#[trigger] versions@[j], w@),
                decreases versions.len() - i,
            {
                if versions[i].version_number == *w || versions[i].id == *w {
                    proof {
                        lemma_version_for(versions@, want.deep_view(), versions@[i as int]);
                        let k = version_for(versions@, want.deep_view())->0;
                        if k < i {
                            assert(!is_wanted(versions@[k], w@));
                        }
                    }
                    return Some(i);
                }
                i = i + 1;
            }
            proof {
                lemma_version_for_none(versions@, want.deep_view());
            }
            None
        },
        None => {
            if versions.len() > 0 {
                Some(0)
            } else {
                None
            }
        },
    }
}

/// One file in the exported JSON list.
pub struct JsonEntry {
    pub name: String,
    pub size: i64,
    pub sha1: String,
    pub url: String,
}

/// The exported description of a file: its name, size, SHA-1 and URL.
pub fn json_entry(file: &VersionFile) -> (r: JsonEntry)
    ensures
        r.name@ == file.filename@,
        r.size == file.size,
        r.sha1@ == file.hashes.sha1@,
        r.url@ == file.url@,
{
    JsonEntry {
        name: file.filename.clone(),
        size: file.size,
        sha1: file.hashes.sha1.clone(),
        url: file.url.clone(),
    }
}

} // verus!
