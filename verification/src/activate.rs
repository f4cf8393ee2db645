//! The activation path: combine discovered version files, select the
//! installed candidate of every declared plugin, compose the target
//! environment, and turn it into the pending shell mutation, honouring the
//! bootstrap state carried in the reserved shell variables.

use crate::env::{
    empty_env, env_wf, path_text_of, spec_env_blob, spec_env_hash, spec_env_merge, spec_set_var,
    spec_vars_lookup, vars_text_of, Env, EnvError, EnvView,
};
use crate::shell::{
    empty_shell_state, spec_state_add_path, spec_state_apply, spec_state_revert, spec_state_set,
    spec_state_unset, ShellState, ShellStateView,
};
use crate::strutil::{spec_u64_dec, str_eq, u64_to_dec};
use crate::versions::{entries_has_key, vf_has_key, Version, VersionFileView, Versions, VersionView};
use vstd::prelude::*;

verus! {

/// A snapshot of the process environment, as name/value pairs in the
/// order the caller read them.
#[derive(Debug)]
pub struct ProcEnv {
    pub vars: Vec<(String, String)>,
}

impl View for ProcEnv {
    type V = Seq<(Seq<char>, Seq<char>)>;

    open spec fn view(&self) -> Seq<(Seq<char>, Seq<char>)> {
        crate::env::vars_view(self.vars@)
    }
}

impl ProcEnv {
    /// The first value bound to `key`, if any.
    pub fn var(&self, key: &str) -> (r: Option<String>)
        ensures
            match r {
                Some(v) => spec_vars_lookup(self@, key@) == Some(v@),
                None => spec_vars_lookup(self@, key@) is None,
            },
    {
        let ghost m = self@;
        let mut i: usize = 0;
        while i < self.vars.len()
            invariant
                m == self@,
                i <= self.vars.len(),
                forall|j: int| 0 <= j < i ==> (#[trigger] m[j]).0 != key@,
            decreases self.vars.len() - i,
        {
            if str_eq(self.vars[i].0.as_str(), key) {
                proof {
                    lemma_proc_lookup_at(m, key@, i as int);
                }
                return Some(self.vars[i].1.clone());
            }
            i = i + 1;
        }
        proof {
            lemma_proc_lookup_none(m, key@);
        }
        None
    }

    /// The names bound in the snapshot, in order.
    pub fn names(&self) -> (r: Vec<String>)
        ensures
            crate::env::paths_view(r@) == crate::shell::names_of(self@),
    {
        let mut r: Vec<String> = Vec::new();
        let mut i: usize = 0;
        proof {
            assert(crate::env::paths_view(r@) =~= crate::shell::names_of(self@).take(0));
        }
        while i < self.vars.len()
            invariant
                i <= self.vars.len(),
                crate::env::paths_view(r@) == crate::shell::names_of(self@).take(i as int),
            decreases self.vars.len() - i,
        {
            r.push(self.vars[i].0.clone());
            proof {
                assert(crate::shell::names_of(self@)[i as int] == self@[i as int].0);
                assert(crate::shell::names_of(self@).take(i + 1) =~= crate::shell::names_of(
                    self@,
                ).take(i as int).push(crate::shell::names_of(self@)[i as int]));
                assert(crate::env::paths_view(r@) =~= crate::shell::names_of(self@).take(i + 1));
            }
            i = i + 1;
        }
        proof {
            assert(crate::shell::names_of(self@).take(self.vars@.len() as int)
                =~= crate::shell::names_of(self@));
        }
        r
    }
}

proof fn lemma_proc_lookup_at(m: Seq<(Seq<char>, Seq<char>)>, k: Seq<char>, i: int)
    requires
        0 <= i < m.len(),
        m[i].0 == k,
        forall|j: int| 0 <= j < i ==> (#[trigger] m[j]).0 != k,
    ensures
        spec_vars_lookup(m, k) == Some(m[i].1),
    decreases m.len(),
{
    if i > 0 {
        assert(forall|j: int|
            0 <= j < m.drop_first().len() ==> (#[trigger] m.drop_first()[j]) == m[j + 1]);
        lemma_proc_lookup_at(m.drop_first(), k, i - 1);
    }
}

proof fn lemma_proc_lookup_none(m: Seq<(Seq<char>, Seq<char>)>, k: Seq<char>)
    requires
        forall|j: int| 0 <= j < m.len() ==> (#[trigger] m[j]).0 != k,
    ensures
        spec_vars_lookup(m, k) is None,
    decreases m.len(),
{
    if m.len() > 0 {
        assert(forall|j: int|
            0 <= j < m.drop_first().len() ==> (#[trigger] m.drop_first()[j]) == m[j + 1]);
        lemma_proc_lookup_none(m.drop_first(), k);
    }
}

// ---------------------------------------------------------------------------
// Version-file aggregation and candidate selection
// ---------------------------------------------------------------------------

/// The installed versions per plugin, as directory listings.
#[derive(Debug)]
pub struct InstallSet {
    pub plugins: Vec<(String, Vec<String>)>,
}

pub open spec fn install_set_view(s: Seq<(String, Vec<String>)>) -> Seq<(Seq<char>, Seq<Seq<char>>)> {
    s.map_values(|e: (String, Vec<String>)| (e.0@, crate::env::paths_view(e.1@)))
}

impl View for InstallSet {
    type V = Seq<(Seq<char>, Seq<Seq<char>>)>;

    open spec fn view(&self) -> Seq<(Seq<char>, Seq<Seq<char>>)> {
        install_set_view(self.plugins@)
    }
}

/// The listing recorded for a plugin; empty when the plugin is unknown.
pub open spec fn spec_listing(m: Seq<(Seq<char>, Seq<Seq<char>>)>, plugin: Seq<char>) -> Seq<
    Seq<char>,
>
    decreases m.len(),
{
    if m.len() == 0 {
        Seq::empty()
    } else if m[0].0 == plugin {
        m[0].1
    } else {
        spec_listing(m.drop_first(), plugin)
    }
}

pub open spec fn spec_is_installed(
    m: Seq<(Seq<char>, Seq<Seq<char>>)>,
    plugin: Seq<char>,
    version_str: Seq<char>,
) -> bool {
    spec_listing(m, plugin).contains(version_str)
}

impl InstallSet {
    /// Is this version's directory present under the plugin?
    pub fn installed(&self, plugin: &str, version: &Version) -> (r: bool)
        ensures
            r == spec_is_installed(
                self@,
                plugin@,
                crate::versions::spec_version_str(version@),
            ),
    {
        let ghost m = self@;
        let mut i: usize = 0;
        while i < self.plugins.len()
            invariant
                m == self@,
                i <= self.plugins.len(),
                forall|j: int| 0 <= j < i ==> (#[trigger] m[j]).0 != plugin@,
            decreases self.plugins.len() - i,
        {
            if str_eq(self.plugins[i].0.as_str(), plugin) {
                proof {
                    lemma_listing_at(m, plugin@, i as int);
                }
                return crate::shell::contains_string(&self.plugins[i].1, version.version_str());
            }
            i = i + 1;
        }
        proof {
            lemma_listing_none(m, plugin@);
            if spec_listing(m, plugin@).contains(crate::versions::spec_version_str(version@)) {
                let w = choose|w: int|
                    0 <= w < spec_listing(m, plugin@).len() && spec_listing(m, plugin@)[w]
                        == crate::versions::spec_version_str(version@);
            }
        }
        false
    }
}

proof fn lemma_listing_at(m: Seq<(Seq<char>, Seq<Seq<char>>)>, p: Seq<char>, i: int)
    requires
        0 <= i < m.len(),
        m[i].0 == p,
        forall|j: int| 0 <= j < i ==> (#[trigger] m[j]).0 != p,
    ensures
        spec_listing(m, p) == m[i].1,
    decreases m.len(),
{
    if i > 0 {
        assert(forall|j: int|
            0 <= j < m.drop_first().len() ==> (#[trigger] m.drop_first()[j]) == m[j + 1]);
        lemma_listing_at(m.drop_first(), p, i - 1);
    }
}

proof fn lemma_listing_none(m: Seq<(Seq<char>, Seq<Seq<char>>)>, p: Seq<char>)
    requires
        forall|j: int| 0 <= j < m.len() ==> (#[trigger] m[j]).0 != p,
    ensures
        spec_listing(m, p) == Seq::<Seq<char>>::empty(),
    decreases m.len(),
{
    if m.len() > 0 {
        assert(forall|j: int|
            0 <= j < m.drop_first().len() ==> (#[trigger] m.drop_first()[j]) == m[j + 1]);
        lemma_listing_none(m.drop_first(), p);
    }
}

/// Fold one version file into the aggregate: entries whose plugin is
/// already declared nearer the working directory are discarded whole.
pub open spec fn spec_add_file(acc: VersionFileView, f: VersionFileView) -> VersionFileView
    decreases f.len(),
{
    if f.len() == 0 {
        acc
    } else {
        spec_add_file(
            if vf_has_key(acc, f[0].0) {
                acc
            } else {
                acc.push(f[0])
            },
            f.drop_first(),
        )
    }
}

/// Merge version files discovered nearest-first: the nearest declaration
/// of a plugin wins and farther ones are discarded in full.
pub open spec fn spec_combine(files: Seq<VersionFileView>, acc: VersionFileView) -> VersionFileView
    decreases files.len(),
{
    if files.len() == 0 {
        acc
    } else {
        spec_combine(files.drop_first(), spec_add_file(acc, files[0]))
    }
}

impl Version {
    /// A structural copy with a known model.
    pub fn duplicate(&self) -> (r: Version)
        ensures
            r@ == self@,
    {
        match self {
            Version::Version(s) => Version::Version(s.clone()),
            Version::Ref(s) => Version::Ref(s.clone()),
            Version::Path(s) => Version::Path(s.clone()),
            Version::System => Version::System,
        }
    }
}

pub fn duplicate_versions(vs: &Vec<Version>) -> (r: Vec<Version>)
    ensures
        crate::versions::vlist_view(r@) == crate::versions::vlist_view(vs@),
{
    let mut r: Vec<Version> = Vec::new();
    let mut i: usize = 0;
    while i < vs.len()
        invariant
            i <= vs.len(),
            r@.len() == i,
            forall|j: int| 0 <= j < i ==> (#[trigger] r@[j])@ == vs@[j]@,
        decreases vs.len() - i,
    {
        r.push(vs[i].duplicate());
        i = i + 1;
    }
    proof {
        assert(crate::versions::vlist_view(r@) =~= crate::versions::vlist_view(vs@));
    }
    r
}

/// Merge the version files discovered on the upward walk, nearest first.
pub fn combine_versions(files: &Vec<Versions>) -> (r: Versions)
    ensures
        r@ == spec_combine(files@.map_values(|f: Versions| f@), Seq::empty()),
{
    let ghost fv = files@.map_values(|f: Versions| f@);
    let mut acc = Versions::new();
    let mut i: usize = 0;
    proof {
        assert(fv.skip(0) =~= fv);
    }
    while i < files.len()
        invariant
            fv == files@.map_values(|f: Versions| f@),
            i <= files.len(),
            spec_combine(fv, Seq::empty()) == spec_combine(fv.skip(i as int), acc@),
        decreases files.len() - i,
    {
        let ghost facc0 = acc@;
        let ghost cur = fv[i as int];
        let mut k: usize = 0;
        proof {
            assert(fv.skip(i as int)[0] == cur);
            assert(fv.skip(i as int).drop_first() =~= fv.skip(i + 1));
            assert(cur.skip(0) =~= cur);
        }
        while k < files[i].entries.len()
            invariant
                i < files@.len(),
                fv == files@.map_values(|f: Versions| f@),
                cur == fv[i as int],
                k <= files@[i as int].entries@.len(),
                cur.len() == files@[i as int].entries@.len(),
                forall|j: int|
                    0 <= j < cur.len() ==> cur[j] == crate::versions::entries_view(
                        files@[i as int].entries@,
                    )[j],
                spec_add_file(facc0, cur) == spec_add_file(acc@, cur.skip(k as int)),
            decreases files[i as int].entries@.len() - k,
        {
            let name = files[i].entries[k].0.clone();
            let vlist = duplicate_versions(&files[i].entries[k].1);
            proof {
                assert(cur.skip(k as int)[0] == cur[k as int]);
                assert(cur.skip(k as int).drop_first() =~= cur.skip(k + 1));
                assert(cur[k as int] == (name@, crate::versions::vlist_view(vlist@)));
            }
            let ghost before = acc@;
            if !entries_has_key(&acc.entries, name.as_str()) {
                acc.entries.push((name, vlist));
                proof {
                    assert(acc@ =~= before.push(cur[k as int]));
                }
            }
            proof {
                assert(spec_add_file(before, cur.skip(k as int)) == spec_add_file(
                    acc@,
                    cur.skip(k + 1),
                ));
            }
            k = k + 1;
        }
        proof {
            assert(cur.skip(cur.len() as int) =~= Seq::<(Seq<char>, Seq<VersionView>)>::empty());
            assert(spec_add_file(acc@, cur.skip(cur.len() as int)) == acc@);
        }
        i = i + 1;
    }
    proof {
        assert(fv.skip(files@.len() as int) =~= Seq::<VersionFileView>::empty());
    }
    acc
}

/// The first declared candidate whose install directory exists.
pub open spec fn spec_first_installed(
    cands: Seq<VersionView>,
    inst: Seq<(Seq<char>, Seq<Seq<char>>)>,
    plugin: Seq<char>,
) -> Option<VersionView>
    decreases cands.len(),
{
    if cands.len() == 0 {
        None
    } else if spec_is_installed(inst, plugin, crate::versions::spec_version_str(cands[0])) {
        Some(cands[0])
    } else {
        spec_first_installed(cands.drop_first(), inst, plugin)
    }
}

/// The activation plan: each declared plugin with its first installed
/// candidate; plugins with no installed candidate are silently skipped.
pub open spec fn spec_plan(
    m: VersionFileView,
    inst: Seq<(Seq<char>, Seq<Seq<char>>)>,
) -> Seq<(Seq<char>, VersionView)>
    decreases m.len(),
{
    if m.len() == 0 {
        Seq::empty()
    } else {
        let rest = spec_plan(m.drop_first(), inst);
        match spec_first_installed(m[0].1, inst, m[0].0) {
            Some(v) => seq![(m[0].0, v)] + rest,
            None => rest,
        }
    }
}

/// Select the version to activate for each declared plugin.
#[verifier::loop_isolation(false)]
pub fn plan_activation(versions: &Versions, installs: &InstallSet) -> (r: Vec<(String, Version)>)
    ensures
        r@.map_values(|e: (String, Version)| (e.0@, e.1@)) == spec_plan(versions@, installs@),
{
    let ghost m = versions@;
    let ghost inst = installs@;
    let mut r: Vec<(String, Version)> = Vec::new();
    let mut i: usize = 0;
    proof {
        assert(m.skip(0) =~= m);
        assert(r@.map_values(|e: (String, Version)| (e.0@, e.1@)) + spec_plan(m.skip(0), inst)
            =~= spec_plan(m, inst));
    }
    while i < versions.entries.len()
        invariant
            i <= versions.entries.len(),
            spec_plan(m, inst) == r@.map_values(|e: (String, Version)| (e.0@, e.1@)) + spec_plan(
                m.skip(i as int),
                inst,
            ),
        decreases versions.entries.len() - i,
    {
        proof {
            assert(m.skip(i as int)[0] == m[i as int]);
            assert(m.skip(i as int).drop_first() =~= m.skip(i + 1));
        }
        let cands = &versions.entries[i].1;
        let name = &versions.entries[i].0;
        let ghost cv = m[i as int].1;
        let mut c: usize = 0;
        let mut found: Option<Version> = None;
        proof {
            assert(cv.skip(0) =~= cv);
        }
        while c < cands.len()
            invariant
                c <= cands.len(),
                cv == m[i as int].1,
                i < versions.entries@.len(),
                cands == &versions.entries@[i as int].1,
                name == &versions.entries@[i as int].0,
                m[i as int].0 == name@,
                cv.len() == cands@.len(),
                forall|j: int| 0 <= j < cv.len() ==> cv[j] == (#[trigger] cands@[j])@,
                found is None,
                spec_first_installed(cv, inst, m[i as int].0) == spec_first_installed(
                    cv.skip(c as int),
                    inst,
                    m[i as int].0,
                ),
            decreases cands.len() - c,
        {
            proof {
                assert(cv.skip(c as int)[0] == cv[c as int]);
                assert(cv.skip(c as int).drop_first() =~= cv.skip(c + 1));
            }
            if installs.installed(name.as_str(), &cands[c]) {
                found = Some(cands[c].duplicate());
                break ;
            }
            c = c + 1;
        }
        proof {
            if found is None {
                assert(cv.skip(cands@.len() as int) =~= Seq::<VersionView>::empty());
            }
        }
        match found {
            Some(v) => {
                let ghost r0 = r@.map_values(|e: (String, Version)| (e.0@, e.1@));
                r.push((name.clone(), v));
                proof {
                    assert(r@.map_values(|e: (String, Version)| (e.0@, e.1@)) =~= r0.push(
                        (m[i as int].0, spec_first_installed(cv, inst, m[i as int].0)->Some_0),
                    ));
                    assert(r0 + spec_plan(m.skip(i as int), inst) =~= r@.map_values(
                        |e: (String, Version)| (e.0@, e.1@),
                    ) + spec_plan(m.skip(i + 1), inst));
                }
            },
            None => {
                proof {
                    assert(spec_plan(m.skip(i as int), inst) == spec_plan(m.skip(i + 1), inst));
                }
            },
        }
        i = i + 1;
    }
    proof {
        assert(m.skip(versions.entries@.len() as int) =~= Seq::<(Seq<char>, Seq<VersionView>)>::empty());
        assert(r@.map_values(|e: (String, Version)| (e.0@, e.1@)) + spec_plan(
            m.skip(versions.entries@.len() as int),
            inst,
        ) =~= r@.map_values(|e: (String, Version)| (e.0@, e.1@)));
    }
    r
}

/// The version in use for one plugin, if any.
pub fn find_current_version(versions: &Versions, name: &str, installs: &InstallSet) -> (r: Option<
    Version,
>)
    ensures
        match r {
            Some(v) => ({
                crate::versions::vf_lookup(versions@, name@) matches Some(cands)
                    && spec_first_installed(cands, installs@, name@) == Some(v@)
            }),
            None => ({
                ||| crate::versions::vf_lookup(versions@, name@) is None
                ||| (crate::versions::vf_lookup(versions@, name@) matches Some(cands)
                    && spec_first_installed(cands, installs@, name@) is None)
            }),
        },
{
    let cands = match versions.get(name) {
        Some(c) => c,
        None => {
            return None;
        },
    };
    let ghost cv = crate::versions::vlist_view(cands@);
    let mut c: usize = 0;
    proof {
        assert(cv.skip(0) =~= cv);
    }
    while c < cands.len()
        invariant
            c <= cands.len(),
            cv == crate::versions::vlist_view(cands@),
            crate::versions::vf_lookup(versions@, name@) == Some(cv),
            spec_first_installed(cv, installs@, name@) == spec_first_installed(
                cv.skip(c as int),
                installs@,
                name@,
            ),
        decreases cands.len() - c,
    {
        proof {
            assert(cv.skip(c as int)[0] == cv[c as int]);
            assert(cv.skip(c as int).drop_first() =~= cv.skip(c + 1));
        }
        if installs.installed(name, &cands[c]) {
            return Some(cands[c].duplicate());
        }
        c = c + 1;
    }
    proof {
        assert(cv.skip(cands@.len() as int) =~= Seq::<VersionView>::empty());
    }
    None
}

/// Compose per-plugin environments in plan order into the target
/// environment; `None` when nothing contributed anything.
pub open spec fn spec_compose(envs: Seq<EnvView>, acc: EnvView) -> EnvView
    decreases envs.len(),
{
    if envs.len() == 0 {
        acc
    } else {
        spec_compose(envs.drop_first(), spec_env_merge(acc, envs[0]))
    }
}

/// A structural copy of an environment with a known model.
pub fn duplicate_env(e: &Env) -> (r: Env)
    ensures
        r@ == e@,
{
    let mut path: Vec<String> = Vec::new();
    let mut i: usize = 0;
    while i < e.path.len()
        invariant
            i <= e.path.len(),
            path@.len() == i,
            forall|j: int| 0 <= j < i ==> (#[trigger] path@[j])@ == e.path@[j]@,
        decreases e.path.len() - i,
    {
        path.push(e.path[i].clone());
        i = i + 1;
    }
    let mut vars: Vec<(String, String)> = Vec::new();
    let mut k: usize = 0;
    while k < e.vars.len()
        invariant
            k <= e.vars.len(),
            vars@.len() == k,
            forall|j: int|
                0 <= j < k ==> (#[trigger] vars@[j]).0@ == e.vars@[j].0@ && vars@[j].1@
                    == e.vars@[j].1@,
        decreases e.vars.len() - k,
    {
        vars.push((e.vars[k].0.clone(), e.vars[k].1.clone()));
        k = k + 1;
    }
    let r = Env { path, vars };
    proof {
        assert(r@.path =~= e@.path);
        assert(r@.vars =~= e@.vars);
        assert(r@ =~~= e@);
    }
    r
}

pub fn compose_env(envs: &Vec<Env>) -> (r: Option<Env>)
    ensures
        ({
            let composed = spec_compose(envs@.map_values(|e: Env| e@), empty_env());
            match r {
                Some(e) => e@ == composed && (composed.vars.len() > 0 || composed.path.len() > 0)
                    && env_wf(e@),
                None => composed.vars.len() == 0 && composed.path.len() == 0,
            }
        }),
{
    let ghost evs = envs@.map_values(|e: Env| e@);
    let mut acc = Env::new();
    let n = envs.len();
    let mut i: usize = 0;
    proof {
        assert(evs.skip(0) =~= evs);
    }
    while i < n
        invariant
            n == envs.len(),
            i <= n,
            evs == envs@.map_values(|e: Env| e@),
            spec_compose(evs, empty_env()) == spec_compose(evs.skip(i as int), acc@),
            env_wf(acc@),
        decreases n - i,
    {
        proof {
            assert(evs.skip(i as int)[0] == evs[i as int]);
            assert(evs.skip(i as int).drop_first() =~= evs.skip(i + 1));
        }
        let ghost before = acc@;
        let e = duplicate_env(&envs[i]);
        let ghost eview = e@;
        acc.merge(e);
        proof {
            crate::env::lemma_merge_wf(before, eview);
        }
        i = i + 1;
    }
    proof {
        assert(evs.skip(n as int) =~= Seq::<EnvView>::empty());
    }
    if acc.vars.len() == 0 && acc.path.len() == 0 {
        proof {
            assert(acc@.vars.len() == 0 && acc@.path.len() == 0);
        }
        None
    } else {
        Some(acc)
    }
}

// ---------------------------------------------------------------------------
// The apply/revert engine
// ---------------------------------------------------------------------------

/// Queue a set for every variable, in order.
pub open spec fn spec_sets_fold(st: ShellStateView, vars: Seq<(Seq<char>, Seq<char>)>) -> ShellStateView
    decreases vars.len(),
{
    if vars.len() == 0 {
        st
    } else {
        spec_sets_fold(spec_state_set(st, vars[0].0, vars[0].1), vars.drop_first())
    }
}

/// Queue an added PATH entry for every entry, in order.
pub open spec fn spec_adds_fold(st: ShellStateView, paths: Seq<Seq<char>>) -> ShellStateView
    decreases paths.len(),
{
    if paths.len() == 0 {
        st
    } else {
        spec_adds_fold(spec_state_add_path(st, paths[0]), paths.drop_first())
    }
}

/// The variables whose current process value differs from what is about
/// to be set, with that prior value, collected for the PREV blob.
pub open spec fn spec_stored_from(
    acc: Seq<(Seq<char>, Seq<char>)>,
    vars: Seq<(Seq<char>, Seq<char>)>,
    penv: Seq<(Seq<char>, Seq<char>)>,
) -> Seq<(Seq<char>, Seq<char>)>
    decreases vars.len(),
{
    if vars.len() == 0 {
        acc
    } else {
        let acc2 = match spec_vars_lookup(penv, vars[0].0) {
            Some(w) => if w != vars[0].1 {
                spec_set_var(acc, vars[0].0, w)
            } else {
                acc
            },
            None => acc,
        };
        spec_stored_from(acc2, vars.drop_first(), penv)
    }
}

/// The full application of a resolved environment on top of the revert:
/// set every variable, record the bootstrap state, then add the PATH
/// entries.
pub open spec fn spec_apply_target(
    te: EnvView,
    penv: Seq<(Seq<char>, Seq<char>)>,
    st0: ShellStateView,
) -> ShellStateView {
    let st1 = spec_sets_fold(st0, te.vars);
    let st2 = spec_state_set(st1, "QWER_STATE"@, spec_u64_dec(spec_env_hash(te) as nat));
    let st3 = spec_state_set(st2, "QWER_CURRENT"@, spec_env_blob(te));
    let stored = spec_stored_from(Seq::empty(), te.vars, penv);
    let st4 = if stored.len() == 0 {
        spec_state_unset(st3, "QWER_PREV"@)
    } else {
        spec_state_set(
            st3,
            "QWER_PREV"@,
            spec_env_blob(EnvView { path: Seq::empty(), vars: stored }),
        )
    };
    spec_adds_fold(st4, te.path)
}

/// Unset the three bootstrap variables.
pub open spec fn spec_clear_state(st: ShellStateView) -> ShellStateView {
    spec_state_unset(
        spec_state_unset(spec_state_unset(st, "QWER_STATE"@), "QWER_PREV"@),
        "QWER_CURRENT"@,
    )
}

/// The revert queued from the decoded bootstrap blobs: undo the applied
/// environment, then restore the overwritten values.
pub open spec fn spec_revert_state(mc: Option<EnvView>, mp: Option<EnvView>) -> ShellStateView {
    match mc {
        None => empty_shell_state(),
        Some(mcv) => {
            let s1 = spec_state_revert(empty_shell_state(), mcv);
            match mp {
                Some(mpv) => spec_state_apply(s1, mpv),
                None => s1,
            }
        },
    }
}

/// The hypothesis that a reserved variable carries the blob of a
/// well-formed environment (or is absent).
pub open spec fn blob_hyp(
    penv: Seq<(Seq<char>, Seq<char>)>,
    key: Seq<char>,
    m: Option<EnvView>,
) -> bool {
    match m {
        None => spec_vars_lookup(penv, key) is None,
        Some(mv) => env_wf(mv) && spec_vars_lookup(penv, key) == Some(spec_env_blob(mv)),
    }
}

/// Queue the revert of the previously applied environment, as carried in
/// the bootstrap variables: revert the decoded CURRENT blob, then restore
/// the decoded PREV blob.
#[verifier::loop_isolation(false)]
fn revert_current(st: &mut ShellState, penv: &ProcEnv)
    ensures
        spec_vars_lookup(penv@, "QWER_CURRENT"@) is None ==> final(st)@ == old(st)@,
        forall|mc: Option<EnvView>, mp: Option<EnvView>|
            blob_hyp(penv@, "QWER_CURRENT"@, mc) && blob_hyp(penv@, "QWER_PREV"@, mp) && mc
                is Some ==> final(st)@ == (match mc {
                None => old(st)@,
                Some(mcv) => {
                    let s1 = spec_state_revert(old(st)@, mcv);
                    match mp {
                        Some(mpv) => spec_state_apply(s1, mpv),
                        None => s1,
                    }
                },
            }),
{
    let blob = match penv.var("QWER_CURRENT") {
        None => {
            return ;
        },
        Some(b) => b,
    };
    let cur = match Env::deserialize(blob.as_str()) {
        Ok(c) => c,
        Err(_) => Env::new(),
    };
    st.revert(&cur);
    match penv.var("QWER_PREV") {
        Some(pblob) => {
            match Env::deserialize(pblob.as_str()) {
                Ok(prev) => {
                    st.apply(&prev);
                },
                Err(_) => {},
            }
        },
        None => {},
    }
}

/// Compute the pending shell mutation for one prompt: when the resolved
/// environment is already applied (its hash matches the STATE variable)
/// nothing is queued; otherwise the previous state is reverted and the new
/// environment applied with fresh bootstrap bookkeeping; with no resolved
/// environment the revert is the entire action and the bookkeeping is
/// cleared.
#[verifier::loop_isolation(false)]
pub fn update_env(target: Option<&Env>, penv: &ProcEnv) -> (r: Result<ShellState, EnvError>)
    ensures
        target is None ==> r is Ok,
        ({
            // Success is owed whenever the three serialized texts stay
            // inside the compressor's comfortable input range.
            match target {
                Some(te) => (vstd::utf8::encode_utf8(vars_text_of(te@.vars)).len() <= 0x60000000
                    && vstd::utf8::encode_utf8(path_text_of(te@.path)).len() <= 0x60000000
                    && vstd::utf8::encode_utf8(
                    vars_text_of(spec_stored_from(Seq::empty(), te@.vars, penv@)),
                ).len() <= 0x60000000) ==> r is Ok,
                None => true,
            }
        }),
        (target matches Some(te) && spec_vars_lookup(penv@, "QWER_STATE"@) == Some(
            spec_u64_dec(spec_env_hash(te@) as nat),
        )) ==> (r matches Ok(st) && st@ == empty_shell_state()),
        ({
            match (&r, target) {
                (Ok(st), Some(te)) => spec_vars_lookup(penv@, "QWER_STATE"@) != Some(
                    spec_u64_dec(spec_env_hash(te@) as nat),
                ) ==> (forall|mc: Option<EnvView>, mp: Option<EnvView>|
                    (blob_hyp(penv@, "QWER_CURRENT"@, mc) && blob_hyp(
                        penv@,
                        "QWER_PREV"@,
                        mp,
                    )) ==> st@ == spec_apply_target(te@, penv@, spec_revert_state(mc, mp))),
                _ => true,
            }
        }),
        ({
            match (&r, target) {
                (Ok(st), None) => forall|mc: Option<EnvView>, mp: Option<EnvView>|
                    (blob_hyp(penv@, "QWER_CURRENT"@, mc) && blob_hyp(
                        penv@,
                        "QWER_PREV"@,
                        mp,
                    )) ==> st@ == spec_clear_state(spec_revert_state(mc, mp)),
                _ => true,
            }
        }),
{
    match target {
        Some(te) => {
            let h = te.hash();
            let hs = u64_to_dec(h);
            match penv.var("QWER_STATE") {
                Some(s) => {
                    if str_eq(s.as_str(), hs.as_str()) {
                        return Ok(ShellState::new());
                    }
                },
                None => {},
            }
            let mut st = ShellState::new();
            revert_current(&mut st, penv);
            let ghost st0 = st@;
            let ghost tev = te@;
            let mut stored = Env::new();
            let mut i: usize = 0;
            proof {
                assert(tev.vars.skip(0) =~= tev.vars);
            }
            while i < te.vars.len()
                invariant
                    i <= te.vars.len(),
                    tev == te@,
                    spec_sets_fold(st0, tev.vars) == spec_sets_fold(
                        st@,
                        tev.vars.skip(i as int),
                    ),
                    stored@.path.len() == 0,
                    spec_stored_from(Seq::empty(), tev.vars, penv@) == spec_stored_from(
                        stored@.vars,
                        tev.vars.skip(i as int),
                        penv@,
                    ),
                decreases te.vars.len() - i,
            {
                proof {
                    assert(tev.vars.skip(i as int)[0] == tev.vars[i as int]);
                    assert(tev.vars.skip(i as int).drop_first() =~= tev.vars.skip(i + 1));
                }
                let key = &te.vars[i].0;
                let val = &te.vars[i].1;
                st.set(key.as_str(), val.as_str());
                match penv.var(key.as_str()) {
                    Some(w) => {
                        if !str_eq(w.as_str(), val.as_str()) {
                            stored.set_var(key.clone(), w);
                        }
                    },
                    None => {},
                }
                i = i + 1;
            }
            proof {
                assert(tev.vars.skip(te.vars@.len() as int) =~= Seq::<(Seq<char>, Seq<char>)>::empty());
            }
            st.set("QWER_STATE", hs.as_str());
            let cur_blob = match te.serialize() {
                Ok(b) => b,
                Err(e) => {
                    return Err(e);
                },
            };
            st.set("QWER_CURRENT", cur_blob.as_str());
            if stored.vars.len() > 0 {
                let pb = match stored.serialize() {
                    Ok(b) => b,
                    Err(e) => {
                        proof {
                            assert(stored@.path =~= Seq::<Seq<char>>::empty());
                            assert(path_text_of(stored@.path) == Seq::<char>::empty());
                            assert(vstd::utf8::encode_utf8(Seq::<char>::empty()) =~= Seq::<
                                u8,
                            >::empty());
                        }
                        return Err(e);
                    },
                };
                st.set("QWER_PREV", pb.as_str());
                proof {
                    assert(stored@ =~~= (EnvView {
                        path: Seq::empty(),
                        vars: spec_stored_from(Seq::empty(), tev.vars, penv@),
                    }));
                }
            } else {
                st.unset("QWER_PREV");
            }
            let ghost st4 = st@;
            let mut q: usize = 0;
            proof {
                assert(tev.path.skip(0) =~= tev.path);
            }
            while q < te.path.len()
                invariant
                    q <= te.path.len(),
                    tev == te@,
                    spec_adds_fold(st4, tev.path) == spec_adds_fold(
                        st@,
                        tev.path.skip(q as int),
                    ),
                decreases te.path.len() - q,
            {
                proof {
                    assert(tev.path.skip(q as int)[0] == tev.path[q as int]);
                    assert(tev.path.skip(q as int).drop_first() =~= tev.path.skip(q + 1));
                }
                st.add_path(te.path[q].as_str());
                q = q + 1;
            }
            proof {
                assert(tev.path.skip(te.path@.len() as int) =~= Seq::<Seq<char>>::empty());
            }
            Ok(st)
        },
        None => {
            let mut st = ShellState::new();
            revert_current(&mut st, penv);
            st.unset("QWER_STATE");
            st.unset("QWER_PREV");
            st.unset("QWER_CURRENT");
            Ok(st)
        },
    }
}

} // verus!
