//! Top-level operation planning: aggregate installs, single installs and
//! uninstalls, plugin registration, and version-file pinning.  Every
//! function here decides; the outside work (running the planned scripts,
//! removing directories, cloning repositories) happens in the caller.

use crate::activate::{spec_is_installed, InstallSet};
use crate::scripts::{
    spec_download_plan, spec_install_plan, spec_path_join, spec_uninstall_plan, PluginScriptError,
    PluginScriptErrorView, PluginScripts, ScriptRequest, ScriptRequestView,
};
use crate::strutil::{
    chars_of, lex_lt, lex_lt_str, spec_split, spec_trim, split_windows, str_eq, string_from_range,
    trim_range, windows_view,
};
use crate::versions::{
    spec_render_version, spec_upsert, spec_version_str, vlist_view, Version, VersionFileView,
    Versions, VersionView,
};
use vstd::prelude::*;

verus! {

// ---------------------------------------------------------------------------
// Aggregate install planning
// ---------------------------------------------------------------------------

pub open spec fn plan_has_name(acc: Seq<(Seq<char>, VersionView)>, k: Seq<char>) -> bool {
    exists|i: int| 0 <= i < acc.len() && (#[trigger] acc[i]).0 == k
}

/// Gather one version file into the aggregate install plan: the first
/// declaration of a plugin wins, and a first candidate of `system` leaves
/// the plugin out.
pub open spec fn spec_gather_file(
    acc: Seq<(Seq<char>, VersionView)>,
    f: VersionFileView,
) -> Seq<(Seq<char>, VersionView)>
    decreases f.len(),
{
    if f.len() == 0 {
        acc
    } else {
        let e = f[0];
        let acc2 = if plan_has_name(acc, e.0) {
            acc
        } else if e.1.len() == 0 {
            acc
        } else if e.1[0] is System {
            acc
        } else {
            acc.push((e.0, e.1[0]))
        };
        spec_gather_file(acc2, f.drop_first())
    }
}

pub open spec fn spec_gather(
    files: Seq<VersionFileView>,
    acc: Seq<(Seq<char>, VersionView)>,
) -> Seq<(Seq<char>, VersionView)>
    decreases files.len(),
{
    if files.len() == 0 {
        acc
    } else {
        spec_gather(files.drop_first(), spec_gather_file(acc, files[0]))
    }
}

/// Insert into a name-sorted plan, keeping the order stable.
pub open spec fn spec_plan_insert(
    e: (Seq<char>, VersionView),
    s: Seq<(Seq<char>, VersionView)>,
) -> Seq<(Seq<char>, VersionView)>
    decreases s.len(),
{
    if s.len() == 0 {
        seq![e]
    } else if lex_lt(e.0, s[0].0) {
        seq![e] + s
    } else {
        seq![s[0]] + spec_plan_insert(e, s.drop_first())
    }
}

pub open spec fn spec_plan_sort(
    s: Seq<(Seq<char>, VersionView)>,
    acc: Seq<(Seq<char>, VersionView)>,
) -> Seq<(Seq<char>, VersionView)>
    decreases s.len(),
{
    if s.len() == 0 {
        acc
    } else {
        spec_plan_sort(s.drop_first(), spec_plan_insert(s[0], acc))
    }
}

/// Drop the pairs whose version is already installed.
pub open spec fn spec_plan_filter(
    s: Seq<(Seq<char>, VersionView)>,
    inst: Seq<(Seq<char>, Seq<Seq<char>>)>,
) -> Seq<(Seq<char>, VersionView)>
    decreases s.len(),
{
    if s.len() == 0 {
        s
    } else {
        let rest = spec_plan_filter(s.drop_first(), inst);
        if spec_is_installed(inst, s[0].0, spec_version_str(s[0].1)) {
            rest
        } else {
            seq![s[0]] + rest
        }
    }
}

/// The aggregate install plan: gather the declarations nearest-first,
/// sort by plugin name, and skip what is already installed.
pub open spec fn spec_install_all(
    files: Seq<VersionFileView>,
    inst: Seq<(Seq<char>, Seq<Seq<char>>)>,
) -> Seq<(Seq<char>, VersionView)> {
    spec_plan_filter(spec_plan_sort(spec_gather(files, Seq::empty()), Seq::empty()), inst)
}

pub open spec fn pairs_view(r: Seq<(String, Version)>) -> Seq<(Seq<char>, VersionView)> {
    r.map_values(|e: (String, Version)| (e.0@, e.1@))
}

proof fn lemma_plan_insert_split(
    e: (Seq<char>, VersionView),
    s: Seq<(Seq<char>, VersionView)>,
    i: int,
)
    requires
        0 <= i <= s.len(),
        forall|j: int| 0 <= j < i ==> !lex_lt(e.0, (#[trigger] s[j]).0),
        i < s.len() ==> lex_lt(e.0, s[i].0),
    ensures
        spec_plan_insert(e, s) == s.insert(i, e),
    decreases s.len(),
{
    if i == 0 {
        if s.len() == 0 {
            assert(seq![e] =~= s.insert(0, e));
        } else {
            assert(seq![e] + s =~= s.insert(0, e));
        }
    } else {
        assert(!lex_lt(e.0, s[0].0));
        assert(forall|j: int|
            0 <= j < s.drop_first().len() ==> (#[trigger] s.drop_first()[j]) == s[j + 1]);
        lemma_plan_insert_split(e, s.drop_first(), i - 1);
        assert(seq![s[0]] + s.drop_first().insert(i - 1, e) =~= s.insert(i, e));
    }
}

/// Everything declared and not yet installed, in plugin-name order, with
/// the wire form of each version.
#[verifier::loop_isolation(false)]
pub fn install_all(files: &Vec<Versions>, installs: &InstallSet) -> (r: Vec<(String, Version)>)
    ensures
        pairs_view(r@) == spec_install_all(files@.map_values(|f: Versions| f@), installs@),
{
    let gathered = install_all_gather(files);
    // Sort the plan by plugin name.
    let ghost gv = pairs_view(gathered@);
    let mut sorted: Vec<(String, Version)> = Vec::new();
    let mut s: usize = 0;
    proof {
        assert(gv.skip(0) =~= gv);
        assert(pairs_view(sorted@) =~= Seq::<(Seq<char>, VersionView)>::empty());
    }
    while s < gathered.len()
        invariant
            gv == pairs_view(gathered@),
            s <= gathered.len(),
            spec_plan_sort(gv, Seq::empty()) == spec_plan_sort(
                gv.skip(s as int),
                pairs_view(sorted@),
            ),
        decreases gathered.len() - s,
    {
        proof {
            assert(gv.skip(s as int)[0] == gv[s as int]);
            assert(gv.skip(s as int).drop_first() =~= gv.skip(s + 1));
        }
        let ghost acc = pairs_view(sorted@);
        let name = gathered[s].0.clone();
        let ver = gathered[s].1.duplicate();
        let mut p: usize = 0;
        loop
            invariant
                p <= sorted.len(),
                acc == pairs_view(sorted@),
                name@ == gv[s as int].0,
                ver@ == gv[s as int].1,
                forall|j: int| 0 <= j < p ==> !lex_lt(name@, (#[trigger] acc[j]).0),
            decreases sorted.len() - p,
        {
            if p >= sorted.len() {
                break ;
            }
            if lex_lt_str(name.as_str(), sorted[p].0.as_str()) {
                break ;
            }
            p = p + 1;
        }
        proof {
            lemma_plan_insert_split(gv[s as int], acc, p as int);
        }
        sorted.insert(p, (name, ver));
        proof {
            assert(pairs_view(sorted@) =~~= acc.insert(p as int, gv[s as int]));
        }
        s = s + 1;
    }
    proof {
        assert(gv.skip(gathered@.len() as int) =~= Seq::<(Seq<char>, VersionView)>::empty());
    }
    // Skip what is already installed.
    let ghost sv = pairs_view(sorted@);
    let mut r: Vec<(String, Version)> = Vec::new();
    let mut q: usize = 0;
    proof {
        assert(sv.skip(0) =~= sv);
    }
    while q < sorted.len()
        invariant
            sv == pairs_view(sorted@),
            q <= sorted.len(),
            spec_plan_filter(sv, installs@) == pairs_view(r@) + spec_plan_filter(
                sv.skip(q as int),
                installs@,
            ),
        decreases sorted.len() - q,
    {
        proof {
            assert(sv.skip(q as int)[0] == sv[q as int]);
            assert(sv.skip(q as int).drop_first() =~= sv.skip(q + 1));
        }
        let ghost r0 = pairs_view(r@);
        if !installs.installed(sorted[q].0.as_str(), &sorted[q].1) {
            r.push((sorted[q].0.clone(), sorted[q].1.duplicate()));
            proof {
                assert(pairs_view(r@) =~= r0.push(sv[q as int]));
                assert(r0 + (seq![sv[q as int]] + spec_plan_filter(sv.skip(q + 1), installs@))
                    =~= pairs_view(r@) + spec_plan_filter(sv.skip(q + 1), installs@));
            }
        }
        q = q + 1;
    }
    proof {
        assert(sv.skip(sorted@.len() as int) =~= Seq::<(Seq<char>, VersionView)>::empty());
        assert(pairs_view(r@) + spec_plan_filter(
            sv.skip(sorted@.len() as int),
            installs@,
        ) =~= pairs_view(r@));
    }
    r
}

/// The gathered declaration for one plugin, if any.
pub open spec fn spec_plan_lookup(
    s: Seq<(Seq<char>, VersionView)>,
    k: Seq<char>,
) -> Option<VersionView>
    decreases s.len(),
{
    if s.len() == 0 {
        None
    } else if s[0].0 == k {
        Some(s[0].1)
    } else {
        spec_plan_lookup(s.drop_first(), k)
    }
}

/// The single declared version of one plugin, out of all discovered
/// version files; `None` when no file declares it (or only as `system`).
#[verifier::loop_isolation(false)]
pub fn install_one(files: &Vec<Versions>, name: &str) -> (r: Option<(String, Version)>)
    ensures
        match r {
            Some(p) => spec_plan_lookup(
                spec_gather(files@.map_values(|f: Versions| f@), Seq::empty()),
                name@,
            ) == Some(p.1@) && p.0@ == name@,
            None => spec_plan_lookup(
                spec_gather(files@.map_values(|f: Versions| f@), Seq::empty()),
                name@,
            ) is None,
        },
{
    let gathered = install_all_gather(files);
    let ghost gv = pairs_view(gathered@);
    let mut i: usize = 0;
    while i < gathered.len()
        invariant
            gv == pairs_view(gathered@),
            i <= gathered.len(),
            forall|j: int| 0 <= j < i ==> (#[trigger] gv[j]).0 != name@,
        decreases gathered.len() - i,
    {
        if str_eq(gathered[i].0.as_str(), name) {
            proof {
                lemma_plan_lookup_at(gv, name@, i as int);
            }
            return Some((name.to_owned(), gathered[i].1.duplicate()));
        }
        i = i + 1;
    }
    proof {
        lemma_plan_lookup_none(gv, name@);
    }
    None
}

proof fn lemma_plan_lookup_at(s: Seq<(Seq<char>, VersionView)>, k: Seq<char>, i: int)
    requires
        0 <= i < s.len(),
        s[i].0 == k,
        forall|j: int| 0 <= j < i ==> (#[trigger] s[j]).0 != k,
    ensures
        spec_plan_lookup(s, k) == Some(s[i].1),
    decreases s.len(),
{
    if i > 0 {
        assert(forall|j: int|
            0 <= j < s.drop_first().len() ==> (#[trigger] s.drop_first()[j]) == s[j + 1]);
        lemma_plan_lookup_at(s.drop_first(), k, i - 1);
    }
}

proof fn lemma_plan_lookup_none(s: Seq<(Seq<char>, VersionView)>, k: Seq<char>)
    requires
        forall|j: int| 0 <= j < s.len() ==> (#[trigger] s[j]).0 != k,
    ensures
        spec_plan_lookup(s, k) is None,
    decreases s.len(),
{
    if s.len() > 0 {
        assert(forall|j: int|
            0 <= j < s.drop_first().len() ==> (#[trigger] s.drop_first()[j]) == s[j + 1]);
        lemma_plan_lookup_none(s.drop_first(), k);
    }
}

/// The gathered declarations alone, nearest file first.
#[verifier::loop_isolation(false)]
pub fn install_all_gather(files: &Vec<Versions>) -> (r: Vec<(String, Version)>)
    ensures
        pairs_view(r@) == spec_gather(files@.map_values(|f: Versions| f@), Seq::empty()),
{
    let ghost fv = files@.map_values(|f: Versions| f@);
    let mut gathered: Vec<(String, Version)> = Vec::new();
    let mut i: usize = 0;
    proof {
        assert(fv.skip(0) =~= fv);
        assert(pairs_view(gathered@) =~= Seq::<(Seq<char>, VersionView)>::empty());
    }
    while i < files.len()
        invariant
            fv == files@.map_values(|f: Versions| f@),
            i <= files.len(),
            spec_gather(fv, Seq::empty()) == spec_gather(fv.skip(i as int), pairs_view(gathered@)),
        decreases files.len() - i,
    {
        let ghost cur = fv[i as int];
        proof {
            assert(fv.skip(i as int)[0] == cur);
            assert(fv.skip(i as int).drop_first() =~= fv.skip(i + 1));
            assert(cur.skip(0) =~= cur);
        }
        let ghost g0 = pairs_view(gathered@);
        let mut k: usize = 0;
        while k < files[i].entries.len()
            invariant
                i < files@.len(),
                fv == files@.map_values(|f: Versions| f@),
                cur == fv[i as int],
                k <= files@[i as int].entries@.len(),
                cur.len() == files@[i as int].entries@.len(),
                forall|j: int|
                    0 <= j < cur.len() ==> cur[j] == crate::versions::entries_view(
                        files@[i as int].entries@,
                    )[j],
                spec_gather_file(g0, cur) == spec_gather_file(
                    pairs_view(gathered@),
                    cur.skip(k as int),
                ),
            decreases files[i as int].entries@.len() - k,
        {
            proof {
                assert(cur.skip(k as int)[0] == cur[k as int]);
                assert(cur.skip(k as int).drop_first() =~= cur.skip(k + 1));
            }
            let name = &files[i].entries[k].0;
            let cands = &files[i].entries[k].1;
            let ghost before = pairs_view(gathered@);
            proof {
                assert(cur[k as int] == (name@, vlist_view(cands@)));
            }
            let mut already = false;
            let mut w: usize = 0;
            while w < gathered.len()
                invariant
                    w <= gathered.len(),
                    before == pairs_view(gathered@),
                    already == exists|j: int|
                        0 <= j < w && (#[trigger] before[j]).0 == name@,
                decreases gathered.len() - w,
            {
                if str_eq(gathered[w].0.as_str(), name.as_str()) {
                    proof {
                        assert(before[w as int].0 == name@);
                    }
                    already = true;
                    w = gathered.len();
                } else {
                    proof {
                        if exists|j: int| 0 <= j < w + 1 && (#[trigger] before[j]).0 == name@ {
                            let j = choose|j: int|
                                0 <= j < w + 1 && (#[trigger] before[j]).0 == name@;
                            assert(j < w);
                        }
                    }
                    w = w + 1;
                }
            }
            proof {
                if already {
                    assert(plan_has_name(before, name@));
                } else {
                    if plan_has_name(before, name@) {
                        let j = choose|j: int|
                            0 <= j < before.len() && (#[trigger] before[j]).0 == name@;
                    }
                }
            }
            if !already && cands.len() > 0 {
                let first = &cands[0];
                let is_sys = match first {
                    Version::System => true,
                    _ => false,
                };
                proof {
                    assert(vlist_view(cands@)[0] == cands@[0]@);
                }
                if !is_sys {
                    gathered.push((name.clone(), first.duplicate()));
                    proof {
                        assert(pairs_view(gathered@) =~= before.push(
                            (cur[k as int].0, cur[k as int].1[0]),
                        ));
                    }
                }
            }
            k = k + 1;
        }
        proof {
            assert(cur.skip(cur.len() as int) =~= Seq::<(Seq<char>, Seq<VersionView>)>::empty());
        }
        i = i + 1;
    }
    proof {
        assert(fv.skip(files@.len() as int) =~= Seq::<VersionFileView>::empty());
    }
    gathered
}

// ---------------------------------------------------------------------------
// Single install and uninstall planning
// ---------------------------------------------------------------------------

/// Errors of the install orchestration.
#[derive(Debug, PartialEq, Eq)]
pub enum InstallError {
    SystemVersion,
    NotDeclared(String),
    Script(PluginScriptError),
}

pub enum InstallErrorView {
    SystemVersion,
    NotDeclared(Seq<char>),
    Script(PluginScriptErrorView),
}

impl View for InstallError {
    type V = InstallErrorView;

    open spec fn view(&self) -> InstallErrorView {
        match self {
            InstallError::SystemVersion => InstallErrorView::SystemVersion,
            InstallError::NotDeclared(s) => InstallErrorView::NotDeclared(s@),
            InstallError::Script(e) => InstallErrorView::Script(e@),
        }
    }
}

/// The steps of one version install: an optional download run, the
/// install run, and the download area to delete afterwards.
#[derive(Debug)]
pub struct InstallSteps {
    pub download: Option<ScriptRequest>,
    pub install: Option<ScriptRequest>,
    pub remove_download_dir: Option<String>,
}

/// Plan the install of one resolved version: `system` is rejected, the
/// download script runs when the plugin has one, the install script runs
/// next, and the download area is deleted unless kept.
pub fn install_one_version(
    scripts: &PluginScripts,
    resolved: &Version,
    concurrency: u64,
    keep_download: bool,
    already_installed: bool,
    download_script_present: bool,
    install_script_present: bool,
) -> (r: Result<InstallSteps, InstallError>)
    ensures
        resolved@ is System ==> (r matches Err(e) && e@ == InstallErrorView::SystemVersion),
        match r {
            Ok(steps) => {
                &&& !(resolved@ is System)
                &&& spec_download_plan(
                    scripts@,
                    resolved@,
                    already_installed,
                    download_script_present,
                ) == Ok::<Option<ScriptRequestView>, PluginScriptErrorView>(
                    match steps.download {
                        Some(req) => Some(req@),
                        None => None,
                    },
                )
                &&& spec_install_plan(
                    scripts@,
                    resolved@,
                    concurrency as nat,
                    already_installed,
                    install_script_present,
                ) == Ok::<Option<ScriptRequestView>, PluginScriptErrorView>(
                    match steps.install {
                        Some(req) => Some(req@),
                        None => None,
                    },
                )
                &&& match steps.remove_download_dir {
                    Some(d) => !keep_download && d@ == spec_path_join(
                        scripts@.download_dir,
                        spec_version_str(resolved@),
                    ),
                    None => keep_download,
                }
            },
            Err(e) => resolved@ is System || (match e@ {
                InstallErrorView::Script(se) => {
                    spec_download_plan(
                        scripts@,
                        resolved@,
                        already_installed,
                        download_script_present,
                    ) == Err::<Option<ScriptRequestView>, PluginScriptErrorView>(se)
                        || spec_install_plan(
                        scripts@,
                        resolved@,
                        concurrency as nat,
                        already_installed,
                        install_script_present,
                    ) == Err::<Option<ScriptRequestView>, PluginScriptErrorView>(se)
                },
                _ => false,
            }),
        },
{
    if let Version::System = resolved {
        return Err(InstallError::SystemVersion);
    }
    let download = match scripts.download(resolved, already_installed, download_script_present) {
        Ok(d) => d,
        Err(e) => {
            return Err(InstallError::Script(e));
        },
    };
    let install = match scripts.install(
        resolved,
        concurrency,
        already_installed,
        install_script_present,
    ) {
        Ok(i) => i,
        Err(e) => {
            return Err(InstallError::Script(e));
        },
    };
    let remove_download_dir = if keep_download {
        None
    } else {
        Some(scripts.version_download_dir(resolved))
    };
    Ok(InstallSteps { download, install, remove_download_dir })
}

/// The steps of one uninstall: either the plugin's uninstall script or a
/// direct removal of the version directory, plus the download area.
#[derive(Debug)]
pub struct UninstallSteps {
    pub run: Option<ScriptRequest>,
    pub remove_dir: Option<String>,
    pub remove_download_dir: String,
}

/// Plan an uninstall: the version must be installed; with an uninstall
/// script the script runs, otherwise the version directory is removed
/// directly; the download area goes either way.
pub fn uninstall(
    scripts: &PluginScripts,
    version: &Version,
    installed: bool,
    has_uninstall_script: bool,
) -> (r: Result<UninstallSteps, PluginScriptError>)
    ensures
        !installed ==> (r matches Err(e) && e@ == (PluginScriptErrorView::VersionNotInstalled {
            version: spec_render_version(version@),
            plugin: scripts@.name,
        })),
        installed ==> r is Ok,
        match r {
            Ok(steps) => {
                &&& installed
                &&& (if has_uninstall_script {
                    spec_uninstall_plan(scripts@, version@, installed, true) == Ok::<
                        Option<ScriptRequestView>,
                        PluginScriptErrorView,
                    >(
                        match steps.run {
                            Some(req) => Some(req@),
                            None => None,
                        },
                    ) && steps.remove_dir is None
                } else {
                    steps.run is None && (steps.remove_dir matches Some(d) && d@
                        == spec_path_join(scripts@.install_dir, spec_version_str(version@)))
                })
                &&& steps.remove_download_dir@ == spec_path_join(
                    scripts@.download_dir,
                    spec_version_str(version@),
                )
            },
            Err(_) => true,
        },
{
    if !installed {
        return Err(PluginScriptError::VersionNotInstalled {
            plugin: scripts.name.clone(),
            version: version.raw(),
        });
    }
    let remove_download_dir = scripts.version_download_dir(version);
    if has_uninstall_script {
        match scripts.uninstall(version, true, true) {
            Ok(run) => Ok(UninstallSteps { run, remove_dir: None, remove_download_dir }),
            Err(e) => Err(e),
        }
    } else {
        Ok(
            UninstallSteps {
                run: None,
                remove_dir: Some(scripts.version_install_dir(version)),
                remove_download_dir,
            },
        )
    }
}

// ---------------------------------------------------------------------------
// Version-file pinning
// ---------------------------------------------------------------------------

/// Pin a resolved version in the version file of a directory: the version
/// must be installed; the plugin's entry is overwritten or appended.
pub fn use_version_for_dir(
    versions: &mut Versions,
    name: String,
    version: Version,
    installed: bool,
) -> (r: Result<(), PluginScriptError>)
    ensures
        installed ==> r is Ok && final(versions)@ == spec_upsert(
            old(versions)@,
            name@,
            seq![version@],
        ),
        !installed ==> (r matches Err(e) && e@ == (PluginScriptErrorView::VersionNotInstalled {
            version: spec_render_version(version@),
            plugin: name@,
        }) && final(versions)@ == old(versions)@),
{
    if !installed {
        return Err(PluginScriptError::VersionNotInstalled {
            plugin: name,
            version: version.raw(),
        });
    }
    let ghost vv = version@;
    let mut vlist: Vec<Version> = Vec::new();
    vlist.push(version);
    proof {
        assert(vlist_view(vlist@) =~= seq![vv]);
    }
    versions.insert(name, vlist);
    Ok(())
}

/// Pin a version in the home version file (the `global` command's core).
pub fn global(versions: &mut Versions, name: String, version: Version, installed: bool) -> (r:
    Result<(), PluginScriptError>)
    ensures
        installed ==> r is Ok && final(versions)@ == spec_upsert(
            old(versions)@,
            name@,
            seq![version@],
        ),
        !installed ==> (r matches Err(_) && final(versions)@ == old(versions)@),
{
    use_version_for_dir(versions, name, version, installed)
}

/// Does `s` start with `p`?
pub open spec fn spec_starts_with(s: Seq<char>, p: Seq<char>) -> bool {
    s.len() >= p.len() && s.take(p.len() as int) == p
}

pub open spec fn spec_filter_prefix(vs: Seq<Seq<char>>, p: Seq<char>) -> Seq<Seq<char>>
    decreases vs.len(),
{
    if vs.len() == 0 {
        vs
    } else {
        let rest = spec_filter_prefix(vs.drop_first(), p);
        if spec_starts_with(vs[0], p) {
            seq![vs[0]] + rest
        } else {
            rest
        }
    }
}

/// The listed versions that start with the given prefix, in order.
#[verifier::loop_isolation(false)]
pub fn get_filtered_versions(versions: &Vec<String>, prefix: &str) -> (r: Vec<String>)
    ensures
        crate::env::paths_view(r@) == spec_filter_prefix(
            crate::env::paths_view(versions@),
            prefix@,
        ),
{
    let ghost vv = crate::env::paths_view(versions@);
    let plen = prefix.unicode_len();
    let mut r: Vec<String> = Vec::new();
    let mut i: usize = 0;
    proof {
        assert(vv.skip(0) =~= vv);
        assert(crate::env::paths_view(r@) =~= Seq::<Seq<char>>::empty());
    }
    while i < versions.len()
        invariant
            i <= versions.len(),
            plen == prefix@.len(),
            spec_filter_prefix(vv, prefix@) == crate::env::paths_view(r@) + spec_filter_prefix(
                vv.skip(i as int),
                prefix@,
            ),
        decreases versions.len() - i,
    {
        proof {
            assert(vv.skip(i as int)[0] == vv[i as int]);
            assert(vv.skip(i as int).drop_first() =~= vv.skip(i + 1));
        }
        let n = versions[i].as_str().unicode_len();
        let keep = n >= plen && str_eq(versions[i].as_str().substring_char(0, plen), prefix);
        if keep {
            let ghost r0 = crate::env::paths_view(r@);
            r.push(versions[i].clone());
            proof {
                assert(crate::env::paths_view(r@) =~= r0.push(vv[i as int]));
                assert(r0 + (seq![vv[i as int]] + spec_filter_prefix(vv.skip(i + 1), prefix@))
                    =~= crate::env::paths_view(r@) + spec_filter_prefix(vv.skip(i + 1), prefix@));
            }
        }
        i = i + 1;
    }
    proof {
        assert(vv.skip(versions@.len() as int) =~= Seq::<Seq<char>>::empty());
        assert(crate::env::paths_view(r@) + spec_filter_prefix(
            vv.skip(versions@.len() as int),
            prefix@,
        ) =~= crate::env::paths_view(r@));
    }
    r
}

/// The hook and export commands refuse to run through the legacy alias:
/// they would re-enter the wrong binary from the shell hook.
pub fn assert_running_qwer(is_asdf: bool) -> (r: Result<(), String>)
    ensures
        r is Ok <==> !is_asdf,
{
    if is_asdf {
        Err("this command can not be run from the legacy alias".to_owned())
    } else {
        Ok(())
    }
}

// ---------------------------------------------------------------------------
// Plugin registry
// ---------------------------------------------------------------------------

/// Errors of short-name resolution against the plugin registry.
#[derive(Debug, Clone, PartialEq, Eq)]
pub enum ShortPluginError {
    NotFound(String),
    Io(String),
    InvalidFile(String),
}

pub enum ShortPluginErrorView {
    NotFound(Seq<char>),
    Io(Seq<char>),
    InvalidFile(Seq<char>),
}

impl View for ShortPluginError {
    type V = ShortPluginErrorView;

    open spec fn view(&self) -> ShortPluginErrorView {
        match self {
            ShortPluginError::NotFound(s) => ShortPluginErrorView::NotFound(s@),
            ShortPluginError::Io(s) => ShortPluginErrorView::Io(s@),
            ShortPluginError::InvalidFile(s) => ShortPluginErrorView::InvalidFile(s@),
        }
    }
}

/// A registry clone's bookkeeping: when it was last synchronised.
#[derive(Debug, Clone, PartialEq, Eq)]
pub struct Registry {
    pub last_sync: u64,
}

/// One row of the plugin listing.
#[derive(Debug, Clone, PartialEq, Eq)]
pub struct PluginListEntry {
    pub name: String,
    pub url: String,
    pub rref: String,
    pub installed: bool,
}

/// The registry is refreshed when forced, when the clock ran backwards,
/// or when the last sync is an hour or more old.
pub fn registry_needs_sync(last_sync: u64, now: u64, force: bool) -> (r: bool)
    ensures
        r == (force || now < last_sync || now - last_sync >= 3600),
{
    force || now < last_sync || now - last_sync >= 3600
}

/// The expected shape of a registry entry file.
pub open spec fn spec_short_repo_url(contents: Seq<char>) -> Result<Seq<char>, Seq<char>> {
    let parts = spec_split(contents, '=');
    if parts.len() != 2 || spec_trim(parts[0]) != "repository"@ {
        Err(contents)
    } else {
        Ok(spec_trim(parts[1]))
    }
}

/// Read the repository URL out of a registry entry file of the form
/// `repository = <git-url>`.
pub fn parse_short_repo_url(contents: &str) -> (r: Result<String, ShortPluginError>)
    ensures
        match r {
            Ok(u) => spec_short_repo_url(contents@) == Ok::<Seq<char>, Seq<char>>(u@),
            Err(e) => spec_short_repo_url(contents@) == Err::<Seq<char>, Seq<char>>(contents@)
                && e@ == ShortPluginErrorView::InvalidFile(contents@),
        },
{
    let cs = chars_of(contents);
    let n = cs.len();
    let ws = split_windows(&cs, 0, n, '=');
    proof {
        assert(cs@.subrange(0, n as int) =~= contents@);
    }
    if ws.len() != 2 {
        return Err(ShortPluginError::InvalidFile(contents.to_owned()));
    }
    let (a0, b0) = ws[0];
    let (ta, tb) = trim_range(&cs, a0, b0);
    let key = string_from_range(&cs, ta, tb);
    proof {
        assert(spec_split(contents@, '=')[0] == windows_view(cs@, ws@)[0]);
        assert(key@ == spec_trim(spec_split(contents@, '=')[0]));
    }
    if !str_eq(key.as_str(), "repository") {
        return Err(ShortPluginError::InvalidFile(contents.to_owned()));
    }
    let (a1, b1) = ws[1];
    let (ua, ub) = trim_range(&cs, a1, b1);
    proof {
        assert(spec_split(contents@, '=')[1] == windows_view(cs@, ws@)[1]);
    }
    Ok(string_from_range(&cs, ua, ub))
}

/// The decision behind `plugin add`: an installed plugin is rejected, an
/// explicit URL wins, and otherwise the registry entry decides.
pub fn add(
    name: &str,
    git_url: Option<String>,
    plugin_dir_exists: bool,
    registry_contents: Option<&String>,
) -> (r: Result<String, ShortPluginError>)
    ensures
        plugin_dir_exists ==> r is Err,
        ({
            match (plugin_dir_exists, &git_url) {
                (false, Some(g)) => r matches Ok(u) && u@ == g@,
                _ => true,
            }
        }),
        ({
            match (plugin_dir_exists, &git_url, registry_contents) {
                (false, None, Some(c)) => match spec_short_repo_url(c@) {
                    Ok(u0) => r matches Ok(u) && u@ == u0,
                    Err(_) => r matches Err(e) && e@ == ShortPluginErrorView::InvalidFile(c@),
                },
                (false, None, None) => r matches Err(e) && e@ == ShortPluginErrorView::NotFound(
                    name@,
                ),
                _ => true,
            }
        }),
{
    if plugin_dir_exists {
        return Err(ShortPluginError::InvalidFile(name.to_owned()));
    }
    match git_url {
        Some(g) => Ok(g),
        None => match registry_contents {
            Some(c) => parse_short_repo_url(c.as_str()),
            None => Err(ShortPluginError::NotFound(name.to_owned())),
        },
    }
}

} // verus!
