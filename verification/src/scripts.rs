//! Decisions and parsing behind plugin script invocations.
//!
//! Running a script is outside work; the functions here decide which
//! script to run with which contract environment, enforce the install and
//! uninstall invariants, and parse script outputs into typed results.  The
//! caller reports what it observed (whether a file exists, how a script
//! completed) and receives either an error or the next request.

use crate::env::{Env, EnvView};
use crate::strutil::{
    chars_of, find_char, spec_find, spec_split, spec_trim, spec_u64_dec, split_windows, str_eq,
    string_from_range, trim_range, u64_to_dec, windows_view,
};
use crate::versions::{
    spec_install_type, spec_parse_version, spec_render_version, spec_version_str, Version,
    VersionView,
};
use vstd::prelude::*;

verus! {

/// Errors of the plugin script contract.
#[derive(Debug, Clone, PartialEq, Eq)]
pub enum PluginScriptError {
    ScriptFailed(String),
    ScriptNotFound(String),
    Io(String),
    InvalidOutput(String),
    VersionNotInstalled { version: String, plugin: String },
    VersionAlreadyInstalled { version: String, plugin: String },
    NoVersionsFound,
    NoMatchingVersionsFound(String),
}

pub enum PluginScriptErrorView {
    ScriptFailed(Seq<char>),
    ScriptNotFound(Seq<char>),
    Io(Seq<char>),
    InvalidOutput(Seq<char>),
    VersionNotInstalled { version: Seq<char>, plugin: Seq<char> },
    VersionAlreadyInstalled { version: Seq<char>, plugin: Seq<char> },
    NoVersionsFound,
    NoMatchingVersionsFound(Seq<char>),
}

impl View for PluginScriptError {
    type V = PluginScriptErrorView;

    open spec fn view(&self) -> PluginScriptErrorView {
        match self {
            PluginScriptError::ScriptFailed(s) => PluginScriptErrorView::ScriptFailed(s@),
            PluginScriptError::ScriptNotFound(s) => PluginScriptErrorView::ScriptNotFound(s@),
            PluginScriptError::Io(s) => PluginScriptErrorView::Io(s@),
            PluginScriptError::InvalidOutput(s) => PluginScriptErrorView::InvalidOutput(s@),
            PluginScriptError::VersionNotInstalled { version, plugin } => {
                PluginScriptErrorView::VersionNotInstalled { version: version@, plugin: plugin@ }
            },
            PluginScriptError::VersionAlreadyInstalled { version, plugin } => {
                PluginScriptErrorView::VersionAlreadyInstalled {
                    version: version@,
                    plugin: plugin@,
                }
            },
            PluginScriptError::NoVersionsFound => PluginScriptErrorView::NoVersionsFound,
            PluginScriptError::NoMatchingVersionsFound(s) => {
                PluginScriptErrorView::NoMatchingVersionsFound(s@)
            },
        }
    }
}

impl PluginScriptError {
    /// The user-visible message of this error kind.
    pub fn message(&self) -> (r: String) {
        match self {
            PluginScriptError::ScriptFailed(s) => {
                let mut r = "script returned a non-0 exit code:\n".to_owned();
                r.append(s.as_str());
                r
            },
            PluginScriptError::ScriptNotFound(s) => {
                let mut r = "script `".to_owned();
                r.append(s.as_str());
                r.append("` was not found");
                r
            },
            PluginScriptError::Io(s) => {
                let mut r = "io error while running script: ".to_owned();
                r.append(s.as_str());
                r
            },
            PluginScriptError::InvalidOutput(s) => {
                let mut r = "failed to read command output: ".to_owned();
                r.append(s.as_str());
                r
            },
            PluginScriptError::VersionNotInstalled { version, plugin } => {
                let mut r = "version `".to_owned();
                r.append(version.as_str());
                r.append("` for plugin `");
                r.append(plugin.as_str());
                r.append("` was not installed");
                r
            },
            PluginScriptError::VersionAlreadyInstalled { version, plugin } => {
                let mut r = "version `".to_owned();
                r.append(version.as_str());
                r.append("` for plugin `");
                r.append(plugin.as_str());
                r.append("` was already installed");
                r
            },
            PluginScriptError::NoVersionsFound => "no versions were found".to_owned(),
            PluginScriptError::NoMatchingVersionsFound(s) => {
                let mut r = "no versions were found for query `".to_owned();
                r.append(s.as_str());
                r.append("`");
                r
            },
        }
    }
}

/// How one script invocation went: the script file was missing, or the
/// script completed with an exit status and its captured output.
#[derive(Debug, Clone, PartialEq, Eq)]
pub enum ScriptOutcome {
    Missing,
    Completed { success: bool, output: String },
}

pub enum ScriptOutcomeView {
    Missing,
    Completed { success: bool, output: Seq<char> },
}

impl View for ScriptOutcome {
    type V = ScriptOutcomeView;

    open spec fn view(&self) -> ScriptOutcomeView {
        match self {
            ScriptOutcome::Missing => ScriptOutcomeView::Missing,
            ScriptOutcome::Completed { success, output } => ScriptOutcomeView::Completed {
                success: *success,
                output: output@,
            },
        }
    }
}

/// A script to run, with the contract environment to pass to it.
#[derive(Debug, PartialEq)]
pub struct ScriptRequest {
    pub path: String,
    pub env: Vec<(String, String)>,
}

#[verifier::ext_equal]
pub struct ScriptRequestView {
    pub path: Seq<char>,
    pub env: Seq<(Seq<char>, Seq<char>)>,
}

impl View for ScriptRequest {
    type V = ScriptRequestView;

    open spec fn view(&self) -> ScriptRequestView {
        ScriptRequestView { path: self.path@, env: crate::env::vars_view(self.env@) }
    }
}

pub open spec fn spec_path_join(a: Seq<char>, b: Seq<char>) -> Seq<char> {
    a + seq!['/'] + b
}

pub fn path_join(a: &str, b: &str) -> (r: String)
    ensures
        r@ == spec_path_join(a@, b@),
{
    let mut r = a.to_owned();
    r.push('/');
    r.append(b);
    proof {
        assert(r@ =~= spec_path_join(a@, b@));
    }
    r
}

/// Interpret how a script completed: a missing script, a failure carrying
/// the combined output, or the captured output.
pub open spec fn spec_script_result(o: ScriptOutcomeView, path: Seq<char>) -> Result<
    Seq<char>,
    PluginScriptErrorView,
> {
    match o {
        ScriptOutcomeView::Missing => Err(PluginScriptErrorView::ScriptNotFound(path)),
        ScriptOutcomeView::Completed { success, output } => {
            if success {
                Ok(output)
            } else {
                Err(PluginScriptErrorView::ScriptFailed(output))
            }
        },
    }
}

pub fn script_result(o: &ScriptOutcome, path: &str) -> (r: Result<String, PluginScriptError>)
    ensures
        match r {
            Ok(s) => spec_script_result(o@, path@) == Ok::<Seq<char>, PluginScriptErrorView>(s@),
            Err(e) => spec_script_result(o@, path@) == Err::<Seq<char>, PluginScriptErrorView>(e@),
        },
{
    match o {
        ScriptOutcome::Missing => Err(PluginScriptError::ScriptNotFound(path.to_owned())),
        ScriptOutcome::Completed { success, output } => {
            if *success {
                Ok(output.clone())
            } else {
                Err(PluginScriptError::ScriptFailed(output.clone()))
            }
        },
    }
}

/// A whitespace-separated list: the maximal non-whitespace runs of the
/// output, in order.
pub open spec fn spec_ws_list(out: Seq<char>) -> Seq<Seq<char>> {
    crate::strutil::spec_ws_tokens(out)
}

#[verifier::loop_isolation(false)]
pub fn parse_ws_list(out: &str) -> (r: Vec<String>)
    ensures
        crate::env::paths_view(r@) == spec_ws_list(out@),
{
    let cs = chars_of(out);
    let n = cs.len();
    proof {
        assert(cs@.subrange(0, n as int) =~= out@);
    }
    let mut r: Vec<String> = Vec::new();
    let mut pos: usize = 0;
    proof {
        assert(crate::env::paths_view(r@) =~= Seq::<Seq<char>>::empty());
    }
    while pos < n
        invariant
            pos <= n,
            crate::strutil::spec_ws_tokens(out@) == crate::env::paths_view(r@)
                + crate::strutil::spec_ws_tokens(cs@.subrange(pos as int, n as int)),
        decreases n - pos,
    {
        let ghost rest = cs@.subrange(pos as int, n as int);
        let c = cs[pos];
        if c == ' ' || c == '\t' || c == '\r' || c == '\n' {
            proof {
                assert(rest[0] == cs@[pos as int]);
                assert(rest.drop_first() =~= cs@.subrange(pos + 1, n as int));
            }
            pos = pos + 1;
        } else {
            let mut e = pos + 1;
            while e < n && !(cs[e] == ' ' || cs[e] == '\t' || cs[e] == '\r' || cs[e] == '\n')
                invariant
                    pos < e <= n,
                    forall|x: int| pos <= x < e ==> !crate::strutil::is_ws(#[trigger] cs@[x]),
                decreases n - e,
            {
                e = e + 1;
            }
            proof {
                assert(forall|j: int| 0 <= j < e - pos ==> !crate::strutil::is_ws(rest[j]));
                if e < n {
                    assert(rest[e - pos] == cs@[e as int]);
                }
                crate::strutil::lemma_run_len_at(rest, e - pos);
                assert(rest.take(e - pos) =~= cs@.subrange(pos as int, e as int));
                assert(rest.skip(e - pos) =~= cs@.subrange(e as int, n as int));
            }
            let ghost r0 = crate::env::paths_view(r@);
            r.push(string_from_range(&cs, pos, e));
            proof {
                assert(crate::env::paths_view(r@) =~= r0.push(rest.take(e - pos)));
                assert(r0 + (seq![rest.take(e - pos)] + crate::strutil::spec_ws_tokens(
                    cs@.subrange(e as int, n as int),
                )) =~= crate::env::paths_view(r@) + crate::strutil::spec_ws_tokens(
                    cs@.subrange(e as int, n as int),
                ));
            }
            pos = e;
        }
    }
    proof {
        assert(cs@.subrange(pos as int, n as int).len() == 0);
        assert(crate::strutil::spec_ws_tokens(cs@.subrange(pos as int, n as int)) =~= Seq::<
            Seq<char>,
        >::empty());
        assert(crate::env::paths_view(r@) + Seq::<Seq<char>>::empty() =~= crate::env::paths_view(
            r@,
        ));
    }
    r
}

// ---------------------------------------------------------------------------
// The prerelease denylist
// ---------------------------------------------------------------------------

/// Does `p` occur as a contiguous substring of `s`?
pub open spec fn contains_sub(s: Seq<char>, p: Seq<char>) -> bool {
    exists|i: int| 0 <= i <= s.len() - p.len() && #[trigger] s.subrange(i, i + p.len()) == p
}

#[verifier::loop_isolation(false)]
pub fn has_sub(s: &Vec<char>, p: &str) -> (r: bool)
    ensures
        r == contains_sub(s@, p@),
{
    let pc = chars_of(p);
    let plen = pc.len();
    let n = s.len();
    if plen > n {
        proof {
            if contains_sub(s@, p@) {
                let i = choose|i: int|
                    0 <= i <= s@.len() - p@.len() && #[trigger] s@.subrange(i, i + p@.len()) == p@;
            }
        }
        return false;
    }
    let mut i: usize = 0;
    while i <= n - plen
        invariant
            plen == p@.len(),
            plen <= n == s@.len(),
            i <= n - plen + 1,
            forall|x: int| 0 <= x < i ==> #[trigger] s@.subrange(x, x + p@.len()) != p@,
        decreases n - plen - i + 1,
    {
        let mut j: usize = 0;
        let mut matched = true;
        while j < plen
            invariant
                i + plen <= n,
                j <= plen,
                matched == (s@.subrange(i as int, i + j) =~= p@.take(j as int)),
            decreases plen - j,
        {
            if s[i + j] != p.get_char(j) {
                matched = false;
                proof {
                    assert(s@.subrange(i as int, i + j + 1)[j as int] == s@[i + j]);
                    assert(p@.take(j + 1)[j as int] == p@[j as int]);
                    assert(s@.subrange(i as int, i + j + 1) != p@.take(j + 1));
                }
                j = plen;
            } else {
                proof {
                    if matched {
                        assert(s@.subrange(i as int, i + j + 1) =~= s@.subrange(
                            i as int,
                            i + j,
                        ).push(s@[i + j]));
                        assert(p@.take(j + 1) =~= p@.take(j as int).push(p@[j as int]));
                    } else {
                        assert(s@.subrange(i as int, i + j) != p@.take(j as int));
                        assert(s@.subrange(i as int, i + j + 1).take(j as int) =~= s@.subrange(
                            i as int,
                            i + j,
                        ));
                        assert(p@.take(j + 1).take(j as int) =~= p@.take(j as int));
                        assert(s@.subrange(i as int, i + j + 1) != p@.take(j + 1));
                    }
                }
                j = j + 1;
            }
        }
        if matched {
            proof {
                assert(p@.take(plen as int) =~= p@);
                assert(s@.subrange(i as int, i + plen) == p@);
            }
            return true;
        }
        proof {
            assert(p@.take(plen as int) =~= p@);
        }
        i = i + 1;
    }
    proof {
        if contains_sub(s@, p@) {
            let x = choose|x: int|
                0 <= x <= s@.len() - p@.len() && #[trigger] s@.subrange(x, x + p@.len()) == p@;
        }
    }
    false
}

pub open spec fn is_low_letter_abc(c: char) -> bool {
    c == 'a' || c == 'b' || c == 'c'
}

/// The prerelease denylist: version tokens that `latest-stable` must skip
/// when derived from the full listing.  A token is unstable when it holds
/// one of the fixed markers, or the letter a, b or c directly followed by
/// a digit.
pub open spec fn spec_is_prerelease(s: Seq<char>) -> bool {
    ||| contains_sub(s, "-src"@)
    ||| contains_sub(s, "-dev"@)
    ||| contains_sub(s, "-latest"@)
    ||| contains_sub(s, "-stm"@)
    ||| contains_sub(s, "-rc"@)
    ||| contains_sub(s, ".rc"@)
    ||| contains_sub(s, "-alpha"@)
    ||| contains_sub(s, "-beta"@)
    ||| contains_sub(s, "-pre"@)
    ||| contains_sub(s, ".pre"@)
    ||| contains_sub(s, "-next"@)
    ||| contains_sub(s, "snapshot"@)
    ||| contains_sub(s, "master"@)
    ||| exists|i: int|
        0 <= i < s.len() - 1 && is_low_letter_abc(#[trigger] s[i]) && crate::strutil::is_digit(
            s[i + 1],
        )
}

pub fn is_prerelease(token: &str) -> (r: bool)
    ensures
        r == spec_is_prerelease(token@),
{
    let cs = chars_of(token);
    if has_sub(&cs, "-src") || has_sub(&cs, "-dev") || has_sub(&cs, "-latest") || has_sub(
        &cs,
        "-stm",
    ) || has_sub(&cs, "-rc") || has_sub(&cs, ".rc") || has_sub(&cs, "-alpha") || has_sub(
        &cs,
        "-beta",
    ) || has_sub(&cs, "-pre") || has_sub(&cs, ".pre") || has_sub(&cs, "-next") || has_sub(
        &cs,
        "snapshot",
    ) || has_sub(&cs, "master") {
        return true;
    }
    let n = cs.len();
    if n >= 2 {
        let mut i: usize = 0;
        while i < n - 1
            invariant
                n == cs@.len(),
                cs@ == token@,
                2 <= n,
                i <= n - 1,
                forall|x: int|
                    0 <= x < i ==> !(is_low_letter_abc(#[trigger] cs@[x])
                        && crate::strutil::is_digit(cs@[x + 1])),
            decreases n - i,
        {
            let c = cs[i];
            let d = cs[i + 1];
            if (c == 'a' || c == 'b' || c == 'c') && ('0' <= d && d <= '9') {
                return true;
            }
            i = i + 1;
        }
    }
    proof {
        if exists|i: int|
            0 <= i < token@.len() - 1 && is_low_letter_abc(#[trigger] token@[i])
                && crate::strutil::is_digit(token@[i + 1]) {
            let i = choose|i: int|
                0 <= i < token@.len() - 1 && is_low_letter_abc(#[trigger] token@[i])
                    && crate::strutil::is_digit(token@[i + 1]);
        }
    }
    false
}

// ---------------------------------------------------------------------------
// The plugin script facade
// ---------------------------------------------------------------------------

#[verifier::ext_equal]
pub struct PluginScriptsView {
    pub name: Seq<char>,
    pub plugin_dir: Seq<char>,
    pub install_dir: Seq<char>,
    pub download_dir: Seq<char>,
    pub script_env_path: Seq<char>,
}

/// One plugin's script directory: the plugin name, its three directories,
/// and the PATH value passed to its scripts.
#[derive(Debug)]
pub struct PluginScripts {
    pub name: String,
    pub plugin_dir: String,
    pub install_dir: String,
    pub download_dir: String,
    pub script_env_path: String,
}

impl View for PluginScripts {
    type V = PluginScriptsView;

    open spec fn view(&self) -> PluginScriptsView {
        PluginScriptsView {
            name: self.name@,
            plugin_dir: self.plugin_dir@,
            install_dir: self.install_dir@,
            download_dir: self.download_dir@,
            script_env_path: self.script_env_path@,
        }
    }
}

/// The PATH given to scripts: the extra entries, then the caller's PATH.
pub open spec fn spec_script_env_path(extra: Seq<Seq<char>>, current: Option<Seq<char>>) -> Seq<
    char,
> {
    match current {
        Some(c) => crate::strutil::spec_join(extra.push(c), ':'),
        None => crate::strutil::spec_join(extra, ':'),
    }
}

impl PluginScripts {
    /// Lay out the per-plugin directories under the three roots.
    pub fn new(
        name: &str,
        plugins: &str,
        installs: &str,
        downloads: &str,
        extra_path: &Vec<String>,
        current_path: Option<&str>,
    ) -> (r: PluginScripts)
        ensures
            r@.name == name@,
            r@.plugin_dir == spec_path_join(plugins@, name@),
            r@.install_dir == spec_path_join(installs@, name@),
            r@.download_dir == spec_path_join(downloads@, name@),
            r@.script_env_path == spec_script_env_path(
                crate::env::paths_view(extra_path@),
                match current_path {
                    Some(c) => Some(c@),
                    None => None,
                },
            ),
    {
        let ghost extras = crate::env::paths_view(extra_path@);
        let ghost parts: Seq<Seq<char>> = match current_path {
            Some(c) => extras.push(c@),
            None => extras,
        };
        let mut sep = String::new();
        let mut i: usize = 0;
        proof {
            assert(parts.take(0) =~= Seq::<Seq<char>>::empty());
        }
        while i < extra_path.len()
            invariant
                i <= extra_path.len(),
                extras == crate::env::paths_view(extra_path@),
                i < parts.len() + 1,
                parts.len() >= extra_path@.len(),
                forall|k: int| 0 <= k < extra_path@.len() ==> parts[k] == extras[k],
                sep@ == crate::strutil::spec_join(parts.take(i as int), ':'),
            decreases extra_path.len() - i,
        {
            if i > 0 {
                sep.push(':');
            }
            sep.append(extra_path[i].as_str());
            proof {
                assert(parts.take(i + 1) =~= parts.take(i as int).push(parts[i as int]));
                crate::strutil::lemma_join_push(parts.take(i as int), parts[i as int], ':');
                assert(sep@ =~= crate::strutil::spec_join(parts.take(i + 1), ':'));
            }
            i = i + 1;
        }
        match current_path {
            Some(c) => {
                if extra_path.len() > 0 {
                    sep.push(':');
                }
                sep.append(c);
                proof {
                    assert(parts.take(extra_path@.len() as int + 1) =~= parts.take(
                        extra_path@.len() as int,
                    ).push(parts[extra_path@.len() as int]));
                    crate::strutil::lemma_join_push(
                        parts.take(extra_path@.len() as int),
                        parts[extra_path@.len() as int],
                        ':',
                    );
                    assert(parts.take(extra_path@.len() as int) =~= extras);
                    assert(parts.take(extra_path@.len() as int + 1) =~= parts);
                    assert(sep@ =~= crate::strutil::spec_join(parts, ':'));
                }
            },
            None => {
                proof {
                    assert(parts.take(extra_path@.len() as int) =~= parts);
                }
            },
        }
        PluginScripts {
            name: name.to_owned(),
            plugin_dir: path_join(plugins, name),
            install_dir: path_join(installs, name),
            download_dir: path_join(downloads, name),
            script_env_path: sep,
        }
    }

    /// The path of a script under the plugin's `bin/` directory.
    pub fn bin_script(&self, script: &str) -> (r: String)
        ensures
            r@ == spec_path_join(self@.plugin_dir, "bin/"@ + script@),
    {
        let mut tail = "bin/".to_owned();
        tail.append(script);
        path_join(self.plugin_dir.as_str(), tail.as_str())
    }

    /// The install tree of one version.
    pub fn version_install_dir(&self, version: &Version) -> (r: String)
        ensures
            r@ == spec_path_join(self@.install_dir, spec_version_str(version@)),
    {
        path_join(self.install_dir.as_str(), version.version_str())
    }

    /// The download area of one version.
    pub fn version_download_dir(&self, version: &Version) -> (r: String)
        ensures
            r@ == spec_path_join(self@.download_dir, spec_version_str(version@)),
    {
        path_join(self.download_dir.as_str(), version.version_str())
    }

    /// Is the plugin present, given the listing of the plugins directory?
    pub fn plugin_installed(&self, plugins_listing: &Vec<String>) -> (r: bool)
        ensures
            r == crate::env::paths_view(plugins_listing@).contains(self@.name),
    {
        crate::shell::contains_string(plugins_listing, self.name.as_str())
    }

    /// Is the version installed, given the listing of the plugin's install
    /// directory?
    pub fn version_installed(&self, installed: &Vec<String>, version: &Version) -> (r: bool)
        ensures
            r == crate::env::paths_view(installed@).contains(spec_version_str(version@)),
    {
        crate::shell::contains_string(installed, version.version_str())
    }

    /// Does the plugin offer a download script, given the listing of its
    /// `bin/` directory?
    pub fn has_download(&self, bin_listing: &Vec<String>) -> (r: bool)
        ensures
            r == crate::env::paths_view(bin_listing@).contains("download"@),
    {
        crate::shell::contains_string(bin_listing, "download")
    }

    /// Does the plugin offer an uninstall script?
    pub fn has_uninstall(&self, bin_listing: &Vec<String>) -> (r: bool)
        ensures
            r == crate::env::paths_view(bin_listing@).contains("uninstall"@),
    {
        crate::shell::contains_string(bin_listing, "uninstall")
    }

    /// All versions the plugin can install: the `list-all` output split on
    /// whitespace.
    pub fn list_all(&self, outcome: &ScriptOutcome) -> (r: Result<
        Vec<String>,
        PluginScriptError,
    >)
        ensures
            match r {
                Ok(v) => spec_list_all(self@, outcome@) == Ok::<
                    Seq<Seq<char>>,
                    PluginScriptErrorView,
                >(crate::env::paths_view(v@)),
                Err(e) => spec_list_all(self@, outcome@) == Err::<
                    Seq<Seq<char>>,
                    PluginScriptErrorView,
                >(e@),
            },
    {
        let path = self.bin_script("list-all");
        match script_result(outcome, path.as_str()) {
            Ok(out) => Ok(parse_ws_list(out.as_str())),
            Err(e) => Err(e),
        }
    }

    /// The newest version: the last entry of the listing.
    pub fn latest(&self, list_outcome: &ScriptOutcome) -> (r: Result<Version, PluginScriptError>)
        ensures
            match r {
                Ok(v) => spec_latest(self@, list_outcome@) == Ok::<
                    VersionView,
                    PluginScriptErrorView,
                >(v@),
                Err(e) => spec_latest(self@, list_outcome@) == Err::<
                    VersionView,
                    PluginScriptErrorView,
                >(e@),
            },
    {
        let all = match self.list_all(list_outcome) {
            Ok(v) => v,
            Err(e) => {
                return Err(e);
            },
        };
        if all.len() == 0 {
            return Err(PluginScriptError::NoVersionsFound);
        }
        let last = &all[all.len() - 1];
        proof {
            assert(crate::env::paths_view(all@).last() == last@);
        }
        Ok(Version::parse(last.as_str()))
    }

    /// Resolve an exact query: a remote version must occur in the
    /// listing; the other variants pass through unvalidated.
    pub fn find_version(&self, query: &str, list_outcome: &ScriptOutcome) -> (r: Result<
        Version,
        PluginScriptError,
    >)
        ensures
            match r {
                Ok(v) => spec_find_version(self@, query@, list_outcome@) == Ok::<
                    VersionView,
                    PluginScriptErrorView,
                >(v@),
                Err(e) => spec_find_version(self@, query@, list_outcome@) == Err::<
                    VersionView,
                    PluginScriptErrorView,
                >(e@),
            },
    {
        let parsed = Version::parse(query);
        let is_remote = match &parsed {
            Version::Version(_) => true,
            _ => false,
        };
        if !is_remote {
            return Ok(parsed);
        }
        let all = match self.list_all(list_outcome) {
            Ok(v) => v,
            Err(e) => {
                return Err(e);
            },
        };
        let tok = match &parsed {
            Version::Version(t) => t.clone(),
            _ => String::new(),
        };
        if crate::shell::contains_string(&all, tok.as_str()) {
            Ok(parsed)
        } else {
            Err(PluginScriptError::NoVersionsFound)
        }
    }

    /// The newest stable version: the `latest-stable` script's token when
    /// the plugin provides one, else the last listed version that does not
    /// match the prerelease denylist.
    #[verifier::loop_isolation(false)]
    pub fn latest_stable(&self, script_outcome: &ScriptOutcome, list_outcome: &ScriptOutcome) -> (r:
        Result<Version, PluginScriptError>)
        ensures
            match r {
                Ok(v) => spec_latest_stable(self@, script_outcome@, list_outcome@) == Ok::<
                    VersionView,
                    PluginScriptErrorView,
                >(v@),
                Err(e) => spec_latest_stable(self@, script_outcome@, list_outcome@) == Err::<
                    VersionView,
                    PluginScriptErrorView,
                >(e@),
            },
    {
        match script_outcome {
            ScriptOutcome::Missing => {
                let all = match self.list_all(list_outcome) {
                    Ok(v) => v,
                    Err(e) => {
                        return Err(e);
                    },
                };
                let ghost l = crate::env::paths_view(all@);
                let mut i: usize = all.len();
                proof {
                    assert(l.take(all@.len() as int) =~= l);
                }
                while i > 0
                    invariant
                        i <= all.len(),
                        l == crate::env::paths_view(all@),
                        spec_last_stable(l) == spec_last_stable(l.take(i as int)),
                    decreases i,
                {
                    proof {
                        assert(l.take(i as int).last() == l[i - 1]);
                        assert(l.take(i as int).drop_last() =~= l.take(i - 1));
                    }
                    if !is_prerelease(all[i - 1].as_str()) {
                        proof {
                            assert(l[i - 1] == all@[i - 1]@);
                            assert(spec_last_stable(l.take(i as int)) == Ok::<
                                VersionView,
                                PluginScriptErrorView,
                            >(spec_parse_version(l[i - 1])));
                        }
                        return Ok(Version::parse(all[i - 1].as_str()));
                    }
                    proof {
                        assert(l[i - 1] == all@[i - 1]@);
                    }
                    i = i - 1;
                }
                proof {
                    assert(l.take(0) =~= Seq::<Seq<char>>::empty());
                }
                Err(PluginScriptError::NoMatchingVersionsFound("latest-stable".to_owned()))
            },
            ScriptOutcome::Completed { success, output } => {
                if *success {
                    let cs = chars_of(output.as_str());
                    let n = cs.len();
                    let (a, b) = trim_range(&cs, 0, n);
                    proof {
                        assert(cs@.subrange(0, n as int) =~= output@);
                    }
                    let tok = string_from_range(&cs, a, b);
                    Ok(Version::parse(tok.as_str()))
                } else {
                    Err(PluginScriptError::ScriptFailed(output.clone()))
                }
            },
        }
    }

    /// Resolve a symbolic or exact version query.
    pub fn resolve(
        &self,
        query: &str,
        stable_outcome: &ScriptOutcome,
        list_outcome: &ScriptOutcome,
    ) -> (r: Result<Version, PluginScriptError>)
        ensures
            match r {
                Ok(v) => spec_resolve(self@, query@, stable_outcome@, list_outcome@) == Ok::<
                    VersionView,
                    PluginScriptErrorView,
                >(v@),
                Err(e) => spec_resolve(self@, query@, stable_outcome@, list_outcome@) == Err::<
                    VersionView,
                    PluginScriptErrorView,
                >(e@),
            },
    {
        if str_eq(query, "latest") {
            self.latest(list_outcome)
        } else if str_eq(query, "latest-stable") {
            self.latest_stable(stable_outcome, list_outcome)
        } else {
            self.find_version(query, list_outcome)
        }
    }

    /// Plan an install: `system` needs no work; the version must not be
    /// installed yet, and the plugin must offer an install script.
    pub fn install(
        &self,
        version: &Version,
        concurrency: u64,
        already_installed: bool,
        script_present: bool,
    ) -> (r: Result<Option<ScriptRequest>, PluginScriptError>)
        ensures
            match r {
                Ok(opt) => spec_install_plan(
                    self@,
                    version@,
                    concurrency as nat,
                    already_installed,
                    script_present,
                ) == Ok::<Option<ScriptRequestView>, PluginScriptErrorView>(
                    match opt {
                        Some(req) => Some(req@),
                        None => None,
                    },
                ),
                Err(e) => spec_install_plan(
                    self@,
                    version@,
                    concurrency as nat,
                    already_installed,
                    script_present,
                ) == Err::<Option<ScriptRequestView>, PluginScriptErrorView>(e@),
            },
    {
        if let Version::System = version {
            return Ok(None);
        }
        let path = self.bin_script("install");
        if !script_present {
            return Err(PluginScriptError::ScriptNotFound(path));
        }
        if already_installed {
            return Err(PluginScriptError::VersionAlreadyInstalled {
                plugin: self.name.clone(),
                version: version.raw(),
            });
        }
        let mut env: Vec<(String, String)> = Vec::new();
        env.push(("ASDF_INSTALL_TYPE".to_owned(), version.install_type().to_owned()));
        env.push(("ASDF_INSTALL_VERSION".to_owned(), version.version_str().to_owned()));
        env.push(("ASDF_INSTALL_PATH".to_owned(), self.version_install_dir(version)));
        env.push(("ASDF_DOWNLOAD_PATH".to_owned(), self.version_download_dir(version)));
        env.push(("ASDF_CONCURRENCY".to_owned(), u64_to_dec(concurrency)));
        let req = ScriptRequest { path, env };
        proof {
            assert(req@.env =~= spec_install_env(self@, version@, concurrency as nat));
        }
        Ok(Some(req))
    }

    /// Plan a download: absent scripts and `system` need no work; the
    /// version must not be installed yet.
    pub fn download(&self, version: &Version, already_installed: bool, script_present: bool) -> (r:
        Result<Option<ScriptRequest>, PluginScriptError>)
        ensures
            match r {
                Ok(opt) => spec_download_plan(
                    self@,
                    version@,
                    already_installed,
                    script_present,
                ) == Ok::<Option<ScriptRequestView>, PluginScriptErrorView>(
                    match opt {
                        Some(req) => Some(req@),
                        None => None,
                    },
                ),
                Err(e) => spec_download_plan(self@, version@, already_installed, script_present)
                    == Err::<Option<ScriptRequestView>, PluginScriptErrorView>(e@),
            },
    {
        if let Version::System = version {
            return Ok(None);
        }
        if !script_present {
            return Ok(None);
        }
        if already_installed {
            return Err(PluginScriptError::VersionAlreadyInstalled {
                plugin: self.name.clone(),
                version: version.raw(),
            });
        }
        let path = self.bin_script("download");
        let mut env: Vec<(String, String)> = Vec::new();
        env.push(("ASDF_INSTALL_TYPE".to_owned(), version.install_type().to_owned()));
        env.push(("ASDF_INSTALL_VERSION".to_owned(), version.version_str().to_owned()));
        env.push(("ASDF_INSTALL_PATH".to_owned(), self.version_install_dir(version)));
        env.push(("ASDF_DOWNLOAD_PATH".to_owned(), self.version_download_dir(version)));
        let req = ScriptRequest { path, env };
        proof {
            assert(req@.env =~= spec_download_env(self@, version@));
        }
        Ok(Some(req))
    }

    /// Plan an uninstall through the plugin's script: the version must be
    /// installed and the script must exist.  `system` needs no work.
    pub fn uninstall(&self, version: &Version, installed: bool, script_present: bool) -> (r: Result<
        Option<ScriptRequest>,
        PluginScriptError,
    >)
        ensures
            match r {
                Ok(opt) => spec_uninstall_plan(self@, version@, installed, script_present) == Ok::<
                    Option<ScriptRequestView>,
                    PluginScriptErrorView,
                >(
                    match opt {
                        Some(req) => Some(req@),
                        None => None,
                    },
                ),
                Err(e) => spec_uninstall_plan(self@, version@, installed, script_present) == Err::<
                    Option<ScriptRequestView>,
                    PluginScriptErrorView,
                >(e@),
            },
    {
        if let Version::System = version {
            return Ok(None);
        }
        if !installed {
            return Err(PluginScriptError::VersionNotInstalled {
                plugin: self.name.clone(),
                version: version.raw(),
            });
        }
        let path = self.bin_script("uninstall");
        if !script_present {
            return Err(PluginScriptError::ScriptNotFound(path));
        }
        let mut env: Vec<(String, String)> = Vec::new();
        env.push(("ASDF_INSTALL_TYPE".to_owned(), version.install_type().to_owned()));
        env.push(("ASDF_INSTALL_VERSION".to_owned(), version.version_str().to_owned()));
        env.push(("ASDF_INSTALL_PATH".to_owned(), self.version_install_dir(version)));
        let req = ScriptRequest { path, env };
        proof {
            assert(req@.env =~= spec_uninstall_env(self@, version@));
        }
        Ok(Some(req))
    }

    /// The directory a version occupies, named by its wire form; an error
    /// when nothing is installed there.
    pub fn get_version_path(&self, version: &Version, is_dir: bool) -> (r: Result<
        String,
        PluginScriptError,
    >)
        ensures
            match r {
                Ok(p) => is_dir && p@ == spec_path_join(
                    self@.install_dir,
                    spec_render_version(version@),
                ),
                Err(e) => !is_dir && e@ == (PluginScriptErrorView::VersionNotInstalled {
                    version: spec_render_version(version@),
                    plugin: self@.name,
                }),
            },
    {
        let p = path_join(self.install_dir.as_str(), version.raw().as_str());
        if !is_dir {
            return Err(PluginScriptError::VersionNotInstalled {
                plugin: self.name.clone(),
                version: version.raw(),
            });
        }
        Ok(p)
    }

    /// The variables an `exec-env` hook exports, parsed from the rewritten
    /// script's output: one KEY=VALUE per line.  A missing hook exports
    /// nothing.
    pub fn exec_env(&self, version: &Version, outcome: &ScriptOutcome) -> (r: Result<
        Vec<(String, String)>,
        PluginScriptError,
    >)
        ensures
            match r {
                Ok(v) => spec_exec_env(self@, outcome@) == Ok::<
                    Seq<(Seq<char>, Seq<char>)>,
                    PluginScriptErrorView,
                >(crate::env::vars_view(v@)),
                Err(e) => spec_exec_env(self@, outcome@) == Err::<
                    Seq<(Seq<char>, Seq<char>)>,
                    PluginScriptErrorView,
                >(e@),
            },
    {
        match outcome {
            ScriptOutcome::Missing => {
                let r: Vec<(String, String)> = Vec::new();
                proof {
                    assert(crate::env::vars_view(r@) =~= Seq::<(Seq<char>, Seq<char>)>::empty());
                }
                Ok(r)
            },
            ScriptOutcome::Completed { success, output } => {
                if !*success {
                    return Err(PluginScriptError::ScriptFailed(output.clone()));
                }
                Ok(parse_kv_lines(output.as_str()))
            },
        }
    }

    /// The PATH entries a version contributes: the `list-bin-paths` tokens
    /// joined under the version directory, or the default `bin/` subtree
    /// (the install tree itself when there is no `bin/`).
    pub fn list_bin_paths(
        &self,
        version: &Version,
        outcome: &ScriptOutcome,
        bin_dir_exists: bool,
    ) -> (r: Result<Vec<String>, PluginScriptError>)
        ensures
            match r {
                Ok(v) => spec_bin_paths(self@, version@, outcome@, bin_dir_exists) == Ok::<
                    Seq<Seq<char>>,
                    PluginScriptErrorView,
                >(crate::env::paths_view(v@)),
                Err(e) => spec_bin_paths(self@, version@, outcome@, bin_dir_exists) == Err::<
                    Seq<Seq<char>>,
                    PluginScriptErrorView,
                >(e@),
            },
    {
        let vdir = self.version_install_dir(version);
        match outcome {
            ScriptOutcome::Missing => {
                let mut r: Vec<String> = Vec::new();
                if bin_dir_exists {
                    r.push(path_join(vdir.as_str(), "bin"));
                } else {
                    r.push(vdir);
                }
                proof {
                    assert(crate::env::paths_view(r@) =~= spec_bin_paths(
                        self@,
                        version@,
                        outcome@,
                        bin_dir_exists,
                    )->Ok_0);
                }
                Ok(r)
            },
            ScriptOutcome::Completed { success, output } => {
                if !*success {
                    return Err(PluginScriptError::ScriptFailed(output.clone()));
                }
                let toks = parse_ws_list(output.as_str());
                let ghost tv = spec_ws_list(output@);
                let mut r: Vec<String> = Vec::new();
                let mut i: usize = 0;
                while i < toks.len()
                    invariant
                        i <= toks.len(),
                        tv == crate::env::paths_view(toks@),
                        vdir@ == spec_path_join(self@.install_dir, spec_version_str(version@)),
                        r@.len() == i,
                        forall|k: int|
                            0 <= k < i ==> (#[trigger] r@[k])@ == spec_path_join(vdir@, tv[k]),
                    decreases toks.len() - i,
                {
                    r.push(path_join(vdir.as_str(), toks[i].as_str()));
                    i = i + 1;
                }
                proof {
                    assert(crate::env::paths_view(r@) =~= tv.map_values(
                        |t: Seq<char>| spec_path_join(vdir@, t),
                    ));
                }
                Ok(r)
            },
        }
    }

    /// The environment a selected version contributes: its hook variables
    /// and its PATH entries, composed into one environment.
    pub fn get_env(
        &self,
        version: &Version,
        exec_env_outcome: &ScriptOutcome,
        bin_outcome: &ScriptOutcome,
        bin_dir_exists: bool,
    ) -> (r: Result<Env, PluginScriptError>)
        ensures
            match r {
                Ok(e) => spec_plugin_env(self@, version@, exec_env_outcome@, bin_outcome@, bin_dir_exists)
                    == Ok::<EnvView, PluginScriptErrorView>(e@) && crate::env::env_wf(e@),
                Err(er) => spec_plugin_env(
                    self@,
                    version@,
                    exec_env_outcome@,
                    bin_outcome@,
                    bin_dir_exists,
                ) == Err::<EnvView, PluginScriptErrorView>(er@),
            },
    {
        let vars = match self.exec_env(version, exec_env_outcome) {
            Ok(v) => v,
            Err(e) => {
                return Err(e);
            },
        };
        let paths = match self.list_bin_paths(version, bin_outcome, bin_dir_exists) {
            Ok(v) => v,
            Err(e) => {
                return Err(e);
            },
        };
        let mut base = Env::new();
        let other = Env { path: paths, vars };
        let ghost ov = other@;
        base.merge(other);
        proof {
            crate::env::lemma_merge_wf(crate::env::empty_env(), ov);
        }
        Ok(base)
    }

    /// The request for an optional `help.<which>` script, with the
    /// version contract variables when a version is in question.
    pub fn help_request(&self, which: &str, version: Option<&Version>) -> (r: ScriptRequest)
        ensures
            r@.path == spec_path_join(self@.plugin_dir, "bin/"@ + ("help."@ + which@)),
            r@.env == (match version {
                Some(v) => seq![
                    ("ASDF_INSTALL_TYPE"@, spec_install_type(v@)),
                    ("ASDF_INSTALL_VERSION"@, spec_version_str(v@)),
                ],
                None => Seq::<(Seq<char>, Seq<char>)>::empty(),
            }),
    {
        let mut script = "help.".to_owned();
        script.append(which);
        proof {
            assert(script@ =~= "help."@ + which@);
        }
        let path = self.bin_script(script.as_str());
        let mut env: Vec<(String, String)> = Vec::new();
        match version {
            Some(v) => {
                env.push(("ASDF_INSTALL_TYPE".to_owned(), v.install_type().to_owned()));
                env.push(("ASDF_INSTALL_VERSION".to_owned(), v.version_str().to_owned()));
                proof {
                    assert(crate::env::vars_view(env@) =~= seq![
                        ("ASDF_INSTALL_TYPE"@, spec_install_type(v@)),
                        ("ASDF_INSTALL_VERSION"@, spec_version_str(v@)),
                    ]);
                }
            },
            None => {
                proof {
                    assert(crate::env::vars_view(env@) =~= Seq::<(Seq<char>, Seq<char>)>::empty());
                }
            },
        }
        ScriptRequest { path, env }
    }

    /// Interpret an optional help script's outcome: a missing script means
    /// the plugin offers no such text.
    pub fn help_result(&self, outcome: &ScriptOutcome) -> (r: Result<
        Option<String>,
        PluginScriptError,
    >)
        ensures
            match r {
                Ok(Some(s)) => outcome@ matches ScriptOutcomeView::Completed { success, output }
                    && success && output == s@,
                Ok(None) => outcome@ is Missing,
                Err(e) => outcome@ matches ScriptOutcomeView::Completed { success, output }
                    && !success && e@ == PluginScriptErrorView::ScriptFailed(output),
            },
    {
        match outcome {
            ScriptOutcome::Missing => Ok(None),
            ScriptOutcome::Completed { success, output } => {
                if *success {
                    Ok(Some(output.clone()))
                } else {
                    Err(PluginScriptError::ScriptFailed(output.clone()))
                }
            },
        }
    }

    /// The hook run after a plugin is added, given its source URL.
    pub fn post_plugin_add(&self, install_url: &str, script_present: bool) -> (r: Option<
        ScriptRequest,
    >)
        ensures
            match r {
                Some(req) => script_present && req@.path == spec_path_join(
                    self@.plugin_dir,
                    "bin/"@ + "post-plugin-add"@,
                ) && req@.env == seq![("ASDF_PLUGIN_SOURCE_URL"@, install_url@)],
                None => !script_present,
            },
    {
        if !script_present {
            return None;
        }
        let path = self.bin_script("post-plugin-add");
        let mut env: Vec<(String, String)> = Vec::new();
        env.push(("ASDF_PLUGIN_SOURCE_URL".to_owned(), install_url.to_owned()));
        let req = ScriptRequest { path, env };
        proof {
            assert(req@.env =~= seq![("ASDF_PLUGIN_SOURCE_URL"@, install_url@)]);
        }
        Some(req)
    }

    /// The hook run after a plugin update, given the previous and new refs.
    pub fn post_plugin_update(&self, prev: &str, post: &str, script_present: bool) -> (r: Option<
        ScriptRequest,
    >)
        ensures
            match r {
                Some(req) => script_present && req@.path == spec_path_join(
                    self@.plugin_dir,
                    "bin/"@ + "post-plugin-update"@,
                ) && req@.env == seq![
                    ("ASDF_PLUGIN_PATH"@, self@.plugin_dir),
                    ("ASDF_PLUGIN_PREV_REF"@, prev@),
                    ("ASDF_PLUGIN_POST_REF"@, post@),
                ],
                None => !script_present,
            },
    {
        if !script_present {
            return None;
        }
        let path = self.bin_script("post-plugin-update");
        let mut env: Vec<(String, String)> = Vec::new();
        env.push(("ASDF_PLUGIN_PATH".to_owned(), self.plugin_dir.clone()));
        env.push(("ASDF_PLUGIN_PREV_REF".to_owned(), prev.to_owned()));
        env.push(("ASDF_PLUGIN_POST_REF".to_owned(), post.to_owned()));
        let req = ScriptRequest { path, env };
        proof {
            assert(req@.env =~= seq![
                ("ASDF_PLUGIN_PATH"@, self@.plugin_dir),
                ("ASDF_PLUGIN_PREV_REF"@, prev@),
                ("ASDF_PLUGIN_POST_REF"@, post@),
            ]);
        }
        Some(req)
    }

    /// The hook run before a plugin is removed.
    pub fn pre_plugin_remove(&self, script_present: bool) -> (r: Option<ScriptRequest>)
        ensures
            match r {
                Some(req) => script_present && req@.path == spec_path_join(
                    self@.plugin_dir,
                    "bin/"@ + "pre-plugin-remove"@,
                ) && req@.env == seq![("ASDF_PLUGIN_PATH"@, self@.plugin_dir)],
                None => !script_present,
            },
    {
        if !script_present {
            return None;
        }
        let path = self.bin_script("pre-plugin-remove");
        let mut env: Vec<(String, String)> = Vec::new();
        env.push(("ASDF_PLUGIN_PATH".to_owned(), self.plugin_dir.clone()));
        let req = ScriptRequest { path, env };
        proof {
            assert(req@.env =~= seq![("ASDF_PLUGIN_PATH"@, self@.plugin_dir)]);
        }
        Some(req)
    }

    /// An external subcommand, forwarded to the plugin's command script.
    pub fn extension(&self, ext: &str, script_present: bool) -> (r: Result<
        ScriptRequest,
        PluginScriptError,
    >)
        ensures
            match r {
                Ok(req) => script_present && req@.path == self@.plugin_dir + "/lib/commands/command-"@
                    + ext@ + ".bash"@ && req@.env == Seq::<(Seq<char>, Seq<char>)>::empty(),
                Err(e) => !script_present && e@ == PluginScriptErrorView::ScriptNotFound(
                    self@.plugin_dir + "/lib/commands/command-"@ + ext@ + ".bash"@,
                ),
            },
    {
        let mut path = self.plugin_dir.clone();
        path.append("/lib/commands/command-");
        path.append(ext);
        path.append(".bash");
        if !script_present {
            return Err(PluginScriptError::ScriptNotFound(path));
        }
        let env: Vec<(String, String)> = Vec::new();
        let req = ScriptRequest { path, env };
        proof {
            assert(req@.env =~= Seq::<(Seq<char>, Seq<char>)>::empty());
        }
        Ok(req)
    }
}

/// Install requested when the version is already present: rejected with
/// VersionAlreadyInstalled, whatever else holds.
pub proof fn lemma_install_rejects_installed(pv: PluginScriptsView, v: VersionView, conc: nat)
    requires
        !(v is System),
    ensures
        spec_install_plan(pv, v, conc, true, true) == Err::<
            Option<ScriptRequestView>,
            PluginScriptErrorView,
        >(
            PluginScriptErrorView::VersionAlreadyInstalled {
                version: spec_render_version(v),
                plugin: pv.name,
            },
        ),
{
}

/// Uninstall requested when the version is not installed: rejected with
/// VersionNotInstalled, whether or not the script exists.
pub proof fn lemma_uninstall_rejects_missing(
    pv: PluginScriptsView,
    v: VersionView,
    script_present: bool,
)
    requires
        !(v is System),
    ensures
        spec_uninstall_plan(pv, v, false, script_present) == Err::<
            Option<ScriptRequestView>,
            PluginScriptErrorView,
        >(
            PluginScriptErrorView::VersionNotInstalled {
                version: spec_render_version(v),
                plugin: pv.name,
            },
        ),
{
}

/// The contract environment for an install.
pub open spec fn spec_install_env(pv: PluginScriptsView, v: VersionView, conc: nat) -> Seq<
    (Seq<char>, Seq<char>),
> {
    seq![
        ("ASDF_INSTALL_TYPE"@, spec_install_type(v)),
        ("ASDF_INSTALL_VERSION"@, spec_version_str(v)),
        ("ASDF_INSTALL_PATH"@, spec_path_join(pv.install_dir, spec_version_str(v))),
        ("ASDF_DOWNLOAD_PATH"@, spec_path_join(pv.download_dir, spec_version_str(v))),
        ("ASDF_CONCURRENCY"@, spec_u64_dec(conc)),
    ]
}

pub open spec fn spec_download_env(pv: PluginScriptsView, v: VersionView) -> Seq<
    (Seq<char>, Seq<char>),
> {
    seq![
        ("ASDF_INSTALL_TYPE"@, spec_install_type(v)),
        ("ASDF_INSTALL_VERSION"@, spec_version_str(v)),
        ("ASDF_INSTALL_PATH"@, spec_path_join(pv.install_dir, spec_version_str(v))),
        ("ASDF_DOWNLOAD_PATH"@, spec_path_join(pv.download_dir, spec_version_str(v))),
    ]
}

pub open spec fn spec_uninstall_env(pv: PluginScriptsView, v: VersionView) -> Seq<
    (Seq<char>, Seq<char>),
> {
    seq![
        ("ASDF_INSTALL_TYPE"@, spec_install_type(v)),
        ("ASDF_INSTALL_VERSION"@, spec_version_str(v)),
        ("ASDF_INSTALL_PATH"@, spec_path_join(pv.install_dir, spec_version_str(v))),
    ]
}

pub open spec fn spec_list_all(pv: PluginScriptsView, o: ScriptOutcomeView) -> Result<
    Seq<Seq<char>>,
    PluginScriptErrorView,
> {
    match spec_script_result(o, spec_path_join(pv.plugin_dir, "bin/"@ + "list-all"@)) {
        Ok(out) => Ok(spec_ws_list(out)),
        Err(e) => Err(e),
    }
}

pub open spec fn spec_latest(pv: PluginScriptsView, o: ScriptOutcomeView) -> Result<
    VersionView,
    PluginScriptErrorView,
> {
    match spec_list_all(pv, o) {
        Ok(l) => if l.len() == 0 {
            Err(PluginScriptErrorView::NoVersionsFound)
        } else {
            Ok(spec_parse_version(l.last()))
        },
        Err(e) => Err(e),
    }
}

pub open spec fn spec_find_version(
    pv: PluginScriptsView,
    q: Seq<char>,
    o: ScriptOutcomeView,
) -> Result<VersionView, PluginScriptErrorView> {
    match spec_parse_version(q) {
        VersionView::Remote(t) => match spec_list_all(pv, o) {
            Ok(l) => if l.contains(t) {
                Ok(VersionView::Remote(t))
            } else {
                Err(PluginScriptErrorView::NoVersionsFound)
            },
            Err(e) => Err(e),
        },
        other => Ok(other),
    }
}

/// The last listed version that is not a prerelease.
pub open spec fn spec_last_stable(l: Seq<Seq<char>>) -> Result<
    VersionView,
    PluginScriptErrorView,
>
    decreases l.len(),
{
    if l.len() == 0 {
        Err(PluginScriptErrorView::NoMatchingVersionsFound("latest-stable"@))
    } else if !spec_is_prerelease(l.last()) {
        Ok(spec_parse_version(l.last()))
    } else {
        spec_last_stable(l.drop_last())
    }
}

pub open spec fn spec_latest_stable(
    pv: PluginScriptsView,
    script_o: ScriptOutcomeView,
    list_o: ScriptOutcomeView,
) -> Result<VersionView, PluginScriptErrorView> {
    match script_o {
        ScriptOutcomeView::Missing => match spec_list_all(pv, list_o) {
            Ok(l) => spec_last_stable(l),
            Err(e) => Err(e),
        },
        ScriptOutcomeView::Completed { success, output } => {
            if success {
                Ok(spec_parse_version(spec_trim(output)))
            } else {
                Err(PluginScriptErrorView::ScriptFailed(output))
            }
        },
    }
}

pub open spec fn spec_resolve(
    pv: PluginScriptsView,
    q: Seq<char>,
    stable_o: ScriptOutcomeView,
    list_o: ScriptOutcomeView,
) -> Result<VersionView, PluginScriptErrorView> {
    if q == "latest"@ {
        spec_latest(pv, list_o)
    } else if q == "latest-stable"@ {
        spec_latest_stable(pv, stable_o, list_o)
    } else {
        spec_find_version(pv, q, list_o)
    }
}

pub open spec fn spec_install_plan(
    pv: PluginScriptsView,
    v: VersionView,
    conc: nat,
    already_installed: bool,
    script_present: bool,
) -> Result<Option<ScriptRequestView>, PluginScriptErrorView> {
    if v is System {
        Ok(None)
    } else if !script_present {
        Err(PluginScriptErrorView::ScriptNotFound(spec_path_join(pv.plugin_dir, "bin/"@ + "install"@)))
    } else if already_installed {
        Err(
            PluginScriptErrorView::VersionAlreadyInstalled {
                version: spec_render_version(v),
                plugin: pv.name,
            },
        )
    } else {
        Ok(
            Some(
                ScriptRequestView {
                    path: spec_path_join(pv.plugin_dir, "bin/"@ + "install"@),
                    env: spec_install_env(pv, v, conc),
                },
            ),
        )
    }
}

pub open spec fn spec_download_plan(
    pv: PluginScriptsView,
    v: VersionView,
    already_installed: bool,
    script_present: bool,
) -> Result<Option<ScriptRequestView>, PluginScriptErrorView> {
    if v is System {
        Ok(None)
    } else if !script_present {
        Ok(None)
    } else if already_installed {
        Err(
            PluginScriptErrorView::VersionAlreadyInstalled {
                version: spec_render_version(v),
                plugin: pv.name,
            },
        )
    } else {
        Ok(
            Some(
                ScriptRequestView {
                    path: spec_path_join(pv.plugin_dir, "bin/"@ + "download"@),
                    env: spec_download_env(pv, v),
                },
            ),
        )
    }
}

pub open spec fn spec_uninstall_plan(
    pv: PluginScriptsView,
    v: VersionView,
    installed: bool,
    script_present: bool,
) -> Result<Option<ScriptRequestView>, PluginScriptErrorView> {
    if v is System {
        Ok(None)
    } else if !installed {
        Err(
            PluginScriptErrorView::VersionNotInstalled {
                version: spec_render_version(v),
                plugin: pv.name,
            },
        )
    } else if !script_present {
        Err(
            PluginScriptErrorView::ScriptNotFound(
                spec_path_join(pv.plugin_dir, "bin/"@ + "uninstall"@),
            ),
        )
    } else {
        Ok(
            Some(
                ScriptRequestView {
                    path: spec_path_join(pv.plugin_dir, "bin/"@ + "uninstall"@),
                    env: spec_uninstall_env(pv, v),
                },
            ),
        )
    }
}

/// The first position where `p` starts in `s`, or -1 when it never does.
pub open spec fn spec_find_sub(s: Seq<char>, p: Seq<char>) -> int
    decreases s.len(),
{
    if p.len() == 0 {
        0
    } else if s.len() < p.len() {
        -1
    } else if s.take(p.len() as int) == p {
        0
    } else {
        let r = spec_find_sub(s.drop_first(), p);
        if r < 0 {
            -1
        } else {
            r + 1
        }
    }
}

pub proof fn lemma_find_sub(s: Seq<char>, p: Seq<char>)
    requires
        p.len() > 0,
    ensures
        -1 <= spec_find_sub(s, p),
        spec_find_sub(s, p) >= 0 ==> spec_find_sub(s, p) + p.len() <= s.len() && s.subrange(
            spec_find_sub(s, p),
            spec_find_sub(s, p) + p.len(),
        ) == p,
        forall|x: int|
            0 <= x < spec_find_sub(s, p) && x + p.len() <= s.len() ==> #[trigger] s.subrange(
                x,
                x + p.len(),
            ) != p,
        spec_find_sub(s, p) == -1 ==> forall|x: int|
            0 <= x && x + p.len() <= s.len() ==> #[trigger] s.subrange(x, x + p.len()) != p,
    decreases s.len(),
{
    if s.len() >= p.len() && s.take(p.len() as int) != p {
        lemma_find_sub(s.drop_first(), p);
        let rd = spec_find_sub(s.drop_first(), p);
        if rd >= 0 {
            assert(s.subrange(rd + 1, rd + 1 + p.len()) =~= s.drop_first().subrange(
                rd,
                rd + p.len(),
            ));
        }
        assert forall|x: int|
            0 <= x < spec_find_sub(s, p) && x + p.len() <= s.len() implies #[trigger] s.subrange(
            x,
            x + p.len(),
        ) != p by {
            if x == 0 {
                assert(s.subrange(0, p.len() as int) =~= s.take(p.len() as int));
            } else {
                assert(s.subrange(x, x + p.len()) =~= s.drop_first().subrange(
                    x - 1,
                    x - 1 + p.len(),
                ));
            }
        }
        if spec_find_sub(s, p) == -1 {
            assert forall|x: int| 0 <= x && x + p.len() <= s.len() implies #[trigger] s.subrange(
                x,
                x + p.len(),
            ) != p by {
                if x == 0 {
                    assert(s.subrange(0, p.len() as int) =~= s.take(p.len() as int));
                } else {
                    assert(s.subrange(x, x + p.len()) =~= s.drop_first().subrange(
                        x - 1,
                        x - 1 + p.len(),
                    ));
                }
            }
        }
    } else if s.len() >= p.len() {
        assert(s.subrange(0, p.len() as int) =~= s.take(p.len() as int));
    }
}

/// The first start position of `p` inside the window `[a, b)` of `cs`.
#[verifier::loop_isolation(false)]
pub fn find_sub_pos(cs: &Vec<char>, a: usize, b: usize, p: &str) -> (r: Option<usize>)
    requires
        a <= b <= cs@.len(),
        p@.len() > 0,
    ensures
        ({
            let f = spec_find_sub(cs@.subrange(a as int, b as int), p@);
            match r {
                Some(i) => a <= i && f == i - a && i + p@.len() <= b,
                None => f == -1,
            }
        }),
{
    let ghost s = cs@.subrange(a as int, b as int);
    let pc = chars_of(p);
    let plen = pc.len();
    if plen > b - a {
        proof {
            lemma_find_sub(s, p@);
            if spec_find_sub(s, p@) >= 0 {
                assert(s.subrange(
                    spec_find_sub(s, p@),
                    spec_find_sub(s, p@) + p@.len(),
                ) == p@);
            }
        }
        return None;
    }
    let mut i: usize = a;
    while i <= b - plen
        invariant
            a <= i <= b - plen + 1,
            plen == p@.len(),
            plen <= b - a,
            s == cs@.subrange(a as int, b as int),
            forall|x: int|
                0 <= x < i - a ==> #[trigger] s.subrange(x, x + p@.len()) != p@,
        decreases b - plen - i + 1,
    {
        let mut j: usize = 0;
        let mut matched = true;
        while j < plen
            invariant
                a <= i,
                i + plen <= b,
                j <= plen,
                matched == (s.subrange(i - a, i - a + j) =~= p@.take(j as int)),
            decreases plen - j,
        {
            if cs[i + j] != pc[j] {
                matched = false;
                proof {
                    assert(s.subrange(i - a, i - a + j + 1)[j as int] == s[i - a + j]);
                    assert(s[i - a + j] == cs@[i + j]);
                    assert(p@.take(j + 1)[j as int] == p@[j as int]);
                    assert(s.subrange(i - a, i - a + j + 1) != p@.take(j + 1));
                }
                j = plen;
            } else {
                proof {
                    if matched {
                        assert(s.subrange(i - a, i - a + j + 1) =~= s.subrange(
                            i - a,
                            i - a + j,
                        ).push(s[i - a + j]));
                        assert(p@.take(j + 1) =~= p@.take(j as int).push(p@[j as int]));
                        assert(s[i - a + j] == cs@[i + j]);
                    } else {
                        assert(s.subrange(i - a, i - a + j) != p@.take(j as int));
                        assert(s.subrange(i - a, i - a + j + 1).take(j as int) =~= s.subrange(
                            i - a,
                            i - a + j,
                        ));
                        assert(p@.take(j + 1).take(j as int) =~= p@.take(j as int));
                        assert(s.subrange(i - a, i - a + j + 1) != p@.take(j + 1));
                    }
                }
                j = j + 1;
            }
        }
        proof {
            assert(p@.take(plen as int) =~= p@);
        }
        if matched {
            proof {
                lemma_find_sub(s, p@);
                assert(s.subrange(i - a, i - a + p@.len()) == p@);
            }
            return Some(i);
        }
        i = i + 1;
    }
    proof {
        lemma_find_sub(s, p@);
        if spec_find_sub(s, p@) >= 0 {
            assert(s.subrange(spec_find_sub(s, p@), spec_find_sub(s, p@) + p@.len()) == p@);
        }
    }
    None
}

/// Replace every occurrence of `p` by `rep`, scanning left to right and
/// resuming after the replacement.
pub open spec fn spec_replace_all(s: Seq<char>, p: Seq<char>, rep: Seq<char>) -> Seq<char>
    decreases s.len(),
{
    let i = spec_find_sub(s, p);
    if p.len() == 0 || i < 0 || i + p.len() > s.len() {
        s
    } else {
        s.take(i) + rep + spec_replace_all(s.skip(i + p.len()), p, rep)
    }
}

/// When `s` does not start with `p`, the replacement keeps the head.
proof fn lemma_replace_nomatch(s: Seq<char>, p: Seq<char>, rep: Seq<char>)
    requires
        s.len() > 0,
        p.len() > 0,
        !(s.len() >= p.len() && s.take(p.len() as int) == p),
    ensures
        spec_replace_all(s, p, rep) == seq![s[0]] + spec_replace_all(s.drop_first(), p, rep),
{
    let i = spec_find_sub(s, p);
    lemma_find_sub(s, p);
    lemma_find_sub(s.drop_first(), p);
    let fd = spec_find_sub(s.drop_first(), p);
    if i < 0 {
        assert(fd < 0);
        assert(seq![s[0]] + s.drop_first() =~= s);
    } else {
        assert(i == fd + 1);
        assert(s.take(i) =~= seq![s[0]] + s.drop_first().take(fd));
        assert(s.skip(i + p.len()) =~= s.drop_first().skip(fd + p.len()));
        let x = spec_replace_all(s.drop_first().skip(fd + p.len()), p, rep);
        assert((seq![s[0]] + s.drop_first().take(fd)) + rep + x =~= seq![s[0]] + ((s.drop_first().take(
            fd,
        )) + rep + x));
    }
}

/// The rewrite behind the `exec-env` echo trick: every `export ` becomes
/// `echo `, so the rewritten script prints what the original exports.
#[verifier::loop_isolation(false)]
pub fn rewrite_exec_env(script: &str) -> (r: String)
    ensures
        r@ == spec_replace_all(script@, "export "@, "echo "@),
{
    let cs = chars_of(script);
    let n = cs.len();
    let pat = chars_of("export ");
    let plen = pat.len();
    proof {
        reveal_strlit("export ");
        assert(plen == 7);
    }
    let mut out = String::new();
    let mut pos: usize = 0;
    proof {
        assert(cs@.subrange(0, n as int) =~= script@);
    }
    while pos < n
        invariant
            pos <= n,
            spec_replace_all(script@, "export "@, "echo "@) == out@ + spec_replace_all(
                cs@.subrange(pos as int, n as int),
                "export "@,
                "echo "@,
            ),
        decreases n - pos,
    {
        let ghost rest = cs@.subrange(pos as int, n as int);
        let mut matched = plen <= n && pos <= n - plen;
        if matched {
            let mut j: usize = 0;
            while j < plen
                invariant
                    pos + plen <= n,
                    j <= plen,
                    matched == (rest.take(j as int) =~= pat@.take(j as int)),
                decreases plen - j,
            {
                if cs[pos + j] != pat[j] {
                    matched = false;
                    proof {
                        assert(rest.take(j + 1)[j as int] == rest[j as int]);
                        assert(pat@.take(j + 1)[j as int] == pat@[j as int]);
                        assert(rest[j as int] == cs@[pos + j]);
                        assert(rest.take(j + 1) != pat@.take(j + 1));
                    }
                    j = plen;
                } else {
                    proof {
                        if matched {
                            assert(rest.take(j + 1) =~= rest.take(j as int).push(rest[j as int]));
                            assert(pat@.take(j + 1) =~= pat@.take(j as int).push(pat@[j as int]));
                            assert(rest[j as int] == cs@[pos + j]);
                        } else {
                            assert(rest.take(j as int) != pat@.take(j as int));
                            assert(rest.take(j + 1).take(j as int) =~= rest.take(j as int));
                            assert(pat@.take(j + 1).take(j as int) =~= pat@.take(j as int));
                            assert(rest.take(j + 1) != pat@.take(j + 1));
                        }
                    }
                    j = j + 1;
                }
            }
        }
        if matched {
            proof {
                assert(rest.take(plen as int) =~= pat@.take(plen as int));
                assert(pat@.take(plen as int) =~= "export "@);
                assert(spec_find_sub(rest, "export "@) == 0);
                assert(spec_replace_all(rest, "export "@, "echo "@) == rest.take(0) + "echo "@
                    + spec_replace_all(rest.skip("export "@.len() as int), "export "@, "echo "@));
                assert(rest.skip("export "@.len() as int) =~= cs@.subrange(
                    pos + plen,
                    n as int,
                ));
                assert(rest.take(0) + "echo "@ + spec_replace_all(
                    cs@.subrange(pos + plen, n as int),
                    "export "@,
                    "echo "@,
                ) =~= "echo "@ + spec_replace_all(
                    cs@.subrange(pos + plen, n as int),
                    "export "@,
                    "echo "@,
                ));
            }
            out.append("echo ");
            pos = pos + plen;
        } else {
            proof {
                if pos + plen <= n {
                    assert(rest.take(plen as int) != pat@.take(plen as int));
                    assert(pat@.take(plen as int) =~= "export "@);
                } else {
                    assert(rest.len() < "export "@.len());
                }
                lemma_replace_nomatch(rest, "export "@, "echo "@);
                assert(rest[0] == cs@[pos as int]);
                assert(rest.drop_first() =~= cs@.subrange(pos + 1, n as int));
            }
            out.push(cs[pos]);
            pos = pos + 1;
        }
    }
    proof {
        assert(cs@.subrange(n as int, n as int).len() == 0);
        assert(spec_find_sub(cs@.subrange(n as int, n as int), "export "@) == -1);
        assert(out@ + cs@.subrange(n as int, n as int) =~= out@);
    }
    out
}

/// The fixed denylist of environment keys excluded from diffing: the
/// reserved bootstrap variables, the script contract variables, PATH
/// (handled separately), and shell-internal variables that change without
/// affecting the environment.
pub open spec fn spec_ignored_env_var(k: Seq<char>) -> bool {
    ||| k == "QWER_STATE"@
    ||| k == "QWER_PREV"@
    ||| k == "QWER_CURRENT"@
    ||| k == "ASDF_INSTALL_TYPE"@
    ||| k == "ASDF_INSTALL_VERSION"@
    ||| k == "ASDF_INSTALL_PATH"@
    ||| k == "ASDF_DOWNLOAD_PATH"@
    ||| k == "ASDF_CONCURRENCY"@
    ||| k == "ASDF_PLUGIN_PATH"@
    ||| k == "ASDF_PLUGIN_PREV_REF"@
    ||| k == "ASDF_PLUGIN_POST_REF"@
    ||| k == "ASDF_PLUGIN_SOURCE_URL"@
    ||| k == "PATH"@
    ||| k == "COMP_WORDBREAKS"@
    ||| k == "PS1"@
    ||| k == "SHLVL"@
    ||| k == "SHELLOPTS"@
    ||| k == "SHELL"@
    ||| k == "PWD"@
    ||| k == "OLDPWD"@
    ||| k == "_"@
}

pub fn is_ignored_env_var(k: &str) -> (r: bool)
    ensures
        r == spec_ignored_env_var(k@),
{
    str_eq(k, "QWER_STATE") || str_eq(k, "QWER_PREV") || str_eq(k, "QWER_CURRENT") || str_eq(
        k,
        "ASDF_INSTALL_TYPE",
    ) || str_eq(k, "ASDF_INSTALL_VERSION") || str_eq(k, "ASDF_INSTALL_PATH") || str_eq(
        k,
        "ASDF_DOWNLOAD_PATH",
    ) || str_eq(k, "ASDF_CONCURRENCY") || str_eq(k, "ASDF_PLUGIN_PATH") || str_eq(
        k,
        "ASDF_PLUGIN_PREV_REF",
    ) || str_eq(k, "ASDF_PLUGIN_POST_REF") || str_eq(k, "ASDF_PLUGIN_SOURCE_URL") || str_eq(
        k,
        "PATH",
    ) || str_eq(k, "COMP_WORDBREAKS") || str_eq(k, "PS1") || str_eq(k, "SHLVL") || str_eq(
        k,
        "SHELLOPTS",
    ) || str_eq(k, "SHELL") || str_eq(k, "PWD") || str_eq(k, "OLDPWD") || str_eq(k, "_")
}

/// The text before the first blank line.
pub open spec fn spec_first_block(s: Seq<char>) -> Seq<char> {
    let i = spec_find_sub(s, "\n\n"@);
    if i < 0 || i + 2 > s.len() {
        s
    } else {
        s.take(i)
    }
}

/// The text after the last blank line.
pub open spec fn spec_last_block(s: Seq<char>) -> Seq<char>
    decreases s.len(),
{
    let i = spec_find_sub(s, "\n\n"@);
    if i < 0 || i + 2 > s.len() {
        s
    } else {
        spec_last_block(s.skip(i + 2))
    }
}

/// The lines of the second dump that the first dump lacks, as KEY=VALUE
/// pairs with the denylisted keys dropped.
pub open spec fn spec_diff_lines(
    after: Seq<Seq<char>>,
    before: Seq<Seq<char>>,
) -> Seq<(Seq<char>, Seq<char>)>
    decreases after.len(),
{
    if after.len() == 0 {
        Seq::empty()
    } else {
        let rest = spec_diff_lines(after.drop_first(), before);
        let l = after[0];
        if before.contains(l) {
            rest
        } else {
            let j = spec_find(l, '=');
            if j < 0 {
                rest
            } else if spec_ignored_env_var(l.take(j)) {
                rest
            } else {
                seq![(l.take(j), l.skip(j + 1))] + rest
            }
        }
    }
}

/// The environment difference between two `env` dumps separated by a
/// blank line: what the sourced hook added or changed.
pub open spec fn spec_env_diff(out: Seq<char>) -> Seq<(Seq<char>, Seq<char>)> {
    spec_diff_lines(
        spec_split(spec_trim(spec_last_block(out)), '\n'),
        spec_split(spec_trim(spec_first_block(out)), '\n'),
    )
}

impl PluginScripts {
    /// The diff fallback for `exec-env` hooks: the caller dumps the
    /// environment, sources the hook, and dumps it again with a blank line
    /// between the dumps; the lines that appeared are the hook's exports.
    #[verifier::loop_isolation(false)]
    #[verifier::rlimit(100)]
    #[verifier::spinoff_prover]
    pub fn exec_env_diff(&self, output: &str) -> (r: Vec<(String, String)>)
        ensures
            crate::env::vars_view(r@) == spec_env_diff(output@),
    {
        let cs = chars_of(output);
        let n = cs.len();
        proof {
            assert(cs@.subrange(0, n as int) =~= output@);
            reveal_strlit("\n\n");
        }
        let fb_end = match find_sub_pos(&cs, 0, n, "\n\n") {
            Some(i) => i,
            None => n,
        };
        let ghost first = spec_first_block(output@);
        proof {
            assert(first =~= cs@.subrange(0, fb_end as int));
        }
        let mut lb_start: usize = 0;
        proof {
            assert(cs@.subrange(0, n as int) =~= output@);
        }
        loop
            invariant
                lb_start <= n,
                spec_last_block(output@) == spec_last_block(
                    cs@.subrange(lb_start as int, n as int),
                ),
            decreases n - lb_start,
        {
            let ghost rest = cs@.subrange(lb_start as int, n as int);
            match find_sub_pos(&cs, lb_start, n, "\n\n") {
                Some(i) => {
                    proof {
                        assert(rest.skip(spec_find_sub(rest, "\n\n"@) + 2) =~= cs@.subrange(
                            i + 2,
                            n as int,
                        ));
                    }
                    lb_start = i + 2;
                },
                None => {
                    break ;
                },
            }
        }
        let ghost last = spec_last_block(output@);
        proof {
            assert(last =~= cs@.subrange(lb_start as int, n as int));
        }
        let (fa, fb2) = trim_range(&cs, 0, fb_end);
        let (la, lb2) = trim_range(&cs, lb_start, n);
        let before_ws = split_windows(&cs, fa, fb2, '\n');
        let after_ws = split_windows(&cs, la, lb2, '\n');
        let ghost before_lines_v = spec_split(spec_trim(first), '\n');
        let ghost after_lines_v = spec_split(spec_trim(last), '\n');
        // Materialise the first dump's lines for membership checks.
        let mut before_lines: Vec<String> = Vec::new();
        let mut bi: usize = 0;
        proof {
            assert(crate::env::paths_view(before_lines@) =~= before_lines_v.take(0));
        }
        while bi < before_ws.len()
            invariant
                bi <= before_ws.len(),
                windows_view(cs@, before_ws@) == before_lines_v,
                forall|k: int|
                    0 <= k < before_ws@.len() ==> 0 <= (#[trigger] before_ws@[k]).0
                        <= before_ws@[k].1 <= cs@.len(),
                crate::env::paths_view(before_lines@) == before_lines_v.take(bi as int),
            decreases before_ws.len() - bi,
        {
            let (wa, wb) = before_ws[bi];
            before_lines.push(string_from_range(&cs, wa, wb));
            proof {
                assert(before_lines_v[bi as int] == windows_view(cs@, before_ws@)[bi as int]);
                assert(before_lines_v.take(bi + 1) =~= before_lines_v.take(bi as int).push(
                    before_lines_v[bi as int],
                ));
                assert(crate::env::paths_view(before_lines@) =~= before_lines_v.take(bi + 1));
            }
            bi = bi + 1;
        }
        proof {
            assert(before_lines_v.take(before_ws@.len() as int) =~= before_lines_v);
        }
        // Walk the second dump's lines.
        let mut r: Vec<(String, String)> = Vec::new();
        let mut q: usize = 0;
        proof {
            assert(after_lines_v.skip(0) =~= after_lines_v);
            assert(crate::env::vars_view(r@) =~= Seq::<(Seq<char>, Seq<char>)>::empty());
        }
        while q < after_ws.len()
            invariant
                q <= after_ws.len(),
                windows_view(cs@, after_ws@) == after_lines_v,
                forall|k: int|
                    0 <= k < after_ws@.len() ==> 0 <= (#[trigger] after_ws@[k]).0
                        <= after_ws@[k].1 <= cs@.len(),
                crate::env::paths_view(before_lines@) == before_lines_v,
                spec_diff_lines(after_lines_v, before_lines_v) == crate::env::vars_view(r@)
                    + spec_diff_lines(after_lines_v.skip(q as int), before_lines_v),
            decreases after_ws.len() - q,
        {
            let (wa, wb) = after_ws[q];
            let ghost l = after_lines_v[q as int];
            proof {
                assert(l == windows_view(cs@, after_ws@)[q as int]);
                assert(after_lines_v.skip(q as int)[0] == l);
                assert(after_lines_v.skip(q as int).drop_first() =~= after_lines_v.skip(q + 1));
            }
            let line = string_from_range(&cs, wa, wb);
            if !crate::shell::contains_string(&before_lines, line.as_str()) {
                match find_char(&cs, wa, wb, '=') {
                    Some(eq) => {
                        proof {
                            crate::strutil::lemma_find(l, '=');
                            assert(l.take(spec_find(l, '=')) =~= cs@.subrange(
                                wa as int,
                                eq as int,
                            ));
                            assert(l.skip(spec_find(l, '=') + 1) =~= cs@.subrange(
                                eq + 1,
                                wb as int,
                            ));
                        }
                        let key = string_from_range(&cs, wa, eq);
                        if !is_ignored_env_var(key.as_str()) {
                            let val = string_from_range(&cs, eq + 1, wb);
                            let ghost r0 = crate::env::vars_view(r@);
                            r.push((key, val));
                            proof {
                                assert(crate::env::vars_view(r@) =~= r0.push(
                                    (l.take(spec_find(l, '=')), l.skip(spec_find(l, '=') + 1)),
                                ));
                                assert(r0 + spec_diff_lines(
                                    after_lines_v.skip(q as int),
                                    before_lines_v,
                                ) =~= crate::env::vars_view(r@) + spec_diff_lines(
                                    after_lines_v.skip(q + 1),
                                    before_lines_v,
                                ));
                            }
                        }
                    },
                    None => {
                        proof {
                            crate::strutil::lemma_find(l, '=');
                        }
                    },
                }
            }
            q = q + 1;
        }
        proof {
            assert(after_lines_v.skip(after_ws@.len() as int) =~= Seq::<Seq<char>>::empty());
            assert(crate::env::vars_view(r@) + Seq::<(Seq<char>, Seq<char>)>::empty()
                =~= crate::env::vars_view(r@));
        }
        r
    }
}


/// The command name the first `k` subcommand words select.
pub open spec fn spec_ext_candidate(args: Seq<Seq<char>>, k: int) -> Seq<char> {
    "command-"@ + crate::strutil::spec_join(args.take(k), '-')
}

/// The longest prefix of the words, joined with `-` behind the `command`
/// stem, that names a command the plugin offers.
pub open spec fn spec_match_extension(
    args: Seq<Seq<char>>,
    commands: Seq<Seq<char>>,
    k: int,
) -> Option<(Seq<char>, int)>
    decreases k,
{
    if k <= 0 {
        None
    } else if commands.contains(spec_ext_candidate(args, k)) {
        Some((spec_ext_candidate(args, k), k))
    } else {
        spec_match_extension(args, commands, k - 1)
    }
}

/// Match an external subcommand against the plugin's command scripts:
/// the longest word prefix wins, and the returned count says how many
/// words the command name consumed.
#[verifier::loop_isolation(false)]
pub fn match_extension(args: &Vec<String>, commands: &Vec<String>) -> (r: Option<(String, usize)>)
    ensures
        ({
            let m = spec_match_extension(
                crate::env::paths_view(args@),
                crate::env::paths_view(commands@),
                args@.len() as int,
            );
            match r {
                Some(p) => m == Some((p.0@, p.1 as int)),
                None => m is None,
            }
        }),
{
    let ghost av = crate::env::paths_view(args@);
    let ghost cv = crate::env::paths_view(commands@);
    let mut k: usize = args.len();
    while k > 0
        invariant
            k <= args.len(),
            spec_match_extension(av, cv, args@.len() as int) == spec_match_extension(
                av,
                cv,
                k as int,
            ),
        decreases k,
    {
        // Build the candidate name for the first k words.
        let mut cand = "command".to_owned();
        proof {
            reveal_strlit("command");
            reveal_strlit("command-");
        }
        let mut i: usize = 0;
        while i < k
            invariant
                i <= k <= args.len(),
                i == 0 ==> cand@ == "command"@,
                i >= 1 ==> cand@ == "command-"@ + crate::strutil::spec_join(
                    av.take(i as int),
                    '-',
                ),
            decreases k - i,
        {
            cand.push('-');
            cand.append(args[i].as_str());
            proof {
                assert(av.take(i + 1) =~= av.take(i as int).push(av[i as int]));
                crate::strutil::lemma_join_push(av.take(i as int), av[i as int], '-');
                if i == 0 {
                    reveal_strlit("command");
                    reveal_strlit("command-");
                    assert(av.take(0) =~= Seq::<Seq<char>>::empty());
                    assert(crate::strutil::spec_join(av.take(1), '-') == av[0]);
                    assert(cand@ =~= "command-"@ + crate::strutil::spec_join(av.take(1), '-'));
                } else {
                    assert(cand@ =~= "command-"@ + crate::strutil::spec_join(av.take(i + 1), '-'));
                }
            }
            i = i + 1;
        }
        proof {
            assert(cand@ == spec_ext_candidate(av, k as int));
        }
        if crate::shell::contains_string(commands, cand.as_str()) {
            return Some((cand, k));
        }
        k = k - 1;
    }
    None
}

/// KEY=VALUE pairs, one per line; lines without `=` are dropped.
pub open spec fn spec_kv_lines(lines: Seq<Seq<char>>) -> Seq<(Seq<char>, Seq<char>)>
    decreases lines.len(),
{
    if lines.len() == 0 {
        Seq::empty()
    } else {
        let rest = spec_kv_lines(lines.drop_first());
        let j = spec_find(lines[0], '=');
        if j < 0 {
            rest
        } else {
            seq![(lines[0].take(j), lines[0].skip(j + 1))] + rest
        }
    }
}

pub open spec fn spec_kv_pairs(out: Seq<char>) -> Seq<(Seq<char>, Seq<char>)> {
    spec_kv_lines(spec_split(out, '\n'))
}

pub open spec fn spec_exec_env(pv: PluginScriptsView, o: ScriptOutcomeView) -> Result<
    Seq<(Seq<char>, Seq<char>)>,
    PluginScriptErrorView,
> {
    match o {
        ScriptOutcomeView::Missing => Ok(Seq::empty()),
        ScriptOutcomeView::Completed { success, output } => {
            if success {
                Ok(spec_kv_pairs(output))
            } else {
                Err(PluginScriptErrorView::ScriptFailed(output))
            }
        },
    }
}

pub open spec fn spec_bin_paths(
    pv: PluginScriptsView,
    v: VersionView,
    o: ScriptOutcomeView,
    bin_dir_exists: bool,
) -> Result<Seq<Seq<char>>, PluginScriptErrorView> {
    let vdir = spec_path_join(pv.install_dir, spec_version_str(v));
    match o {
        ScriptOutcomeView::Missing => Ok(
            if bin_dir_exists {
                seq![spec_path_join(vdir, "bin"@)]
            } else {
                seq![vdir]
            },
        ),
        ScriptOutcomeView::Completed { success, output } => {
            if success {
                Ok(spec_ws_list(output).map_values(|t: Seq<char>| spec_path_join(vdir, t)))
            } else {
                Err(PluginScriptErrorView::ScriptFailed(output))
            }
        },
    }
}

/// The environment one plugin/version pair contributes: its hook
/// variables merged into the empty environment, then its PATH entries.
pub open spec fn spec_plugin_env(
    pv: PluginScriptsView,
    v: VersionView,
    exec_o: ScriptOutcomeView,
    bin_o: ScriptOutcomeView,
    bin_dir_exists: bool,
) -> Result<EnvView, PluginScriptErrorView> {
    match spec_exec_env(pv, exec_o) {
        Err(e) => Err(e),
        Ok(vars) => match spec_bin_paths(pv, v, bin_o, bin_dir_exists) {
            Err(e) => Err(e),
            Ok(paths) => Ok(
                crate::env::spec_env_merge(
                    crate::env::empty_env(),
                    EnvView { path: paths, vars },
                ),
            ),
        },
    }
}

/// Parse KEY=VALUE lines, executable form.
pub fn parse_kv_lines(out: &str) -> (r: Vec<(String, String)>)
    ensures
        crate::env::vars_view(r@) == spec_kv_pairs(out@),
{
    let cs = chars_of(out);
    let n = cs.len();
    let ws = split_windows(&cs, 0, n, '\n');
    let ghost lines = spec_split(out@, '\n');
    proof {
        assert(cs@.subrange(0, n as int) =~= out@);
    }
    let mut r: Vec<(String, String)> = Vec::new();
    let mut i: usize = 0;
    proof {
        assert(lines.skip(0) =~= lines);
        assert(crate::env::vars_view(r@) =~= Seq::<(Seq<char>, Seq<char>)>::empty());
    }
    while i < ws.len()
        invariant
            i <= ws.len(),
            cs@ == out@,
            lines == spec_split(out@, '\n'),
            windows_view(cs@, ws@) == lines,
            forall|k: int| 0 <= k < ws@.len() ==> 0 <= (#[trigger] ws@[k]).0 <= ws@[k].1 <= cs@.len(),
            spec_kv_lines(lines) == crate::env::vars_view(r@) + spec_kv_lines(
                lines.skip(i as int),
            ),
        decreases ws.len() - i,
    {
        let (wa, wb) = ws[i];
        let ghost line = lines[i as int];
        proof {
            assert(line == windows_view(cs@, ws@)[i as int]);
            assert(lines.skip(i as int)[0] == line);
            assert(lines.skip(i as int).drop_first() =~= lines.skip(i + 1));
        }
        match find_char(&cs, wa, wb, '=') {
            Some(eq) => {
                let k = string_from_range(&cs, wa, eq);
                let v = string_from_range(&cs, eq + 1, wb);
                proof {
                    crate::strutil::lemma_find(line, '=');
                    assert(line.take(spec_find(line, '=')) =~= cs@.subrange(wa as int, eq as int));
                    assert(line.skip(spec_find(line, '=') + 1) =~= cs@.subrange(
                        eq + 1,
                        wb as int,
                    ));
                }
                let ghost r0 = crate::env::vars_view(r@);
                r.push((k, v));
                proof {
                    assert(crate::env::vars_view(r@) =~= r0.push((k@, v@)));
                    assert(r0 + spec_kv_lines(lines.skip(i as int)) =~= crate::env::vars_view(r@)
                        + spec_kv_lines(lines.skip(i + 1)));
                }
            },
            None => {
                proof {
                    crate::strutil::lemma_find(line, '=');
                }
            },
        }
        i = i + 1;
    }
    proof {
        assert(lines.skip(ws@.len() as int) =~= Seq::<Seq<char>>::empty());
        assert(crate::env::vars_view(r@) + Seq::<(Seq<char>, Seq<char>)>::empty()
            =~= crate::env::vars_view(r@));
    }
    r
}

} // verus!
