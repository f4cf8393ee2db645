use qwer::activate::InstallSet;
use qwer::ops;
use qwer::ops::{InstallError, ShortPluginError};
use qwer::process::progress_tail;
use qwer::scripts::{is_prerelease, PluginScriptError, PluginScripts, ScriptOutcome};
use qwer::versions::{Version, Versions};

fn scripts_for(name: &str) -> PluginScripts {
    let extra: Vec<String> = Vec::new();
    PluginScripts::new(name, "/data/plugins", "/data/installs", "/data/downloads", &extra, None)
}

fn completed(output: &str) -> ScriptOutcome {
    ScriptOutcome::Completed { success: true, output: output.to_owned() }
}

#[test]
fn list_all_splits_on_whitespace() {
    let s = scripts_for("nodejs");
    let all = s.list_all(&completed("  1.0 2.0 3.0-rc1\n")).unwrap();
    assert_eq!(all, vec!["1.0".to_owned(), "2.0".to_owned(), "3.0-rc1".to_owned()]);
    // Runs of any whitespace separate tokens: tabs, newlines, doubled
    // spaces, with no empty tokens.
    let mixed = s.list_all(&completed("1.0\n2.0\t3.0  4.0")).unwrap();
    assert_eq!(
        mixed,
        vec!["1.0".to_owned(), "2.0".to_owned(), "3.0".to_owned(), "4.0".to_owned()]
    );
    let empty = s.list_all(&completed("  \n\t ")).unwrap();
    assert!(empty.is_empty());
}

#[test]
fn list_all_missing_script_fails() {
    let s = scripts_for("nodejs");
    let r = s.list_all(&ScriptOutcome::Missing);
    assert!(matches!(r, Err(PluginScriptError::ScriptNotFound(_))));
}

#[test]
fn list_all_failed_script_carries_output() {
    let s = scripts_for("nodejs");
    let r = s.list_all(&ScriptOutcome::Completed { success: false, output: "boom".to_owned() });
    assert_eq!(r, Err(PluginScriptError::ScriptFailed("boom".to_owned())));
}

#[test]
fn resolve_latest_takes_last() {
    let s = scripts_for("nodejs");
    let v = s
        .resolve("latest", &ScriptOutcome::Missing, &completed("1.0 2.0 3.0"))
        .unwrap();
    assert_eq!(v, Version::Version("3.0".to_owned()));
}

#[test]
fn resolve_exact_must_be_listed() {
    let s = scripts_for("nodejs");
    let ok = s.resolve("2.0", &ScriptOutcome::Missing, &completed("1.0 2.0 3.0"));
    assert_eq!(ok, Ok(Version::Version("2.0".to_owned())));
    let missing = s.resolve("9.9", &ScriptOutcome::Missing, &completed("1.0 2.0 3.0"));
    assert_eq!(missing, Err(PluginScriptError::NoVersionsFound));
    let by_ref = s.resolve("ref:abc", &ScriptOutcome::Missing, &completed("1.0"));
    assert_eq!(by_ref, Ok(Version::Ref("abc".to_owned())));
}

#[test]
fn latest_stable_skips_prereleases() {
    let s = scripts_for("nodejs");
    let v = s
        .latest_stable(&ScriptOutcome::Missing, &completed("1.0 2.0 3.0-rc1 3.0-beta"))
        .unwrap();
    assert_eq!(v, Version::Version("2.0".to_owned()));
}

#[test]
fn latest_stable_with_no_stable_version() {
    let s = scripts_for("nodejs");
    let r = s.latest_stable(&ScriptOutcome::Missing, &completed("1.0-rc1 2.0-beta master"));
    assert_eq!(
        r,
        Err(PluginScriptError::NoMatchingVersionsFound("latest-stable".to_owned()))
    );
}

#[test]
fn latest_stable_script_output_wins() {
    let s = scripts_for("nodejs");
    let v = s.latest_stable(&completed(" 4.2 \n"), &ScriptOutcome::Missing).unwrap();
    assert_eq!(v, Version::Version("4.2".to_owned()));
}

#[test]
fn prerelease_denylist_samples() {
    assert!(is_prerelease("1.0-rc1"));
    assert!(is_prerelease("1.0.rc1"));
    assert!(is_prerelease("7-beta"));
    assert!(is_prerelease("snapshot-2021"));
    assert!(is_prerelease("1.2b3"));
    assert!(!is_prerelease("18.17.1"));
    assert!(!is_prerelease("3.12"));
}

#[test]
fn install_rejects_installed_version() {
    let s = scripts_for("nodejs");
    let v = Version::Version("1.0".to_owned());
    let r = s.install(&v, 4, true, true);
    assert_eq!(
        r,
        Err(PluginScriptError::VersionAlreadyInstalled {
            version: "1.0".to_owned(),
            plugin: "nodejs".to_owned(),
        })
    );
}

#[test]
fn install_request_carries_contract_env() {
    let s = scripts_for("nodejs");
    let v = Version::Version("1.0".to_owned());
    let req = s.install(&v, 4, false, true).unwrap().unwrap();
    assert_eq!(req.path, "/data/plugins/nodejs/bin/install");
    assert_eq!(
        req.env,
        vec![
            ("ASDF_INSTALL_TYPE".to_owned(), "version".to_owned()),
            ("ASDF_INSTALL_VERSION".to_owned(), "1.0".to_owned()),
            ("ASDF_INSTALL_PATH".to_owned(), "/data/installs/nodejs/1.0".to_owned()),
            ("ASDF_DOWNLOAD_PATH".to_owned(), "/data/downloads/nodejs/1.0".to_owned()),
            ("ASDF_CONCURRENCY".to_owned(), "4".to_owned()),
        ]
    );
}

#[test]
fn install_one_version_rejects_system() {
    let s = scripts_for("nodejs");
    let r = ops::install_one_version(&s, &Version::System, 1, false, false, false, true);
    assert!(matches!(r, Err(InstallError::SystemVersion)));
}

#[test]
fn uninstall_missing_version_is_an_error() {
    let s = scripts_for("nodejs");
    let v = Version::Version("1.0".to_owned());
    let r = ops::uninstall(&s, &v, false, true);
    assert!(matches!(r, Err(PluginScriptError::VersionNotInstalled { .. })));
}

#[test]
fn uninstall_without_script_removes_directory() {
    let s = scripts_for("nodejs");
    let v = Version::Version("1.0".to_owned());
    let steps = ops::uninstall(&s, &v, true, false).unwrap();
    assert!(steps.run.is_none());
    assert_eq!(steps.remove_dir, Some("/data/installs/nodejs/1.0".to_owned()));
    assert_eq!(steps.remove_download_dir, "/data/downloads/nodejs/1.0");
}

#[test]
fn exec_env_parses_lines() {
    let s = scripts_for("nodejs");
    let vars = s
        .exec_env(&Version::Version("1.0".to_owned()), &completed("A=1\nnoequals\nB=x=y\n"))
        .unwrap();
    assert_eq!(
        vars,
        vec![("A".to_owned(), "1".to_owned()), ("B".to_owned(), "x=y".to_owned())]
    );
}

#[test]
fn list_bin_paths_defaults_and_joins() {
    let s = scripts_for("nodejs");
    let v = Version::Version("1.0".to_owned());
    let with_bin = s.list_bin_paths(&v, &ScriptOutcome::Missing, true).unwrap();
    assert_eq!(with_bin, vec!["/data/installs/nodejs/1.0/bin".to_owned()]);
    let without_bin = s.list_bin_paths(&v, &ScriptOutcome::Missing, false).unwrap();
    assert_eq!(without_bin, vec!["/data/installs/nodejs/1.0".to_owned()]);
    let scripted = s.list_bin_paths(&v, &completed("bin tools/bin"), true).unwrap();
    assert_eq!(
        scripted,
        vec![
            "/data/installs/nodejs/1.0/bin".to_owned(),
            "/data/installs/nodejs/1.0/tools/bin".to_owned(),
        ]
    );
}

#[test]
fn install_all_sorts_and_skips() {
    let near = Versions::parse("zoo 2\napp 1").unwrap();
    let far = Versions::parse("zoo 9\nmid 5\nsys system").unwrap();
    let installs = InstallSet {
        plugins: vec![("mid".to_owned(), vec!["5".to_owned()])],
    };
    let plan = ops::install_all(&vec![near, far], &installs);
    let names: Vec<&str> = plan.iter().map(|p| p.0.as_str()).collect();
    assert_eq!(names, vec!["app", "zoo"]);
    assert_eq!(plan[1].1, Version::Version("2".to_owned()));
}

#[test]
fn install_one_looks_up_declaration() {
    let files = vec![Versions::parse("nodejs 18").unwrap()];
    let found = ops::install_one(&files, "nodejs").unwrap();
    assert_eq!(found.1, Version::Version("18".to_owned()));
    assert!(ops::install_one(&files, "ruby").is_none());
}

#[test]
fn parse_short_repo_url_formats() {
    assert_eq!(ops::parse_short_repo_url("repository = bar"), Ok("bar".to_owned()));
    let r = ops::parse_short_repo_url("invalid format");
    assert!(matches!(r, Err(ShortPluginError::InvalidFile(_))));
    let r2 = ops::parse_short_repo_url("repository = a = b");
    assert!(matches!(r2, Err(ShortPluginError::InvalidFile(_))));
}

#[test]
fn add_decides_source() {
    assert!(ops::add("foo", None, true, None).is_err());
    assert_eq!(
        ops::add("foo", Some("https://x/y.git".to_owned()), false, None),
        Ok("https://x/y.git".to_owned())
    );
    let contents = "repository = bar".to_owned();
    assert_eq!(ops::add("foo", None, false, Some(&contents)), Ok("bar".to_owned()));
    assert!(matches!(
        ops::add("foo", None, false, None),
        Err(ShortPluginError::NotFound(_))
    ));
}

#[test]
fn use_version_for_dir_pins_installed_versions_only() {
    let mut versions = Versions::parse("a 1").unwrap();
    let ok = ops::use_version_for_dir(
        &mut versions,
        "b".to_owned(),
        Version::Version("2".to_owned()),
        true,
    );
    assert!(ok.is_ok());
    assert_eq!(versions.render(), "a 1\nb 2");
    let err = ops::use_version_for_dir(
        &mut versions,
        "c".to_owned(),
        Version::Version("3".to_owned()),
        false,
    );
    assert!(matches!(err, Err(PluginScriptError::VersionNotInstalled { .. })));
    assert_eq!(versions.render(), "a 1\nb 2");
}

#[test]
fn match_extension_prefers_longest_prefix() {
    let commands = vec![
        "command-set".to_owned(),
        "command-set-remote".to_owned(),
        "command-info".to_owned(),
    ];
    let args = vec!["set".to_owned(), "remote".to_owned(), "origin".to_owned()];
    assert_eq!(
        qwer::scripts::match_extension(&args, &commands),
        Some(("command-set-remote".to_owned(), 2))
    );
    let args2 = vec!["set".to_owned(), "local".to_owned()];
    assert_eq!(
        qwer::scripts::match_extension(&args2, &commands),
        Some(("command-set".to_owned(), 1))
    );
    let args3 = vec!["nothing".to_owned()];
    assert_eq!(qwer::scripts::match_extension(&args3, &commands), None);
}

#[test]
fn filtered_versions_keep_prefix_matches() {
    let versions = vec![
        "1.0".to_owned(),
        "1.1".to_owned(),
        "2.0".to_owned(),
        "10.1".to_owned(),
    ];
    assert_eq!(
        ops::get_filtered_versions(&versions, "1"),
        vec!["1.0".to_owned(), "1.1".to_owned(), "10.1".to_owned()]
    );
    assert_eq!(ops::get_filtered_versions(&versions, "2."), vec!["2.0".to_owned()]);
    assert_eq!(ops::get_filtered_versions(&versions, ""), versions);
}

#[test]
fn help_request_and_result() {
    let s = scripts_for("nodejs");
    let v = Version::Version("1.0".to_owned());
    let req = s.help_request("overview", Some(&v));
    assert_eq!(req.path, "/data/plugins/nodejs/bin/help.overview");
    assert_eq!(
        req.env,
        vec![
            ("ASDF_INSTALL_TYPE".to_owned(), "version".to_owned()),
            ("ASDF_INSTALL_VERSION".to_owned(), "1.0".to_owned()),
        ]
    );
    let bare = s.help_request("deps", None);
    assert_eq!(bare.path, "/data/plugins/nodejs/bin/help.deps");
    assert!(bare.env.is_empty());
    assert_eq!(s.help_result(&ScriptOutcome::Missing), Ok(None));
    assert_eq!(s.help_result(&completed("text")), Ok(Some("text".to_owned())));
    assert!(s
        .help_result(&ScriptOutcome::Completed { success: false, output: "x".to_owned() })
        .is_err());
}

#[test]
fn legacy_alias_guard() {
    assert!(ops::assert_running_qwer(false).is_ok());
    assert!(ops::assert_running_qwer(true).is_err());
}

#[test]
fn registry_sync_policy() {
    assert!(ops::registry_needs_sync(0, 3600, false));
    assert!(!ops::registry_needs_sync(100, 200, false));
    assert!(ops::registry_needs_sync(100, 200, true));
    assert!(ops::registry_needs_sync(500, 100, false));
}

#[test]
fn progress_tail_keeps_last_three_nonempty() {
    let lines = vec![
        "one".to_owned(),
        "".to_owned(),
        "two".to_owned(),
        "three".to_owned(),
        "".to_owned(),
        "four".to_owned(),
    ];
    assert_eq!(
        progress_tail(&lines),
        vec!["two".to_owned(), "three".to_owned(), "four".to_owned()]
    );
    let short = vec!["only".to_owned()];
    assert_eq!(progress_tail(&short), vec!["only".to_owned()]);
}

#[test]
fn exec_env_diff_keeps_new_lines_only() {
    let s = scripts_for("nodejs");
    let output = "HOME=/root\nPATH=/usr/bin\nKEEP=old\n\nHOME=/root\nPATH=/usr/bin:/x\nKEEP=old\nNEW=value\nSHLVL=2\nbroken line\n";
    assert_eq!(
        s.exec_env_diff(output),
        vec![("NEW".to_owned(), "value".to_owned())]
    );
}

#[test]
fn rewrite_exec_env_substitutes_exports() {
    let script = "#!/usr/bin/env bash\nexport FOO=1\nexport BAR=$FOO\nre-export X\n";
    assert_eq!(
        qwer::scripts::rewrite_exec_env(script),
        "#!/usr/bin/env bash\necho FOO=1\necho BAR=$FOO\nre-echo X\n"
    );
    assert_eq!(qwer::scripts::rewrite_exec_env(""), "");
}

#[test]
fn hook_requests_have_contract_env() {
    let s = scripts_for("nodejs");
    let req = s.post_plugin_add("https://x/y.git", true).unwrap();
    assert_eq!(req.path, "/data/plugins/nodejs/bin/post-plugin-add");
    assert_eq!(
        req.env,
        vec![("ASDF_PLUGIN_SOURCE_URL".to_owned(), "https://x/y.git".to_owned())]
    );
    assert!(s.post_plugin_add("u", false).is_none());
    let upd = s.post_plugin_update("a", "b", true).unwrap();
    assert_eq!(upd.path, "/data/plugins/nodejs/bin/post-plugin-update");
    let rem = s.pre_plugin_remove(true).unwrap();
    assert_eq!(
        rem.env,
        vec![("ASDF_PLUGIN_PATH".to_owned(), "/data/plugins/nodejs".to_owned())]
    );
}
