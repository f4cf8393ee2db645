use qwer::activate::{
    combine_versions, compose_env, find_current_version, plan_activation, update_env, InstallSet,
    ProcEnv,
};
use qwer::scripts::{PluginScripts, ScriptOutcome};
use qwer::versions::{Version, Versions};

fn nodejs_scripts() -> PluginScripts {
    let extra: Vec<String> = Vec::new();
    PluginScripts::new("nodejs", "/data/plugins", "/data/installs", "/data/downloads", &extra, None)
}

/// Cold shell: one plugin resolved, no previous state.
#[test]
fn activation_cold_shell() {
    let versions = Versions::parse("nodejs 18.17.1").unwrap();
    let installs = InstallSet {
        plugins: vec![("nodejs".to_owned(), vec!["18.17.1".to_owned()])],
    };
    let plan = plan_activation(&versions, &installs);
    assert_eq!(plan.len(), 1);
    assert_eq!(plan[0].0, "nodejs");
    assert_eq!(plan[0].1, Version::Version("18.17.1".to_owned()));

    let scripts = nodejs_scripts();
    let env = scripts
        .get_env(&plan[0].1, &ScriptOutcome::Missing, &ScriptOutcome::Missing, true)
        .unwrap();
    let target = compose_env(&vec![env]).unwrap();
    assert_eq!(target.path, vec!["/data/installs/nodejs/18.17.1/bin".to_owned()]);
    assert!(target.vars.is_empty());

    let penv = ProcEnv { vars: vec![("PATH".to_owned(), "/usr/bin".to_owned())] };
    let st = update_env(Some(&target), &penv).unwrap();
    let script = st.build("/usr/bin", &penv.names());
    let expected = format!(
        "export QWER_STATE={};export QWER_CURRENT={};export PATH=/data/installs/nodejs/18.17.1/bin:/usr/bin;",
        target.hash(),
        target.serialize().unwrap()
    );
    assert_eq!(script, expected);
}

/// Re-running with a matching STATE hash emits nothing.
#[test]
fn activation_idempotent_rerun() {
    let scripts = nodejs_scripts();
    let env = scripts
        .get_env(
            &Version::Version("18.17.1".to_owned()),
            &ScriptOutcome::Missing,
            &ScriptOutcome::Missing,
            true,
        )
        .unwrap();
    let penv = ProcEnv {
        vars: vec![
            ("PATH".to_owned(), "/data/installs/nodejs/18.17.1/bin:/usr/bin".to_owned()),
            ("QWER_STATE".to_owned(), format!("{}", env.hash())),
            ("QWER_CURRENT".to_owned(), env.serialize().unwrap()),
        ],
    };
    let st = update_env(Some(&env), &penv).unwrap();
    assert_eq!(st.build("/data/installs/nodejs/18.17.1/bin:/usr/bin", &penv.names()), "");
}

/// Leaving the directory reverts the applied state and clears the
/// bootstrap variables.
#[test]
fn activation_directory_change_away() {
    let scripts = nodejs_scripts();
    let env = scripts
        .get_env(
            &Version::Version("18.17.1".to_owned()),
            &ScriptOutcome::Missing,
            &ScriptOutcome::Missing,
            true,
        )
        .unwrap();
    let penv = ProcEnv {
        vars: vec![
            ("PATH".to_owned(), "/data/installs/nodejs/18.17.1/bin:/usr/bin".to_owned()),
            ("QWER_STATE".to_owned(), format!("{}", env.hash())),
            ("QWER_CURRENT".to_owned(), env.serialize().unwrap()),
        ],
    };
    let st = update_env(None, &penv).unwrap();
    let script = st.build("/data/installs/nodejs/18.17.1/bin:/usr/bin", &penv.names());
    assert_eq!(script, "unset QWER_STATE;unset QWER_CURRENT;export PATH=/usr/bin;");
}

/// An overwritten variable is recorded in PREV and restored on revert.
#[test]
fn activation_records_and_restores_prev() {
    let mut target = qwer::env::Env::new();
    target.set_var("TOOL_HOME".to_owned(), "/data/tool".to_owned());
    let penv = ProcEnv {
        vars: vec![
            ("PATH".to_owned(), "/usr/bin".to_owned()),
            ("TOOL_HOME".to_owned(), "/somewhere/else".to_owned()),
        ],
    };
    let st = update_env(Some(&target), &penv).unwrap();
    let script = st.build("/usr/bin", &penv.names());
    let mut prev = qwer::env::Env::new();
    prev.set_var("TOOL_HOME".to_owned(), "/somewhere/else".to_owned());
    let expected = format!(
        "export TOOL_HOME=/data/tool;export QWER_STATE={};export QWER_CURRENT={};export QWER_PREV={};export PATH=/usr/bin;",
        target.hash(),
        target.serialize().unwrap(),
        prev.serialize().unwrap()
    );
    assert_eq!(script, expected);

    // Going away restores the stored value and clears the bookkeeping.
    let penv2 = ProcEnv {
        vars: vec![
            ("PATH".to_owned(), "/usr/bin".to_owned()),
            ("TOOL_HOME".to_owned(), "/data/tool".to_owned()),
            ("QWER_STATE".to_owned(), format!("{}", target.hash())),
            ("QWER_CURRENT".to_owned(), target.serialize().unwrap()),
            ("QWER_PREV".to_owned(), prev.serialize().unwrap()),
        ],
    };
    let st2 = update_env(None, &penv2).unwrap();
    let script2 = st2.build("/usr/bin", &penv2.names());
    assert_eq!(
        script2,
        "unset QWER_STATE;unset QWER_PREV;unset QWER_CURRENT;export TOOL_HOME=/somewhere/else;export PATH=/usr/bin;"
    );
}

/// Ambiguous candidate list: the first installed candidate wins and the
/// missing one is no error.
#[test]
fn ambiguous_candidate_list() {
    let versions = Versions::parse("python 3.12 3.11").unwrap();
    let installs = InstallSet {
        plugins: vec![("python".to_owned(), vec!["3.11".to_owned()])],
    };
    let found = find_current_version(&versions, "python", &installs);
    assert_eq!(found, Some(Version::Version("3.11".to_owned())));
    let plan = plan_activation(&versions, &installs);
    assert_eq!(plan.len(), 1);
    assert_eq!(plan[0].1, Version::Version("3.11".to_owned()));
}

/// A plugin with no installed candidate is silently skipped.
#[test]
fn missing_install_is_skipped() {
    let versions = Versions::parse("python 3.12\nnodejs 18.17.1").unwrap();
    let installs = InstallSet {
        plugins: vec![("nodejs".to_owned(), vec!["18.17.1".to_owned()])],
    };
    let plan = plan_activation(&versions, &installs);
    assert_eq!(plan.len(), 1);
    assert_eq!(plan[0].0, "nodejs");
    assert_eq!(find_current_version(&versions, "python", &installs), None);
}

/// Nearer version files override farther ones, plugin by plugin.
#[test]
fn combine_nearest_wins() {
    let near = Versions::parse("nodejs 20\nruby 3.2").unwrap();
    let far = Versions::parse("nodejs 18\ngo 1.21").unwrap();
    let combined = combine_versions(&vec![near, far]);
    assert_eq!(
        *combined.get("nodejs").unwrap(),
        vec![Version::Version("20".to_owned())]
    );
    assert_eq!(*combined.get("go").unwrap(), vec![Version::Version("1.21".to_owned())]);
    assert_eq!(combined.len(), 3);
}

/// Identical inputs give byte-identical resolver output.
#[test]
fn resolver_deterministic() {
    let run = || {
        let versions = Versions::parse("nodejs 18.17.1\nruby 3.2").unwrap();
        let installs = InstallSet {
            plugins: vec![
                ("nodejs".to_owned(), vec!["18.17.1".to_owned()]),
                ("ruby".to_owned(), vec!["3.2".to_owned()]),
            ],
        };
        let plan = plan_activation(&versions, &installs);
        let mut envs = Vec::new();
        for (name, version) in &plan {
            let extra: Vec<String> = Vec::new();
            let scripts = PluginScripts::new(
                name.as_str(),
                "/data/plugins",
                "/data/installs",
                "/data/downloads",
                &extra,
                None,
            );
            envs.push(
                scripts
                    .get_env(version, &ScriptOutcome::Missing, &ScriptOutcome::Missing, true)
                    .unwrap(),
            );
        }
        compose_env(&envs).unwrap().serialize().unwrap()
    };
    assert_eq!(run(), run());
}
