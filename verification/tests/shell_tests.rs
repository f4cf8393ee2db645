use qwer::shell::{Bash, Shell, ShellState, Zsh};

#[test]
fn hook_bash() {
    assert_eq!(
        Bash.hook("\"./foo\" export bash", "foo_hook"),
        String::from(
            "_foo_hook() {\n  local previous_exit_status=$?;\n  trap -- '' SIGINT;\n  eval \"$(\"./foo\" export bash)\";\n  trap - SIGINT;\n  return $previous_exit_status;\n};\nif ! [[ \"${PROMPT_COMMAND:-}\" =~ _foo_hook ]]; then\n  PROMPT_COMMAND=\"_foo_hook${PROMPT_COMMAND:+;$PROMPT_COMMAND}\"\nfi"
        )
    );
}

#[test]
fn hook_zsh() {
    assert_eq!(
        Zsh.hook("\"./foo\" export zsh", "foo_hook"),
        String::from(
            "_foo_hook() {\n  trap -- '' SIGINT;\n  eval \"$(\"./foo\" export zsh)\";\n  trap - SIGINT;\n}\ntypeset -ag precmd_functions;\nif [[ -z \"${precmd_functions[(r)_foo_hook]+1}\" ]]; then\n  precmd_functions=( _foo_hook ${precmd_functions[@]} )\nfi\ntypeset -ag chpwd_functions;\nif [[ -z \"${chpwd_functions[(r)_foo_hook]+1}\" ]]; then\n  chpwd_functions=( _foo_hook ${chpwd_functions[@]} )\nfi"
        )
    );
}

#[test]
fn set_then_unset_is_pending_unset() {
    let mut st = ShellState::new();
    st.set("K", "v");
    assert!(st.pending_set("K"));
    st.unset("K");
    assert!(st.pending_unset("K"));
    assert!(!st.pending_set("K"));
}

#[test]
fn add_then_remove_path_is_pending_remove() {
    let mut st = ShellState::new();
    st.add_path("/x/bin");
    assert!(st.pending_add_path("/x/bin"));
    st.remove_path("/x/bin");
    assert!(st.pending_remove_path("/x/bin"));
    assert!(!st.pending_add_path("/x/bin"));
}

#[test]
fn empty_state_renders_nothing() {
    let st = ShellState::new();
    let names: Vec<String> = Vec::new();
    assert_eq!(st.build("/usr/bin", &names), "");
}

#[test]
fn render_orders_unsets_exports_path() {
    let mut st = ShellState::new();
    st.unset("GONE");
    st.unset("NEVER_SET");
    st.set("A", "1");
    st.set("B", "2");
    st.add_path("/new/bin");
    st.remove_path("/old/bin");
    let names = vec!["GONE".to_owned(), "A".to_owned()];
    let script = st.build("/old/bin:/usr/bin", &names);
    assert_eq!(
        script,
        "unset GONE;export A=1;export B=2;export PATH=/new/bin:/usr/bin;"
    );
}

#[test]
fn render_front_loads_existing_added_entry() {
    let mut st = ShellState::new();
    st.add_path("/a");
    let names: Vec<String> = Vec::new();
    let script = st.build("/b:/a:/c", &names);
    assert_eq!(script, "export PATH=/a:/b:/c;");
}
