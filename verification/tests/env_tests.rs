use qwer::env::Env;

fn sample_env() -> Env {
    let mut e = Env::new();
    e.set_var("ZED".to_owned(), "last".to_owned());
    e.set_var("ALPHA".to_owned(), "first".to_owned());
    e.set_var("MID".to_owned(), "x=y with spaces\nand a newline".to_owned());
    e.add_path("/opt/tool/bin".to_owned());
    e.add_path("/opt/other/bin".to_owned());
    e.add_path("/opt/tool/bin".to_owned());
    e
}

#[test]
fn vars_are_sorted_and_paths_deduplicated() {
    let e = sample_env();
    assert_eq!(e.vars[0].0, "ALPHA");
    assert_eq!(e.vars[1].0, "MID");
    assert_eq!(e.vars[2].0, "ZED");
    assert_eq!(e.path, vec!["/opt/tool/bin".to_owned(), "/opt/other/bin".to_owned()]);
}

#[test]
fn serialize_round_trip() {
    let e = sample_env();
    let blob = e.serialize().expect("serialize failed");
    let d = Env::deserialize(blob.as_str()).expect("deserialize failed");
    assert_eq!(d, e);
}

#[test]
fn serialize_round_trip_empty() {
    let e = Env::new();
    let blob = e.serialize().expect("serialize failed");
    let d = Env::deserialize(blob.as_str()).expect("deserialize failed");
    assert_eq!(d, e);
}

#[test]
fn hash_stable_across_round_trip() {
    let e = sample_env();
    let blob = e.serialize().unwrap();
    let d = Env::deserialize(blob.as_str()).unwrap();
    assert_eq!(e.hash(), d.hash());
    // Serialisation is deterministic, so the blob is too.
    assert_eq!(blob, d.serialize().unwrap());
}

#[test]
fn blob_is_shell_safe() {
    let blob = sample_env().serialize().unwrap();
    assert!(blob.chars().all(|c| {
        c.is_ascii_alphanumeric() || c == '+' || c == '/' || c == '=' || c == '.'
    }));
    assert_eq!(blob.matches('.').count(), 1);
}

#[test]
fn deserialize_rejects_garbage() {
    assert!(Env::deserialize("not a blob").is_err());
    assert!(Env::deserialize("").is_err());
    assert!(Env::deserialize("12.").is_err());
}

#[test]
fn merge_is_idempotent() {
    let mut a = sample_env();
    let b = sample_env();
    let before = sample_env();
    a.merge(b);
    assert_eq!(a, before);
}

#[test]
fn merge_with_empty_is_identity() {
    let mut a = sample_env();
    let before = sample_env();
    a.merge(Env::new());
    assert_eq!(a, before);
}

#[test]
fn merge_overwrites_values_and_unions_paths() {
    let mut a = Env::new();
    a.set_var("K".to_owned(), "old".to_owned());
    a.add_path("/a".to_owned());
    let mut b = Env::new();
    b.set_var("K".to_owned(), "new".to_owned());
    b.set_var("L".to_owned(), "2".to_owned());
    b.add_path("/a".to_owned());
    b.add_path("/b".to_owned());
    a.merge(b);
    assert_eq!(a.vars, vec![("K".to_owned(), "new".to_owned()), ("L".to_owned(), "2".to_owned())]);
    assert_eq!(a.path, vec!["/a".to_owned(), "/b".to_owned()]);
}

#[test]
fn hash_differs_for_different_envs() {
    let mut a = Env::new();
    a.set_var("K".to_owned(), "1".to_owned());
    let mut b = Env::new();
    b.set_var("K".to_owned(), "2".to_owned());
    assert_ne!(a.hash(), b.hash());
}
