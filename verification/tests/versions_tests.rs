use qwer::versions::{Version, Versions, VersionsError};

#[test]
fn versions_parse() {
    let to_parse = "\n# comment\nfoo 1.2.3\n# comment\nbar 2.1  # comment\nref ref:123\npath path:/foo/bar\nsystem system\nmultiple 1 ref:123 system\n        ";

    let versions = Versions::parse(to_parse).expect("failed to parse versions");

    assert_eq!(versions.len(), 6);
    assert_eq!(
        *versions.get("foo").unwrap(),
        vec![Version::Version("1.2.3".to_owned())]
    );
    assert_eq!(
        *versions.get("bar").unwrap(),
        vec![Version::Version("2.1".to_owned())]
    );
    assert_eq!(*versions.get("ref").unwrap(), vec![Version::Ref("123".to_owned())]);
    assert_eq!(
        *versions.get("path").unwrap(),
        vec![Version::Path("/foo/bar".to_owned())]
    );
    assert_eq!(*versions.get("system").unwrap(), vec![Version::System]);
    assert_eq!(
        *versions.get("multiple").unwrap(),
        vec![
            Version::Version("1".to_owned()),
            Version::Ref("123".to_owned()),
            Version::System,
        ]
    );
}

#[test]
fn versions_invalid_entries() {
    let invalid = "foo1.2.3 # no space";
    let result = Versions::parse(invalid);
    assert!(matches!(result, Err(VersionsError::InvalidEntry(_))));
}

#[test]
fn versions_duplicate_entries() {
    let invalid = "\nfoo 1.2.3\nfoo 2.1\n        ";
    let result = Versions::parse(invalid);
    assert!(matches!(result, Err(VersionsError::DuplicateEntry(_))));
}

#[test]
fn version_token_parsing() {
    assert_eq!(Version::parse("system"), Version::System);
    assert_eq!(Version::parse("ref:123"), Version::Ref("123".to_owned()));
    assert_eq!(Version::parse("path:/foo"), Version::Path("/foo".to_owned()));
    assert_eq!(Version::parse("1"), Version::Version("1".to_owned()));
}

#[test]
fn version_parse_render_round_trip() {
    let cases = vec![
        Version::Version("18.17.1".to_owned()),
        Version::Ref("abc".to_owned()),
        Version::Path("/opt/go".to_owned()),
        Version::System,
    ];
    for v in cases {
        assert_eq!(Version::parse(v.raw().as_str()), v);
    }
}

#[test]
fn version_install_type_and_str() {
    assert_eq!(Version::Version("1.2".to_owned()).install_type(), "version");
    assert_eq!(Version::Ref("a".to_owned()).install_type(), "ref");
    assert_eq!(Version::Path("/p".to_owned()).install_type(), "path");
    assert_eq!(Version::System.install_type(), "system");
    assert_eq!(Version::System.version_str(), "");
    assert_eq!(Version::Ref("a".to_owned()).version_str(), "a");
    assert_eq!(Version::Ref("a".to_owned()).raw(), "ref:a");
}

#[test]
fn versions_render_round_trip() {
    let text = "# hi\nnodejs 18.17.1\nruby ref:abc system\ngo path:/opt/go";
    let parsed = Versions::parse(text).unwrap();
    let rendered = parsed.render();
    let reparsed = Versions::parse(rendered.as_str()).unwrap();
    assert_eq!(parsed, reparsed);
    assert_eq!(rendered, "nodejs 18.17.1\nruby ref:abc system\ngo path:/opt/go");
}

#[test]
fn versions_parse_mixed_file() {
    let text = "# hi\nnodejs 18.17.1\nruby ref:abc system\ngo path:/opt/go";
    let parsed = Versions::parse(text).unwrap();
    assert_eq!(parsed.len(), 3);
    assert_eq!(
        *parsed.get("nodejs").unwrap(),
        vec![Version::Version("18.17.1".to_owned())]
    );
    assert_eq!(
        *parsed.get("ruby").unwrap(),
        vec![Version::Ref("abc".to_owned()), Version::System]
    );
    assert_eq!(*parsed.get("go").unwrap(), vec![Version::Path("/opt/go".to_owned())]);
}

#[test]
fn versions_insert_overwrites_in_place() {
    let mut versions = Versions::parse("a 1\nb 2\nc 3").unwrap();
    versions.insert("b".to_owned(), vec![Version::Version("9".to_owned())]);
    assert_eq!(versions.render(), "a 1\nb 9\nc 3");
    versions.insert("d".to_owned(), vec![Version::System]);
    assert_eq!(versions.render(), "a 1\nb 9\nc 3\nd system");
}
