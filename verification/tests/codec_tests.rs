use entangle::codec::{parse_manifest, render_manifest};
use entangle::manifest::{FileEntry, Manifest};

fn sample() -> Manifest {
    Manifest {
        files: vec![
            FileEntry::new(
                "a.txt".to_string(),
                "a.txt".to_string(),
                "8f434346648f6b96df89dda901c5176b10a6d83961dd3c1ac88b59b2dc327aa4".to_string(),
            ),
            FileEntry::new(
                "b.bin".to_string(),
                "sub/b.bin".to_string(),
                "0000000000000000000000000000000000000000000000000000000000000000".to_string(),
            ),
        ],
        folders: vec!["sub".to_string()],
        msg: "first sync".to_string(),
        author: "someone".to_string(),
    }
}

fn assert_manifests_equal(a: &Manifest, b: &Manifest) {
    assert_eq!(a.files.len(), b.files.len());
    for (x, y) in a.files.iter().zip(b.files.iter()) {
        assert_eq!(x.name, y.name);
        assert_eq!(x.path, y.path);
        assert_eq!(x.sha256, y.sha256);
    }
    assert_eq!(a.folders, b.folders);
    assert_eq!(a.msg, b.msg);
    assert_eq!(a.author, b.author);
}

#[test]
fn rendered_document_has_the_stable_field_names() {
    let text = render_manifest(&sample());
    assert!(text.contains("\"files\""));
    assert!(text.contains("\"folders\""));
    assert!(text.contains("\"msg\""));
    assert!(text.contains("\"author\""));
    assert!(text.contains("\"name\""));
    assert!(text.contains("\"path\""));
    assert!(text.contains("\"sha256\""));
}

#[test]
fn render_then_parse_gives_the_manifest_back() {
    let m = sample();
    let text = render_manifest(&m);
    let back = parse_manifest(&text).expect("rendered manifest parses");
    assert_manifests_equal(&m, &back);
}

#[test]
fn storing_after_loading_leaves_the_text_unchanged() {
    let m = sample();
    let text = render_manifest(&m);
    let once = render_manifest(&parse_manifest(&text).unwrap());
    let twice = render_manifest(&parse_manifest(&once).unwrap());
    assert_eq!(text, once);
    assert_eq!(once, twice);
}

#[test]
fn empty_manifest_round_trips() {
    let m = Manifest {
        files: vec![],
        folders: vec![],
        msg: String::new(),
        author: String::new(),
    };
    let text = render_manifest(&m);
    let back = parse_manifest(&text).expect("empty manifest parses");
    assert_manifests_equal(&m, &back);
}

#[test]
fn strings_with_escapes_round_trip() {
    let m = Manifest {
        files: vec![FileEntry::new(
            "we\"ird\\name".to_string(),
            "dir/we\"ird\\name".to_string(),
            "ff".to_string(),
        )],
        folders: vec!["di\tr".to_string()],
        msg: "line one\nline two\r\u{8}\u{c}\u{1}".to_string(),
        author: "a/b".to_string(),
    };
    let text = render_manifest(&m);
    let back = parse_manifest(&text).expect("escaped manifest parses");
    assert_manifests_equal(&m, &back);
}

#[test]
fn pretty_printed_document_parses() {
    let text = r#"
    {
        "files": [
            {
                "name": "a.txt",
                "path": "a.txt",
                "sha256": "aa"
            },
            {
                "name": "b",
                "path": "d/b",
                "sha256": "bb"
            }
        ],
        "folders": [
            "d"
        ],
        "msg": "hello",
        "author": "me"
    }
    "#;
    let m = parse_manifest(text).expect("pretty document parses");
    assert_eq!(m.files.len(), 2);
    assert_eq!(m.files[0].name, "a.txt");
    assert_eq!(m.files[1].path, "d/b");
    assert_eq!(m.folders, vec!["d".to_string()]);
    assert_eq!(m.msg, "hello");
    assert_eq!(m.author, "me");
}

#[test]
fn legacy_document_without_folders_parses_with_empty_folder_list() {
    let text = r#"{"files":[{"name":"a","path":"a","sha256":"aa"}],"msg":"m","author":"x"}"#;
    let m = parse_manifest(text).expect("legacy document parses");
    assert_eq!(m.files.len(), 1);
    assert!(m.folders.is_empty());
    assert_eq!(m.msg, "m");
    assert_eq!(m.author, "x");
}

#[test]
fn unicode_escapes_parse() {
    let text = r#"{"files":[],"folders":[],"msg":"a\u0001b\u001Fc","author":""}"#;
    let m = parse_manifest(text).expect("unicode escapes parse");
    assert_eq!(m.msg, "a\u{1}b\u{1f}c");
}

#[test]
fn malformed_documents_are_rejected() {
    assert!(parse_manifest("").is_none());
    assert!(parse_manifest("{").is_none());
    assert!(parse_manifest("[]").is_none());
    assert!(parse_manifest(r#"{"files":[],"folders":[],"msg":"m"}"#).is_none());
    assert!(parse_manifest(r#"{"folders":[],"files":[],"msg":"m","author":"a"}"#).is_none());
    assert!(
        parse_manifest(r#"{"files":[],"folders":[],"msg":"m","author":"a"} trailing"#).is_none()
    );
    assert!(parse_manifest(r#"{"files":[{"name":"a"}],"folders":[],"msg":"","author":""}"#)
        .is_none());
    assert!(parse_manifest(r#"{"files":[],"folders":[],"msg":"unterminated,"author":""}"#)
        .is_none());
}

#[test]
fn trailing_whitespace_is_accepted() {
    let text = "{\"files\":[],\"folders\":[],\"msg\":\"\",\"author\":\"\"}  \n\t ";
    assert!(parse_manifest(text).is_some());
}
