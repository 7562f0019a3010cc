use parametric_renderer::includes::{
    check_includes, compute_hash, delete_old_include, find_includes, insert_new_include,
    try_parse_include, AutogenError, IncludeStatement, expand_includes,
};
use parametric_renderer::expansion::expand_text;
use parametric_renderer::lines::{join_with_newlines, split_lines};
use std::path::PathBuf;

fn strings(v: &[&str]) -> Vec<String> {
    v.iter().map(|s| s.to_string()).collect()
}

#[test]
fn split_lines_like_str_lines() {
    for text in ["", "a", "a\n", "a\nb", "a\r\nb\r\n", "\n\nx", "a\rb\n", "x\r"] {
        let expected: Vec<String> = text.lines().map(|l| l.to_string()).collect();
        assert_eq!(split_lines(text), expected, "{:?}", text);
    }
}

#[test]
fn join_lines_with_newlines() {
    assert_eq!(join_with_newlines(&strings(&["a", "b", "c"])), "a\nb\nc");
    assert_eq!(join_with_newlines(&strings(&[])), "");
    assert_eq!(join_with_newlines(&strings(&["only"])), "only");
}

#[test]
fn parse_include_directive() {
    let file = PathBuf::from("shaders/Shader.wgsl");
    let found = try_parse_include(file.clone(), "////#include \"./Common.wgsl\"", 7).unwrap();
    assert_eq!(found.import_path, "./Common.wgsl");
    assert_eq!(found.line_number, 7);
    assert_eq!(found.relative_to, file);
    assert_eq!(found.full_path(), Some(PathBuf::from("shaders/./Common.wgsl")));
    assert!(try_parse_include(file.clone(), "fn main() {}", 0).is_none());
    assert!(try_parse_include(file.clone(), "  ////#include \"x\"", 0).is_none());
}

#[test]
fn full_path_is_relative_to_the_including_file() {
    let nested = IncludeStatement {
        import_path: "lib/Noise.wgsl".to_string(),
        relative_to: PathBuf::from("shaders/Shader.wgsl"),
        line_number: 0,
    };
    assert_eq!(nested.full_path(), Some(PathBuf::from("shaders/lib/Noise.wgsl")));
    let bare = IncludeStatement {
        import_path: "a.wgsl".to_string(),
        relative_to: PathBuf::from("Shader.wgsl"),
        line_number: 0,
    };
    assert_eq!(bare.full_path(), Some(PathBuf::from("a.wgsl")));
    let no_parent = IncludeStatement {
        import_path: "a.wgsl".to_string(),
        relative_to: PathBuf::from(""),
        line_number: 0,
    };
    assert_eq!(no_parent.full_path(), None);
}

#[test]
fn parse_include_escapes() {
    let file = PathBuf::from("a.wgsl");
    let found = try_parse_include(file, "////#include  \"dir\\\\name.wgsl\"", 0).unwrap();
    assert_eq!(found.import_path, "dir\\name.wgsl");
}

#[test]
fn check_includes_finds_broken_directives() {
    assert!(check_includes("a\n////#include \"b\"\nc"));
    assert!(!check_includes("a\n////#include b\n"));
    assert!(!check_includes("////#include \"unterminated"));
    assert!(!check_includes("////#include"));
}

#[test]
fn find_all_includes() {
    let contents = "x\n////#include \"a.wgsl\"\ny\n////#include \"b.wgsl\"";
    let found: Vec<IncludeStatement> = find_includes(PathBuf::from("s.wgsl"), contents);
    assert_eq!(found.len(), 2);
    assert_eq!(found[0].import_path, "a.wgsl");
    assert_eq!(found[0].line_number, 1);
    assert_eq!(found[1].import_path, "b.wgsl");
    assert_eq!(found[1].line_number, 3);
}

#[test]
fn hash_is_sha256_of_non_whitespace() {
    // SHA-256 of the empty string and of "abc".
    assert_eq!(
        compute_hash(&[]),
        "e3b0c44298fc1c149afbf4c8996fb92427ae41e4649b934ca495991b7852b855"
    );
    assert_eq!(
        compute_hash(&strings(&["a b", "\tc "])),
        "ba7816bf8f01cfea414140de5dae2223b00361a396177a9cb410ff61f20015ad"
    );
}

#[test]
fn insert_then_delete_restores_lines() {
    let mut lines = strings(&["a", "////#include \"x\"", "b"]);
    let before = lines.clone();
    let statement = IncludeStatement {
        import_path: "x".to_string(),
        relative_to: PathBuf::from("s.wgsl"),
        line_number: 1,
    };
    insert_new_include(&mut lines, &statement, "fn x() {}\nfn y() {}\n".to_string());
    assert_eq!(lines.len(), 6);
    assert!(lines[2].starts_with("//// AUTOGEN "));
    assert_eq!(lines[3], "fn x() {}\nfn y() {}\n");
    assert_eq!(lines[4], "//// END OF AUTOGEN");
    assert_eq!(lines[2], format!("//// AUTOGEN {}", compute_hash(&strings(&["fn x() {}", "fn y() {}"]))));
    assert_eq!(delete_old_include(&mut lines, 1), Ok(()));
    assert_eq!(lines, before);
}

#[test]
fn delete_without_block_changes_nothing() {
    let mut lines = strings(&["a", "b"]);
    assert_eq!(delete_old_include(&mut lines, 0), Ok(()));
    assert_eq!(delete_old_include(&mut lines, 1), Ok(()));
    assert_eq!(delete_old_include(&mut lines, 5), Ok(()));
    assert_eq!(lines, strings(&["a", "b"]));
}

#[test]
fn delete_detects_edited_block() {
    let hash = compute_hash(&strings(&["fn x() {}"]));
    let mut lines = vec![
        "////#include \"x\"".to_string(),
        format!("//// AUTOGEN {}", hash),
        "fn x() { edited }".to_string(),
        "//// END OF AUTOGEN".to_string(),
    ];
    let before = lines.clone();
    assert_eq!(
        delete_old_include(&mut lines, 0),
        Err(AutogenError::HashMismatch { start: 2, end: 3 })
    );
    assert_eq!(lines, before);
}

#[test]
fn delete_detects_missing_end() {
    let mut lines = strings(&["////#include \"x\"", "//// AUTOGEN abc", "fn x() {}"]);
    assert_eq!(delete_old_include(&mut lines, 0), Err(AutogenError::MissingEnd));
}

#[test]
fn whitespace_does_not_change_the_hash() {
    let mut lines = vec![
        "////#include \"x\"".to_string(),
        format!("//// AUTOGEN   {}", compute_hash(&strings(&["fn x(){}"]))),
        "fn   x ( ) { }".to_string(),
        "//// END OF AUTOGEN".to_string(),
        "tail".to_string(),
    ];
    assert_eq!(delete_old_include(&mut lines, 0), Ok(()));
    assert_eq!(lines, strings(&["////#include \"x\"", "tail"]));
}

#[test]
fn expand_all_includes_twice_changes_nothing() {
    let text = "a\n////#include \"x.wgsl\"\nb\n////#include \"y.wgsl\"\nc";
    let file = PathBuf::from("shaders/s.wgsl");
    let includes = find_includes(file.clone(), text);
    assert_eq!(includes.len(), 2);
    let contents = vec!["fn x() {}\n".to_string(), "fn y() {}".to_string()];
    let mut lines = split_lines(text);
    assert_eq!(expand_includes(&mut lines, &includes, contents.clone()), Ok(()));
    assert_eq!(
        lines,
        strings(&[
            "a",
            "////#include \"x.wgsl\"",
            &format!("//// AUTOGEN {}", compute_hash(&strings(&["fn x() {}"]))),
            "fn x() {}\n",
            "//// END OF AUTOGEN",
            "b",
            "////#include \"y.wgsl\"",
            &format!("//// AUTOGEN {}", compute_hash(&strings(&["fn y() {}"]))),
            "fn y() {}",
            "//// END OF AUTOGEN",
            "c",
        ])
    );
    let once = join_with_newlines(&lines);

    // Running again on the written file gives the same file.
    let again = find_includes(file, &once);
    assert_eq!(again.len(), 2);
    let mut lines2 = split_lines(&once);
    assert_eq!(expand_includes(&mut lines2, &again, contents), Ok(()));
    assert_eq!(join_with_newlines(&lines2), once);
}

#[test]
fn expand_stops_at_an_edited_block() {
    let mut lines = strings(&[
        "////#include \"x\"",
        "//// AUTOGEN 0000",
        "edited",
        "//// END OF AUTOGEN",
    ]);
    let includes = find_includes(PathBuf::from("s.wgsl"), "////#include \"x\"");
    let before = lines.clone();
    assert_eq!(
        expand_includes(&mut lines, &includes, vec!["new".to_string()]),
        Err(AutogenError::HashMismatch { start: 2, end: 3 })
    );
    assert_eq!(lines, before);
}

#[test]
fn expand_text_twice_writes_the_same_text() {
    let text = "head\n////#include \"x.wgsl\"\nmiddle\n\n////#include \"y.wgsl\"";
    let file = PathBuf::from("shaders/s.wgsl");
    let included = vec!["fn x() {}\n".to_string(), "fn y() {\n}".to_string()];
    let once = expand_text(file.clone(), text, included.clone()).unwrap();
    assert_eq!(
        once,
        format!(
            "head\n////#include \"x.wgsl\"\n//// AUTOGEN {}\nfn x() {{}}\n\n//// END OF AUTOGEN\nmiddle\n\n////#include \"y.wgsl\"\n//// AUTOGEN {}\nfn y() {{\n}}\n//// END OF AUTOGEN",
            compute_hash(&strings(&["fn x() {}"])),
            compute_hash(&strings(&["fn y() {", "}"])),
        )
    );
    let again = find_includes(file.clone(), &once);
    assert_eq!(again.len(), 2);
    assert_eq!(again[0].import_path, "x.wgsl");
    assert_eq!(again[1].import_path, "y.wgsl");
    assert_eq!(expand_text(file, &once, included).unwrap(), once);
}

#[test]
fn expand_text_reports_an_edited_block_with_its_lines() {
    let text = "////#include \"x\"\n//// AUTOGEN 00\nedited\n//// END OF AUTOGEN";
    match expand_text(PathBuf::from("s.wgsl"), text, vec!["new".to_string()]) {
        Err((AutogenError::HashMismatch { start, end }, lines)) => {
            assert_eq!((start, end), (2, 3));
            assert_eq!(lines[2], "edited");
        }
        other => panic!("expected a hash mismatch, got {:?}", other.map(|_| ()).map_err(|e| e.0)),
    }
}
