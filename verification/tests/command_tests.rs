use program_lifecycle::command::decompose;
use program_lifecycle::command::file_name;
use program_lifecycle::command::marker_candidate;
use program_lifecycle::command::parent_dir;
use program_lifecycle::command::program_name;
use program_lifecycle::command::tokenizes_to_itself;
use program_lifecycle::command::trim;
use program_lifecycle::command::DecomposeError;

#[test]
fn decompose_marker_split() {
    let r = decompose("C:\\Games\\Game.exe --window", true).unwrap();
    assert_eq!(r.0, "C:\\Games\\Game.exe");
    assert_eq!(r.1, vec!["--window"]);
}

#[test]
fn decompose_marker_case_insensitive() {
    let r = decompose("C:\\A.EXE x", true).unwrap();
    assert_eq!(r.0, "C:\\A.EXE");
    assert_eq!(r.1, vec!["x"]);
}

#[test]
fn decompose_rightmost_marker_wins() {
    let r = decompose("a.exe b.exe c", true).unwrap();
    assert_eq!(r.0, "a.exe b.exe");
    assert_eq!(r.1, vec!["c"]);
}

#[test]
fn decompose_marker_without_file_falls_back() {
    // The same command, but the marker prefix does not name a file: shell
    // tokenization decides instead.
    let r = decompose("a.exe b.exe c", false).unwrap();
    assert_eq!(r.0, "a.exe");
    assert_eq!(r.1, vec!["b.exe", "c"]);
}

#[test]
fn decompose_fallback_tokenizes() {
    let r = decompose("prog arg1 arg2", false).unwrap();
    assert_eq!(r.0, "prog");
    assert_eq!(r.1, vec!["arg1", "arg2"]);
}

#[test]
fn decompose_fallback_resplits_joined_arguments() {
    // The argument tokens are joined with spaces and tokenized again, so
    // quoting inside the argument part does not survive the second pass.
    let r = decompose("prog \"one two\"", false).unwrap();
    assert_eq!(r.0, "prog");
    assert_eq!(r.1, vec!["one", "two"]);
}

#[test]
fn decompose_round_trip_bare_path() {
    let r = decompose("/usr/bin/tool", false).unwrap();
    assert_eq!(r.0, "/usr/bin/tool");
    assert!(r.1.is_empty());
}

#[test]
fn decompose_round_trip_marker_path() {
    let r = decompose("Game.exe", true).unwrap();
    assert_eq!(r.0, "Game.exe");
    assert!(r.1.is_empty());
}

#[test]
fn decompose_empty_fails() {
    assert_eq!(decompose("", false), Err(DecomposeError::Empty));
    assert_eq!(decompose("   ", false), Err(DecomposeError::Empty));
}

#[test]
fn decompose_unmatched_quote_fails() {
    assert_eq!(decompose("\"unclosed", false), Err(DecomposeError::Empty));
}

#[test]
fn tokenizes_to_itself_recognizes_single_words() {
    assert!(tokenizes_to_itself("/usr/bin/tool"));
    assert!(tokenizes_to_itself("Game.exe"));
    assert!(!tokenizes_to_itself("a b"));
    assert!(!tokenizes_to_itself("\"unclosed"));
    assert!(!tokenizes_to_itself(""));
}

#[test]
fn marker_candidate_prefix() {
    assert_eq!(
        marker_candidate("C:\\Games\\Game.exe --window").as_deref(),
        Some("C:\\Games\\Game.exe")
    );
    assert_eq!(marker_candidate("no marker here"), None);
}

#[test]
fn trim_removes_surrounding_whitespace() {
    assert_eq!(trim("  a b \t"), "a b");
    assert_eq!(trim("abc"), "abc");
    assert_eq!(trim(" \t\r\n "), "");
    assert_eq!(trim(""), "");
}

#[test]
fn file_name_components() {
    assert_eq!(file_name("C:\\a\\Foo.exe").as_deref(), Some("Foo.exe"));
    assert_eq!(file_name("/usr/bin/tool").as_deref(), Some("tool"));
    assert_eq!(file_name("bare"), Some("bare".to_string()));
    assert_eq!(file_name("dir/"), None);
    assert_eq!(file_name(""), None);
}

#[test]
fn parent_dir_components() {
    assert_eq!(parent_dir("C:\\a\\Foo.exe").as_deref(), Some("C:\\a"));
    assert_eq!(parent_dir("/usr/bin/tool").as_deref(), Some("/usr/bin"));
    assert_eq!(parent_dir("bare"), None);
}

#[test]
fn program_name_resolves_basename() {
    assert_eq!(program_name("C:\\a\\Foo.exe", true).as_deref(), Some("Foo.exe"));
    assert_eq!(program_name("tool --flag", false).as_deref(), Some("tool"));
    assert_eq!(program_name("", false), None);
}
