use apkpatch::matcher::{get_match_pattern, patch_file, MatchType};
use apkpatch::orchestrator::{apply_patch, apply_patches, compile_glob, resolve, Patch, PatchError, SourceFile};

fn file(path: &str, contents: &str) -> SourceFile {
    SourceFile { path: path.to_string(), contents: contents.as_bytes().to_vec() }
}

fn literal(name: &str, globs: &[&str], pattern: &str, replace: &str) -> Patch {
    Patch {
        name: name.to_string(),
        info: String::new(),
        filepaths: globs.iter().map(|g| g.to_string()).collect(),
        match_type: MatchType::Literal,
        match_pattern: pattern.to_string(),
        replace: replace.to_string(),
    }
}

fn regex(name: &str, globs: &[&str], pattern: &str, replace: &str) -> Patch {
    Patch { match_type: MatchType::Regex, ..literal(name, globs, pattern, replace) }
}

#[test]
fn invalid_regex_is_refused() {
    assert!(get_match_pattern(MatchType::Regex, "a(b".to_string()).is_err());
    assert!(get_match_pattern(MatchType::Literal, "a(b".to_string()).is_ok());
    assert!(get_match_pattern(MatchType::Regex, "a(b)".to_string()).is_ok());
}

#[test]
fn regex_replace_all_interpolates_captures() {
    let m = get_match_pattern(MatchType::Regex, r"([a-z])(\d)".to_string()).ok().unwrap();
    let out = patch_file(b"a1 b2 c3!", &m, "$2$1").unwrap();
    assert!(out.matched);
    assert_eq!(out.buffer, b"1a 2b 3c!".to_vec());
}

#[test]
fn regex_line_number_capture() {
    let m = get_match_pattern(MatchType::Regex, r"\.line\s([0-9]+)\n\s+sget-object\sp2".to_string())
        .ok()
        .unwrap();
    let out = patch_file(b"x\n.line 42\n    sget-object p2, y", &m, ".line $1\n    nop").unwrap();
    assert!(out.matched);
    assert_eq!(out.buffer, b"x\n.line 42\n    nop, y".to_vec());
}

#[test]
fn regex_without_match_leaves_text() {
    let m = get_match_pattern(MatchType::Regex, r"\d+".to_string()).ok().unwrap();
    let out = patch_file(b"no digits", &m, "N").unwrap();
    assert!(!out.matched);
    assert_eq!(out.buffer, b"no digits".to_vec());
}

#[test]
fn literal_patch_on_text() {
    let m = get_match_pattern(MatchType::Literal, "mc20.monsieur-cuisine.com".to_string()).ok().unwrap();
    let out = patch_file(b"const-string v0, \"https://mc20.monsieur-cuisine.com/api\"", &m, "<###DOMAIN###>").unwrap();
    assert!(out.matched);
    assert_eq!(out.buffer, b"const-string v0, \"https://<###DOMAIN###>/api\"".to_vec());
}

#[test]
fn literal_patch_with_multibyte_text() {
    let m = get_match_pattern(MatchType::Literal, "é".to_string()).ok().unwrap();
    let out = patch_file("café crème".as_bytes(), &m, "e").unwrap();
    assert!(out.matched);
    assert_eq!(out.buffer, "cafe crème".as_bytes().to_vec());
}

#[test]
fn non_text_file_is_a_decode_error() {
    let m = get_match_pattern(MatchType::Literal, "a".to_string()).ok().unwrap();
    assert!(patch_file(&[0x61, 0xff, 0xfe], &m, "b").is_none());
}

#[test]
fn glob_syntax_and_matching() {
    assert!(compile_glob("smali/*.smali").is_some());
    assert!(compile_glob("smali/[a").is_none());
}

#[test]
fn patch_applies_to_globbed_files_only() {
    let mut tree = vec![
        file("smali/a.smali", "host mc20"),
        file("smali/b.smali", "nothing"),
        file("smali/sub/c.smali", "host mc20"),
        file("res/d.xml", "host mc20"),
    ];
    let hits = apply_patch(&mut tree, &literal("domain", &["smali/*.smali"], "mc20", "local")).ok().unwrap();
    assert_eq!(hits, vec!["smali/a.smali".to_string()]);
    assert_eq!(tree[0].contents, b"host local".to_vec());
    assert_eq!(tree[1].contents, b"nothing".to_vec());
    assert_eq!(tree[2].contents, b"host mc20".to_vec());
    assert_eq!(tree[3].contents, b"host mc20".to_vec());
}

#[test]
fn recursive_glob_reaches_nested_files() {
    let mut tree = vec![file("smali/a.smali", "mc20"), file("smali/sub/c.smali", "mc20")];
    let hits = apply_patch(&mut tree, &literal("domain", &["smali/**/*.smali"], "mc20", "x")).ok().unwrap();
    assert_eq!(hits.len(), 2);
    assert_eq!(tree[1].contents, b"x".to_vec());
}

#[test]
fn zero_match_patch_fails_and_changes_nothing() {
    let mut tree = vec![file("smali/a.smali", "alpha"), file("smali/b.smali", "beta")];
    let r = apply_patch(&mut tree, &literal("absent", &["smali/*.smali"], "gamma", "delta"));
    assert!(matches!(r, Err(PatchError::NoMatch { ref patch }) if patch == "absent"));
    assert_eq!(tree[0].contents, b"alpha".to_vec());
    assert_eq!(tree[1].contents, b"beta".to_vec());
}

#[test]
fn zero_match_is_counted_over_all_globs() {
    let mut tree = vec![file("a.txt", "nothing"), file("b.txt", "MARK")];
    let r = apply_patch(&mut tree, &literal("later", &["a.txt", "b.txt"], "MARK", "done"));
    assert_eq!(r.ok().unwrap(), vec!["b.txt".to_string()]);
    assert_eq!(tree[1].contents, b"done".to_vec());
}

#[test]
fn patches_depend_on_declared_order() {
    let insert = literal("insert marker", &["f.smali"], "anchor", "anchor MARK");
    let consume = literal("consume marker", &["f.smali"], "MARK", "done");

    let mut tree = vec![file("f.smali", "before anchor after")];
    let hits = apply_patches(&mut tree, vec![insert, consume]).ok().unwrap();
    assert_eq!(hits.len(), 2);
    assert_eq!(tree[0].contents, b"before anchor done after".to_vec());

    let mut alone = vec![file("f.smali", "before anchor after")];
    let consume = literal("consume marker", &["f.smali"], "MARK", "done");
    let r = apply_patches(&mut alone, vec![consume]);
    assert!(matches!(r, Err(PatchError::NoMatch { ref patch }) if patch == "consume marker"));
    assert_eq!(alone[0].contents, b"before anchor after".to_vec());
}

#[test]
fn invalid_regex_patch_aborts_before_touching_files() {
    let mut tree = vec![file("f.smali", "abc")];
    let r = apply_patches(&mut tree, vec![regex("broken", &["f.smali"], "a(", "x")]);
    assert!(matches!(r, Err(PatchError::PatternCompile { ref patch, .. }) if patch == "broken"));
    assert_eq!(tree[0].contents, b"abc".to_vec());
}

#[test]
fn invalid_glob_is_an_error() {
    let mut tree = vec![file("f.smali", "abc")];
    let r = apply_patches(&mut tree, vec![literal("bad glob", &["[f"], "a", "x")]);
    assert!(matches!(r, Err(PatchError::InvalidGlob { ref pattern }) if pattern == "[f"));
}

#[test]
fn binary_target_is_a_decode_error() {
    let mut tree = vec![SourceFile { path: "classes.dex".to_string(), contents: vec![0x64, 0xff, 0x0a] }];
    let r = apply_patches(&mut tree, vec![literal("dex", &["*.dex"], "d", "x")]);
    assert!(matches!(r, Err(PatchError::Decode { ref path }) if path == "classes.dex"));
}

#[test]
fn regex_patch_over_tree() {
    let mut tree = vec![file("smali/a.smali", ".line 12\n    sget-object p2, X\n")];
    let p = regex("nop", &["smali/*.smali"], r"\.line\s([0-9]+)\n\s+sget-object\sp2, X", ".line $1\n    nop");
    let hits = apply_patches(&mut tree, vec![p]).ok().unwrap();
    assert_eq!(hits, vec![vec!["smali/a.smali".to_string()]]);
    assert_eq!(tree[0].contents, b".line 12\n    nop\n".to_vec());
}

#[test]
fn resolve_lists_matching_paths_in_tree_order() {
    let tree = vec![
        file("smali/b.smali", ""),
        file("smali/a.smali", ""),
        file("res/a.xml", ""),
        file("smali/x/a.smali", ""),
    ];
    assert_eq!(
        resolve(&tree, "smali/*.smali"),
        Some(vec!["smali/b.smali".to_string(), "smali/a.smali".to_string()])
    );
    assert_eq!(resolve(&tree, "none/*"), Some(Vec::new()));
    assert_eq!(resolve(&tree, "smali/[x"), None);
}

#[test]
fn empty_literal_pattern_inserts_at_every_char_boundary() {
    let m = get_match_pattern(MatchType::Literal, String::new()).ok().unwrap();
    let out = patch_file(b"", &m, "X").unwrap();
    assert!(out.matched);
    assert_eq!(out.buffer, b"X".to_vec());
    let out = patch_file("aé".as_bytes(), &m, "-").unwrap();
    assert!(out.matched);
    assert_eq!(out.buffer, "aé".replace("", "-").into_bytes());
    assert_eq!(out.buffer, "-a-é-".as_bytes().to_vec());
}

#[test]
fn regex_compile_error_carries_diagnostic() {
    match get_match_pattern(MatchType::Regex, "a(".to_string()) {
        Err(message) => assert!(!message.is_empty()),
        Ok(_) => panic!("expected a compile error"),
    }
}

#[test]
fn failure_keeps_what_was_written_before_it() {
    let mut tree = vec![
        file("a.smali", "one"),
        file("b.smali", "one"),
        SourceFile { path: "c.smali".to_string(), contents: vec![0x6f, 0xff] },
        file("d.smali", "one"),
    ];
    let first = literal("first", &["a.smali"], "one", "two");
    let second = literal("second", &["*.smali"], "one", "three");
    let third = literal("third", &["d.smali"], "one", "four");
    let r = apply_patches(&mut tree, vec![first, second, third]);
    assert!(matches!(r, Err(PatchError::Decode { ref path }) if path == "c.smali"));
    assert_eq!(tree[0].contents, b"two".to_vec());
    assert_eq!(tree[1].contents, b"three".to_vec());
    assert_eq!(tree[2].contents, vec![0x6f, 0xff]);
    assert_eq!(tree[3].contents, b"one".to_vec());
}
