use apkpatch::editor::{find_from, matches_at, replace_all_bytes, truncate, EditError};

#[test]
fn literal_replace_all_replaces_each_occurrence() {
    let out = replace_all_bytes(b"one two one two one", b"one", b"1");
    assert_eq!(out, b"1 two 1 two 1".to_vec());
}

#[test]
fn literal_replace_does_not_rescan_inserted_text() {
    let out = replace_all_bytes(b"xax", b"a", b"aa");
    assert_eq!(out, b"xaax".to_vec());
}

#[test]
fn literal_replace_twice_equals_once() {
    let once = replace_all_bytes(b"host=mc20.example.com;", b"mc20.example.com", b"<###DOMAIN###>");
    let twice = replace_all_bytes(&once, b"mc20.example.com", b"<###DOMAIN###>");
    assert_eq!(once, b"host=<###DOMAIN###>;".to_vec());
    assert_eq!(twice, once);
}

#[test]
fn literal_replace_can_create_a_new_occurrence() {
    // the replacement does not contain the pattern, but it joins with its neighbours
    let once = replace_all_bytes(b"aab", b"ab", b"b");
    assert_eq!(once, b"ab".to_vec());
    assert_eq!(replace_all_bytes(&once, b"ab", b"b"), b"b".to_vec());
}

#[test]
fn empty_pattern_matches_nowhere() {
    assert_eq!(replace_all_bytes(b"abc", b"", b"X"), b"abc".to_vec());
    assert_eq!(replace_all_bytes(b"", b"a", b"X"), Vec::<u8>::new());
}

#[test]
fn byte_substitution_length_and_untouched_bytes() {
    let data: Vec<u8> = vec![0, 0xff, 1, 2, 0xff, 1, 3, 0xff, 1];
    let out = replace_all_bytes(&data, &[0xff, 1], &[9, 9, 9]);
    // three occurrences, each one byte longer
    assert_eq!(out.len(), data.len() + 3);
    assert_eq!(out, vec![0, 9, 9, 9, 2, 9, 9, 9, 3, 9, 9, 9]);
}

#[test]
fn byte_substitution_with_shorter_replacement() {
    let out = replace_all_bytes(b"abcabcab", b"abc", b"");
    assert_eq!(out, b"ab".to_vec());
}

#[test]
fn find_and_match_positions() {
    assert_eq!(find_from(b"abcabc", b"bc", 0), Some(1));
    assert_eq!(find_from(b"abcabc", b"bc", 2), Some(4));
    assert_eq!(find_from(b"abcabc", b"bd", 0), None);
    assert_eq!(find_from(b"abc", b"", 3), Some(3));
    assert!(matches_at(b"abcabc", b"cab", 2));
    assert!(!matches_at(b"abcabc", b"cab", 3));
    assert!(!matches_at(b"ab", b"abc", 0));
}

#[test]
fn truncation_removes_exactly_the_anchored_span() {
    let out = truncate(b"head START middle END tail", b"START", b"END", b"X");
    assert_eq!(out, Ok(b"head X tail".to_vec()));
}

#[test]
fn truncation_only_removes_the_first_span() {
    let out = truncate(b"aS1Eb S2E c", b"S", b"E", b"");
    assert_eq!(out, Ok(b"ab S2E c".to_vec()));
}

#[test]
fn truncation_fails_closed_without_end() {
    let data = b"END before START and nothing after".to_vec();
    let out = truncate(&data, b"START", b"END", b"X");
    assert_eq!(out, Err(EditError::PatternNotFound));
    assert_eq!(data, b"END before START and nothing after".to_vec());
}

#[test]
fn truncation_fails_without_start() {
    assert_eq!(truncate(b"a b c", b"S", b"c", b""), Err(EditError::PatternNotFound));
}

#[test]
fn truncation_rejects_end_inside_start() {
    // the end anchor first occurs inside the start anchor
    assert_eq!(truncate(b"xabcx", b"abc", b"b", b""), Err(EditError::TruncationMismatch));
}

#[test]
fn truncation_of_ssl_socket_factory_call() {
    let data = b"    .line 5\n    const/4 v0, 0x1\n\n    .line 6\n    sget-object p2, Lql$d;->d:Ljavax/net/ssl/SSLContext;\n\n    invoke-virtual {p2}, Ljavax/net/ssl/SSLContext;->getSocketFactory()Ljavax/net/ssl/SSLSocketFactory;\n\n    move-result-object p2\n\n    invoke-virtual {p1, p2}, Ljavax/net/ssl/HttpsURLConnection;->setSSLSocketFactory(Ljavax/net/ssl/SSLSocketFactory;)V\n\n    .line 7\n    return-void\n";
    let out = truncate(data, b".line 6", b"SSLSocketFactory;)V", b".line 6\n    nop").unwrap();
    let expected = b"    .line 5\n    const/4 v0, 0x1\n\n    .line 6\n    nop\n\n    .line 7\n    return-void\n";
    assert_eq!(out, expected.to_vec());
}
