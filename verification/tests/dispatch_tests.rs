use dist_sys::dispatch::is_client_src;

#[test]
fn client_names_match() {
    assert!(is_client_src("c1"));
    assert!(is_client_src("c42"));
    assert!(is_client_src("n3"));
    assert!(is_client_src("n10"));
}

#[test]
fn a_bare_letter_matches() {
    assert!(is_client_src("c"));
}

#[test]
fn service_names_do_not_match() {
    assert!(!is_client_src("seq-kv"));
    assert!(!is_client_src("lin-kv"));
    assert!(!is_client_src("cat"));
    assert!(!is_client_src("C1"));
    assert!(!is_client_src("1c"));
    assert!(!is_client_src(""));
    assert!(!is_client_src("n1x"));
}
