use hosts_override::resolve::{resolve_url, ResolveError};

fn table(v: &[&str]) -> Vec<String> {
    v.iter().map(|s| s.to_string()).collect()
}

#[test]
fn resolves_url_host_to_recorded_address() {
    let lines = table(&["10.0.0.5 internal.example"]);
    let r = resolve_url("https://internal.example/path", &lines);
    assert_eq!(r, Ok("https://10.0.0.5/path".to_string()));
}

#[test]
fn missing_record_is_not_found() {
    let lines = table(&["10.0.0.5 internal.example"]);
    let r = resolve_url("https://other.example/path", &lines);
    assert_eq!(r, Err(ResolveError::NotFound));
}

#[test]
fn empty_table_is_not_found() {
    let lines: Vec<String> = Vec::new();
    let r = resolve_url("https://internal.example/", &lines);
    assert_eq!(r, Err(ResolveError::NotFound));
}

#[test]
fn malformed_url_is_rejected() {
    let lines = table(&["10.0.0.5 internal.example"]);
    let r = resolve_url("not a url", &lines);
    assert_eq!(r, Err(ResolveError::MalformedUrl));
}

#[test]
fn url_without_host_is_unsupported() {
    let lines = table(&["10.0.0.5 internal.example"]);
    let r = resolve_url("mailto:admin@internal.example", &lines);
    assert_eq!(r, Err(ResolveError::NoHost));
}

#[test]
fn url_with_ip_host_is_unsupported() {
    let lines = table(&["10.0.0.5 internal.example"]);
    let r = resolve_url("https://192.168.0.9/path", &lines);
    assert_eq!(r, Err(ResolveError::NoHost));
}

#[test]
fn comment_records_are_skipped() {
    let lines = table(&["# 9.9.9.9 internal.example", "10.0.0.5 internal.example"]);
    let r = resolve_url("https://internal.example/", &lines);
    assert_eq!(r, Ok("https://10.0.0.5/".to_string()));
}

#[test]
fn first_matching_record_wins() {
    let lines = table(&["10.0.0.5 internal.example", "9.9.9.9 internal.example"]);
    let r = resolve_url("https://internal.example/", &lines);
    assert_eq!(r, Ok("https://10.0.0.5/".to_string()));
}

#[test]
fn every_textual_occurrence_of_the_host_is_replaced() {
    // plain substring replacement: a recurrence in the path changes too
    let lines = table(&["10.0.0.5 host.example"]);
    let r = resolve_url("https://host.example/host.example", &lines);
    assert_eq!(r, Ok("https://10.0.0.5/10.0.0.5".to_string()));
}

#[test]
fn port_and_query_are_kept() {
    let lines = table(&["10.0.0.5 internal.example"]);
    let r = resolve_url("https://internal.example:8443/a/b?c=d", &lines);
    assert_eq!(r, Ok("https://10.0.0.5:8443/a/b?c=d".to_string()));
}

#[test]
fn alias_tokens_do_not_resolve() {
    // only the second token names the record's host
    let lines = table(&["10.0.0.5 other.example internal.example"]);
    let r = resolve_url("https://internal.example/", &lines);
    assert_eq!(r, Err(ResolveError::NotFound));
}
