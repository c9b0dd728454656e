use hosts_override::table::{update_hosts_lines, UpdateDecision};

fn table(v: &[&str]) -> Vec<String> {
    v.iter().map(|s| s.to_string()).collect()
}

fn updated(d: UpdateDecision) -> Vec<String> {
    match d {
        UpdateDecision::Updated(nl) => nl,
        other => panic!("expected Updated, got {:?}", other),
    }
}

#[test]
fn inserts_when_domain_is_absent() {
    let lines = table(&["# local overrides", "127.0.0.1 localhost"]);
    let nl = updated(update_hosts_lines(&lines, "example.com", "10.0.0.1"));
    assert_eq!(
        nl,
        table(&["# local overrides", "127.0.0.1 localhost", "10.0.0.1 example.com"])
    );
}

#[test]
fn inserts_into_empty_table() {
    let lines: Vec<String> = Vec::new();
    let nl = updated(update_hosts_lines(&lines, "example.com", "10.0.0.1"));
    assert_eq!(nl, table(&["10.0.0.1 example.com"]));
}

#[test]
fn rewrites_record_in_place() {
    let lines = table(&[
        "# header",
        "1.1.1.1 example.com",
        "127.0.0.1 localhost",
    ]);
    let nl = updated(update_hosts_lines(&lines, "example.com", "10.0.0.1"));
    assert_eq!(
        nl,
        table(&["# header", "10.0.0.1 example.com", "127.0.0.1 localhost"])
    );
}

#[test]
fn rewrite_drops_trailing_alias_tokens() {
    let lines = table(&["1.1.1.1 example.com www.example.com # pinned"]);
    let nl = updated(update_hosts_lines(&lines, "example.com", "10.0.0.1"));
    assert_eq!(nl, table(&["10.0.0.1 example.com"]));
}

#[test]
fn reports_already_resolved_without_new_contents() {
    let lines = table(&["10.0.0.1 example.com"]);
    let d = update_hosts_lines(&lines, "example.com", "10.0.0.1");
    assert_eq!(d, UpdateDecision::AlreadyResolved);
}

#[test]
fn exact_record_anywhere_short_circuits() {
    // an exact record later in the file wins: nothing is rewritten,
    // even though an earlier record carries another address
    let lines = table(&["1.1.1.1 example.com", "10.0.0.1 example.com"]);
    let d = update_hosts_lines(&lines, "example.com", "10.0.0.1");
    assert_eq!(d, UpdateDecision::AlreadyResolved);
}

#[test]
fn rejects_invalid_target_address() {
    let lines = table(&["127.0.0.1 localhost"]);
    let d = update_hosts_lines(&lines, "example.com", "999.1.1.1");
    assert_eq!(d, UpdateDecision::Rejected);
}

#[test]
fn update_is_idempotent() {
    let lines = table(&["# keep", "127.0.0.1 localhost"]);
    let first = updated(update_hosts_lines(&lines, "example.com", "10.0.0.1"));
    let second = update_hosts_lines(&first, "example.com", "10.0.0.1");
    assert_eq!(second, UpdateDecision::AlreadyResolved);
}

#[test]
fn update_leaves_exactly_one_record() {
    let lines = table(&["1.1.1.1 example.com", "127.0.0.1 localhost"]);
    let nl = updated(update_hosts_lines(&lines, "example.com", "10.0.0.1"));
    let records: Vec<&String> = nl
        .iter()
        .filter(|l| l.split_whitespace().nth(1) == Some("example.com"))
        .collect();
    assert_eq!(records.len(), 1);
    assert_eq!(records[0], "10.0.0.1 example.com");
}

#[test]
fn every_matching_record_is_rewritten() {
    let lines = table(&["1.1.1.1 example.com", "2.2.2.2 example.com"]);
    let nl = updated(update_hosts_lines(&lines, "example.com", "10.0.0.1"));
    assert_eq!(nl, table(&["10.0.0.1 example.com", "10.0.0.1 example.com"]));
}

#[test]
fn substring_containment_alone_does_not_match() {
    // the domain occurs as a substring of another host: the record is
    // kept verbatim and a fresh record is appended
    let lines = table(&["1.2.3.4 sub.example.com"]);
    let nl = updated(update_hosts_lines(&lines, "example.com", "10.0.0.1"));
    assert_eq!(
        nl,
        table(&["1.2.3.4 sub.example.com", "10.0.0.1 example.com"])
    );
}

#[test]
fn substring_in_alias_token_does_not_match() {
    let lines = table(&["1.2.3.4 other.host example.com"]);
    let nl = updated(update_hosts_lines(&lines, "example.com", "10.0.0.1"));
    assert_eq!(
        nl,
        table(&["1.2.3.4 other.host example.com", "10.0.0.1 example.com"])
    );
}

#[test]
fn comments_survive_updates_verbatim() {
    let lines = table(&[
        "# example.com 1.1.1.1",
        "#\todd\tcomment ",
        "1.1.1.1 example.com",
    ]);
    let nl = updated(update_hosts_lines(&lines, "example.com", "10.0.0.1"));
    assert_eq!(nl[0], "# example.com 1.1.1.1");
    assert_eq!(nl[1], "#\todd\tcomment ");
    assert_eq!(nl[2], "10.0.0.1 example.com");
}

#[test]
fn malformed_and_blank_lines_pass_through() {
    let lines = table(&["", "justoneword", "1.1.1.1 example.com", "   "]);
    let nl = updated(update_hosts_lines(&lines, "example.com", "10.0.0.1"));
    assert_eq!(
        nl,
        table(&["", "justoneword", "10.0.0.1 example.com", "   "])
    );
}

#[test]
fn tabs_separate_tokens_too() {
    let lines = table(&["1.1.1.1\texample.com"]);
    let nl = updated(update_hosts_lines(&lines, "example.com", "10.0.0.1"));
    assert_eq!(nl, table(&["10.0.0.1 example.com"]));
}
