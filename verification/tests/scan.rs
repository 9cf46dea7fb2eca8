//! Looking for words in source text.
use raft_sim as _;

/// Strip `//` comments so that prose explaining *why* HashMap is banned does
/// not trip the check on itself.
fn strip_comments(src: &str) -> String {
    src.lines()
        .map(|line| match line.find("//") {
            Some(i) => &line[..i],
            None => line,
        })
        .collect::<Vec<_>>()
        .join("\n")
}

/// The scan is worthless if it cannot actually see a violation.
#[test]
fn the_scan_detects_what_it_is_looking_for() {
    let sample = "let m = HashMap::new(); // BTreeMap is fine here\n";
    let stripped = strip_comments(sample);
    assert!(
        stripped.contains("HashMap"),
        "real code must still be scanned"
    );

    let only_a_comment = "// never use a HashMap in core\n";
    assert!(
        !strip_comments(only_a_comment).contains("HashMap"),
        "prose about the rule must not trip the rule"
    );
}
