use git_ignore::merge::{capitalize_name, merge_fetched};

fn fetched(name: &str, body: &str) -> (String, Option<String>) {
    (name.to_string(), Some(body.to_string()))
}

fn failed(name: &str) -> (String, Option<String>) {
    (name.to_string(), None)
}

#[test]
fn capitalization_examples() {
    assert_eq!(capitalize_name("visualstudio"), "Visualstudio");
    assert_eq!(capitalize_name("macos"), "Macos");
    assert_eq!(capitalize_name("C"), "C");
    assert_eq!(capitalize_name("RUST"), "RUST");
    assert_eq!(capitalize_name("global/linux"), "Global/Linux");
    assert_eq!(capitalize_name("visual-studio-code"), "Visual-Studio-Code");
    assert_eq!(capitalize_name("c++"), "C++");
    assert_eq!(capitalize_name("node_js"), "Node_Js");
    assert_eq!(capitalize_name("a1b"), "A1b");
    assert_eq!(capitalize_name(""), "");
}

#[test]
fn capitalization_leaves_segments_with_uppercase_alone() {
    assert_eq!(capitalize_name("hasUpper/plain"), "hasUpper/Plain");
}

#[test]
fn merge_collects_trimmed_nonblank_lines() {
    let r = merge_fetched(&vec![fetched("x", "a  \n\n b\r\n")], "");
    assert_eq!(r.lines, vec!["a".to_string(), " b".to_string()]);
    assert_eq!(r.succeeded, vec!["x".to_string()]);
    assert!(r.failed.is_empty());
}

#[test]
fn merge_skips_lines_already_in_target() {
    let r = merge_fetched(&vec![fetched("x", "a\nb\n")], "a\n");
    assert_eq!(r.lines, vec!["b".to_string()]);
}

#[test]
fn merge_deduplicates_across_the_batch() {
    let r = merge_fetched(
        &vec![fetched("x", "dup\nuniq1\n"), fetched("y", "dup\nuniq2\n")],
        "",
    );
    assert_eq!(
        r.lines,
        vec!["dup".to_string(), "uniq1".to_string(), "uniq2".to_string()]
    );
}

#[test]
fn merge_reports_partial_failure_and_keeps_going() {
    let r = merge_fetched(
        &vec![
            fetched("first", "one\n"),
            failed("second"),
            fetched("third", "three\n"),
        ],
        "",
    );
    assert_eq!(r.succeeded, vec!["first".to_string(), "third".to_string()]);
    assert_eq!(r.failed, vec!["second".to_string()]);
    assert_eq!(r.lines, vec!["one".to_string(), "three".to_string()]);
}

#[test]
fn merge_twice_adds_nothing_the_second_time() {
    let results = vec![fetched("Rust", "target/\nCargo.lock\n")];
    let first = merge_fetched(&results, "");
    assert_eq!(
        first.lines,
        vec!["target/".to_string(), "Cargo.lock".to_string()]
    );
    // The first run appends its batch to the (empty) target; the second
    // run sees that content and collects nothing.
    let mut target = String::new();
    for line in &first.lines {
        target.push_str(line);
        target.push('\n');
    }
    let second = merge_fetched(&results, &target);
    assert!(second.lines.is_empty());
    assert_eq!(second.succeeded, vec!["Rust".to_string()]);
}

#[test]
fn merge_of_empty_body_succeeds_with_no_lines() {
    let r = merge_fetched(&vec![fetched("empty", "")], "");
    assert!(r.lines.is_empty());
    assert_eq!(r.succeeded, vec!["empty".to_string()]);
}

#[test]
fn merge_treats_trailing_whitespace_as_equal() {
    let r = merge_fetched(&vec![fetched("x", "a\t\na \na\n")], "");
    assert_eq!(r.lines, vec!["a".to_string()]);
}
