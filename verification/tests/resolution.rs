use git_ignore::data::IgnoreData;
use git_ignore::resolve::{get_templates, resolve_templates};

fn pair(k: &str, v: &str) -> (String, String) {
    (k.to_string(), v.to_string())
}

#[test]
fn resolving_prefixes_a_header_when_nonempty() {
    let data = IgnoreData::new(vec![pair("Rust", "target/\n")], vec![], vec![], vec![]);
    let text = get_templates(&data, &vec!["Rust".to_string()]);
    assert_eq!(
        text,
        "\n\n### Sourced from github/gitignore for: Rust ###\ntarget/\n"
    );
}

#[test]
fn resolving_joins_requested_names_in_header() {
    let data = IgnoreData::new(
        vec![pair("Rust", "R\n"), pair("Node", "N\n")],
        vec![],
        vec![],
        vec![],
    );
    let text = get_templates(&data, &vec!["Rust".to_string(), "Node".to_string()]);
    assert_eq!(
        text,
        "\n\n### Sourced from github/gitignore for: Rust, Node ###\nR\nN\n"
    );
}

#[test]
fn user_template_wins_over_vendor_template() {
    let data = IgnoreData::new(
        vec![pair("node", "VENDOR\n")],
        vec![],
        vec![],
        vec![pair("node", "USER\n")],
    );
    let text = get_templates(&data, &vec!["node".to_string()]);
    assert_eq!(
        text,
        "\n\n### Sourced from github/gitignore for: node ###\nUSER\n"
    );
}

#[test]
fn alias_targets_prefer_user_then_vendor() {
    let data = IgnoreData::new(
        vec![pair("a", "vendor-a\n"), pair("b", "vendor-b\n")],
        vec![],
        vec![("combo".to_string(), vec!["a".to_string(), "b".to_string()])],
        vec![pair("a", "user-a\n")],
    );
    let text = get_templates(&data, &vec!["combo".to_string()]);
    assert_eq!(
        text,
        "\n\n### Sourced from github/gitignore for: combo ###\nuser-a\nvendor-b\n"
    );
}

#[test]
fn alias_expansion_is_one_level_only() {
    // "outer" points at "inner", which is itself only an alias: the
    // target is not expanded further, contributes nothing, and is
    // reported as missing.
    let data = IgnoreData::new(
        vec![pair("Rust", "target/\n")],
        vec![],
        vec![
            ("outer".to_string(), vec!["inner".to_string()]),
            ("inner".to_string(), vec!["Rust".to_string()]),
        ],
        vec![],
    );
    let r = resolve_templates(&data, &vec!["outer".to_string()]);
    assert_eq!(r.text, "");
    assert_eq!(r.missing, vec!["inner".to_string()]);
}

#[test]
fn unknown_names_yield_empty_output() {
    let data = IgnoreData::new(vec![pair("Rust", "target/\n")], vec![], vec![], vec![]);
    let text = get_templates(&data, &vec!["nothing".to_string()]);
    assert_eq!(text, "");
}

#[test]
fn missing_alias_target_is_reported_but_rest_resolves() {
    let data = IgnoreData::new(
        vec![pair("Rust", "target/\n")],
        vec![],
        vec![(
            "mix".to_string(),
            vec!["ghost".to_string(), "Rust".to_string()],
        )],
        vec![],
    );
    let r = resolve_templates(&data, &vec!["mix".to_string()]);
    assert_eq!(
        r.text,
        "\n\n### Sourced from github/gitignore for: mix ###\ntarget/\n"
    );
    assert_eq!(r.missing, vec!["ghost".to_string()]);
}
