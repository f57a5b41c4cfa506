use git_ignore::data::{IgnoreData, TypeName, list, search};

fn pair(k: &str, v: &str) -> (String, String) {
    (k.to_string(), v.to_string())
}

fn sample() -> IgnoreData {
    IgnoreData::new(
        vec![pair("Rust", "target/\n"), pair("Node", "node_modules/\n")],
        vec![pair("Linux", "*.swp\n")],
        vec![("web".to_string(), vec!["Node".to_string(), "Rust".to_string()])],
        vec![pair("mine", "secret.txt\n")],
    )
}

fn inner_keys(names: &[TypeName]) -> Vec<String> {
    names.iter().map(|n| n.inner().to_string()).collect()
}

#[test]
fn catalog_is_sorted_vendor_alias_user() {
    let data = sample();
    let keys = inner_keys(&data.keys());
    assert_eq!(keys, vec!["Global/Linux", "Node", "Rust", "web", "mine"]);
}

#[test]
fn catalog_orders_keys_within_variant() {
    let data = IgnoreData::new(
        vec![pair("b", "2"), pair("a", "1"), pair("c", "3")],
        vec![],
        vec![],
        vec![pair("z", "9"), pair("y", "8")],
    );
    let keys = inner_keys(&data.keys());
    assert_eq!(keys, vec!["a", "b", "c", "y", "z"]);
}

#[test]
fn empty_catalog_lists_nothing() {
    let data = IgnoreData::new(vec![], vec![], vec![], vec![]);
    assert!(data.keys().is_empty());
    assert_eq!(list(&data, &vec![]), "");
}

#[test]
fn getters_find_each_variant() {
    let data = sample();
    assert_eq!(data.get_template("Rust"), Some("target/\n".to_string()));
    assert_eq!(data.get_template("Global/Linux"), Some("*.swp\n".to_string()));
    assert_eq!(
        data.get_alias("web"),
        Some(vec!["Node".to_string(), "Rust".to_string()])
    );
    assert_eq!(data.get_user_template("mine"), Some("secret.txt\n".to_string()));
    assert_eq!(data.get_template("mine"), None);
    assert_eq!(data.get_alias("Rust"), None);
    assert_eq!(data.get_user_template("Rust"), None);
}

#[test]
fn type_name_contains_is_substring_matching() {
    let data = sample();
    let keys = data.keys();
    let rust = keys.iter().find(|n| n.inner() == "Rust").unwrap();
    assert!(rust.contains("ust"));
    assert!(rust.contains(""));
    assert!(!rust.contains("rust"));
}

#[test]
fn search_matches_any_substring_once() {
    let data = IgnoreData::new(
        vec![
            pair("rust", "a"),
            pair("rusty-node", "b"),
            pair("node", "c"),
            pair("python", "d"),
        ],
        vec![],
        vec![],
        vec![],
    );
    let found = inner_keys(&search(&data, &vec!["rust".to_string(), "node".to_string()]));
    assert_eq!(found, vec!["node", "rust", "rusty-node"]);
}

#[test]
fn search_with_no_substrings_returns_all() {
    let data = sample();
    let found = inner_keys(&search(&data, &vec![]));
    assert_eq!(found, vec!["Global/Linux", "Node", "Rust", "web", "mine"]);
}

#[test]
fn list_renders_two_space_indented_lines() {
    let data = sample();
    let text = list(&data, &vec!["Rust".to_string()]);
    assert_eq!(text, "  Rust\n");
    let all = list(&data, &vec![]);
    assert_eq!(all, "  Global/Linux\n  Node\n  Rust\n  web\n  mine\n");
}

#[test]
fn listings_report_aliases_and_templates() {
    let data = sample();
    assert_eq!(
        data.list_aliases(),
        vec![("web".to_string(), vec!["Node".to_string(), "Rust".to_string()])]
    );
    assert_eq!(
        data.list_templates(),
        vec![("mine".to_string(), "secret.txt\n".to_string())]
    );
}
