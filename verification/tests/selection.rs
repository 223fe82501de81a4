//! Which files are read, and in which order.

use policylens::files::{config_files, rule_files};

fn names(list: &[&str]) -> Vec<String> {
    list.iter().map(|s| s.to_string()).collect()
}

#[test]
fn configuration_files_are_selected_by_extension_and_sorted() {
    let found = config_files(&names(&["b.tf", "a.tf", ".tf", "a.tfvars", "tf", "Z.tf", "a.b.tf", "x.tf.bak"]));
    assert_eq!(found, names(&["Z.tf", "a.b.tf", "a.tf", "b.tf"]));
}

#[test]
fn rule_files_are_selected_by_extension_and_sorted() {
    let found = rule_files(&names(&["two.yml", "one.yaml", ".yaml", "notes.md", "a.yamll"]));
    assert_eq!(found, names(&["one.yaml", "two.yml"]));
}

#[test]
fn a_shorter_name_comes_before_a_longer_one_that_it_begins() {
    assert_eq!(config_files(&names(&["ab.tf", "a.tf"])), names(&["a.tf", "ab.tf"]));
    assert!(config_files(&names(&[])).is_empty());
}
