//! The tree-walking helpers, used directly on branch entry lists.

use wasm_i18n::I18nError;
use wasm_i18n::Node;
use wasm_i18n::helpers;
use wasm_i18n::merge;

fn leaf(text: &str) -> Node {
    Node::leaf(text.to_string())
}

fn entries_of(node: Node) -> Vec<(String, Node)> {
    let mut out = Vec::new();
    for name in ["a", "b", "c", "x", "y"] {
        if let Some(child) = node.child(name) {
            out.push((name.to_string(), child.deep_clone()));
        }
    }
    out
}

#[test]
fn get_value_by_key_walks_nested_branches() {
    let tree = Node::empty_branch()
        .with_child("a", Node::empty_branch().with_child("b", leaf("x")))
        .with_child("c", leaf("top"));
    let entries = entries_of(tree);
    let found = helpers::get_value_by_key(&entries, "a.b").unwrap();
    assert_eq!(found.leaf_value().unwrap(), "x");
    let top = helpers::get_value_by_key(&entries, "c").unwrap();
    assert_eq!(top.leaf_value().unwrap(), "top");
    assert!(matches!(
        helpers::get_value_by_key(&entries, "a.zz"),
        Err(I18nError::KeyNotFound)
    ));
    assert!(matches!(
        helpers::get_value_by_key(&entries, "c.deeper"),
        Err(I18nError::TypeMismatch)
    ));
}

#[test]
fn update_translation_recursive_creates_intermediates() {
    let mut entries: Vec<(String, Node)> = Vec::new();
    let keys = vec!["a".to_string(), "b".to_string()];
    helpers::update_translation_recursive(&mut entries, &keys, 0, leaf("v")).unwrap();
    let found = helpers::get_value_by_key(&entries, "a.b").unwrap();
    assert_eq!(found.leaf_value().unwrap(), "v");
}

#[test]
fn update_translation_recursive_rejects_leaf_intermediate() {
    let mut entries = entries_of(Node::empty_branch().with_child("a", leaf("x")));
    let keys = vec!["a".to_string(), "b".to_string()];
    assert_eq!(
        helpers::update_translation_recursive(&mut entries, &keys, 0, leaf("v")),
        Err(I18nError::TypeMismatch)
    );
    let kept = helpers::get_value_by_key(&entries, "a").unwrap();
    assert_eq!(kept.leaf_value().unwrap(), "x");
}

#[test]
fn remove_translation_recursive_removes_final_entry() {
    let mut entries = entries_of(
        Node::empty_branch()
            .with_child("a", Node::empty_branch().with_child("b", leaf("x")).with_child("c", leaf("y"))),
    );
    let keys = vec!["a".to_string(), "b".to_string()];
    helpers::remove_translation_recursive(&mut entries, &keys, 0);
    assert!(helpers::get_value_by_key(&entries, "a.b").is_err());
    assert!(helpers::get_value_by_key(&entries, "a.c").is_ok());
}

#[test]
fn remove_translation_recursive_ignores_absent_path() {
    let mut entries = entries_of(Node::empty_branch().with_child("a", leaf("x")));
    let keys = vec!["zz".to_string(), "q".to_string()];
    helpers::remove_translation_recursive(&mut entries, &keys, 0);
    assert!(helpers::get_value_by_key(&entries, "a").is_ok());
}

#[test]
fn merge_translation_values_merges_branches() {
    let mut existing = Node::empty_branch().with_child("a", leaf("x"));
    let incoming = Node::empty_branch().with_child("b", leaf("y"));
    merge::merge_translation_values(&mut existing, incoming);
    assert_eq!(existing.child("a").unwrap().leaf_value().unwrap(), "x");
    assert_eq!(existing.child("b").unwrap().leaf_value().unwrap(), "y");
}

#[test]
fn merge_translation_values_replaces_on_shape_conflict() {
    let mut existing = Node::empty_branch().with_child("a", leaf("x"));
    let incoming = leaf("whole");
    merge::merge_translation_values(&mut existing, incoming);
    assert_eq!(existing.leaf_value().unwrap(), "whole");
}

#[test]
fn merge_node_recurses_per_key() {
    let existing = Node::empty_branch()
        .with_child("a", Node::empty_branch().with_child("b", leaf("x")));
    let incoming = Node::empty_branch()
        .with_child("a", Node::empty_branch().with_child("c", leaf("y")));
    let merged = merge::merge_node(existing, incoming);
    let a = merged.child("a").unwrap();
    assert_eq!(a.child("b").unwrap().leaf_value().unwrap(), "x");
    assert_eq!(a.child("c").unwrap().leaf_value().unwrap(), "y");
}

#[test]
fn deep_clone_is_independent() {
    let source = Node::empty_branch().with_child("a", leaf("x"));
    let copy = source.deep_clone();
    drop(source);
    assert_eq!(copy.child("a").unwrap().leaf_value().unwrap(), "x");
}
