//! Create, read, update and delete operations on the translation store.

use wasm_i18n::I18nError;
use wasm_i18n::Node;
use wasm_i18n::TranslationManager;

fn leaf(text: &str) -> Node {
    Node::leaf(text.to_string())
}

#[test]
fn set_and_get_translation() {
    let mut m = TranslationManager::new();
    let tree = Node::empty_branch().with_child("welcome", leaf("Welcome, {username}!"));
    m.set_translations("en", tree).unwrap();
    let got = m.get_translation("en", "welcome").unwrap();
    assert_eq!(got.leaf_value().unwrap(), "Welcome, {username}!");
}

#[test]
fn get_missing_locale_fails() {
    let m = TranslationManager::new();
    assert!(matches!(
        m.get_translation("en", "welcome"),
        Err(I18nError::LocaleNotFound)
    ));
}

#[test]
fn get_missing_path_fails_key_not_found() {
    let mut m = TranslationManager::new();
    let tree = Node::empty_branch().with_child("welcome", leaf("Hello"));
    m.set_translations("en", tree).unwrap();
    assert!(matches!(
        m.get_translation("en", "missing.path"),
        Err(I18nError::KeyNotFound)
    ));
}

#[test]
fn set_twice_deep_merges() {
    let mut m = TranslationManager::new();
    let t1 = Node::empty_branch().with_child("a", Node::empty_branch().with_child("b", leaf("x")));
    let t2 = Node::empty_branch().with_child("a", Node::empty_branch().with_child("c", leaf("y")));
    m.set_translations("en", t1).unwrap();
    m.set_translations("en", t2).unwrap();
    let b = m.get_translation("en", "a.b").unwrap();
    assert_eq!(b.leaf_value().unwrap(), "x");
    let c = m.get_translation("en", "a.c").unwrap();
    assert_eq!(c.leaf_value().unwrap(), "y");
}

#[test]
fn delete_then_sibling_remains() {
    let mut m = TranslationManager::new();
    let t1 = Node::empty_branch().with_child("a", Node::empty_branch().with_child("b", leaf("x")));
    let t2 = Node::empty_branch().with_child("a", Node::empty_branch().with_child("c", leaf("y")));
    m.set_translations("en", t1).unwrap();
    m.set_translations("en", t2).unwrap();
    m.del_translation("en", "a.b").unwrap();
    assert!(!m.has_translation("en", "a.b"));
    assert!(m.has_translation("en", "a.c"));
}

#[test]
fn update_then_get_round_trip() {
    let mut m = TranslationManager::new();
    m.set_translations("en", Node::empty_branch()).unwrap();
    m.update_translation("en", "menu.file.open", leaf("Open")).unwrap();
    let got = m.get_translation("en", "menu.file.open").unwrap();
    assert_eq!(got.leaf_value().unwrap(), "Open");
}

#[test]
fn update_into_leaf_fails_type_mismatch() {
    let mut m = TranslationManager::new();
    let tree = Node::empty_branch().with_child("a", leaf("x"));
    m.set_translations("en", tree).unwrap();
    assert_eq!(
        m.update_translation("en", "a.b", leaf("y")),
        Err(I18nError::TypeMismatch)
    );
    let got = m.get_translation("en", "a").unwrap();
    assert_eq!(got.leaf_value().unwrap(), "x");
}

#[test]
fn update_absent_locale_fails() {
    let mut m = TranslationManager::new();
    assert_eq!(
        m.update_translation("fr", "a", leaf("y")),
        Err(I18nError::LocaleNotFound)
    );
}

#[test]
fn resolve_through_leaf_fails_type_mismatch() {
    let mut m = TranslationManager::new();
    let tree = Node::empty_branch().with_child("a", leaf("x"));
    m.set_translations("en", tree).unwrap();
    assert!(matches!(
        m.get_translation("en", "a.b"),
        Err(I18nError::TypeMismatch)
    ));
}

#[test]
fn delete_absent_path_is_no_op() {
    let mut m = TranslationManager::new();
    let tree = Node::empty_branch().with_child("a", leaf("x"));
    m.set_translations("en", tree).unwrap();
    m.del_translation("en", "zz.q").unwrap();
    assert!(m.has_translation("en", "a"));
}

#[test]
fn delete_on_absent_locale_fails() {
    let mut m = TranslationManager::new();
    assert_eq!(
        m.del_translation("fr", "a"),
        Err(I18nError::LocaleNotFound)
    );
}

#[test]
fn delete_leaves_empty_branch_in_place() {
    let mut m = TranslationManager::new();
    let tree = Node::empty_branch().with_child("a", Node::empty_branch().with_child("b", leaf("x")));
    m.set_translations("en", tree).unwrap();
    m.del_translation("en", "a.b").unwrap();
    assert!(!m.has_translation("en", "a.b"));
    assert!(m.has_translation("en", "a"));
    let a = m.get_translation("en", "a").unwrap();
    assert!(a.is_branch());
}

#[test]
fn has_locale_lifecycle() {
    let mut m = TranslationManager::new();
    assert!(!m.has_locale("en"));
    let tree = Node::empty_branch().with_child("welcome", leaf("Hello"));
    m.set_translations("en", tree).unwrap();
    assert!(m.has_locale("en"));
    assert!(!m.has_locale("fr"));
    m.del_translations("en").unwrap();
    assert!(!m.has_locale("en"));
}

#[test]
fn delete_locale_is_idempotent() {
    let mut m = TranslationManager::new();
    m.del_translations("en").unwrap();
    assert!(!m.has_locale("en"));
}

#[test]
fn clear_all_translations_removes_every_locale() {
    let mut m = TranslationManager::new();
    m.set_translations("en", Node::empty_branch().with_child("a", leaf("x")))
        .unwrap();
    m.set_translations("fr", Node::empty_branch().with_child("a", leaf("y")))
        .unwrap();
    m.clear_all_translations().unwrap();
    assert!(!m.has_locale("en"));
    assert!(!m.has_locale("fr"));
    assert!(m.get_all_locales().is_empty());
}

#[test]
fn get_all_locales_lists_each_once() {
    let mut m = TranslationManager::new();
    m.set_translations("en", Node::empty_branch().with_child("a", leaf("x")))
        .unwrap();
    m.set_translations("fr", Node::empty_branch().with_child("a", leaf("y")))
        .unwrap();
    m.set_translations("en", Node::empty_branch().with_child("b", leaf("z")))
        .unwrap();
    let mut locales = m.get_all_locales();
    locales.sort();
    assert_eq!(locales, vec!["en".to_string(), "fr".to_string()]);
}

#[test]
fn get_translations_returns_whole_tree() {
    let mut m = TranslationManager::new();
    let tree = Node::empty_branch().with_child("a", Node::empty_branch().with_child("b", leaf("x")));
    m.set_translations("en", tree).unwrap();
    let whole = m.get_translations("en").unwrap();
    assert!(whole.is_branch());
    let a = whole.child("a").unwrap();
    let b = a.child("b").unwrap();
    assert_eq!(b.leaf_value().unwrap(), "x");
    assert!(matches!(
        m.get_translations("fr"),
        Err(I18nError::LocaleNotFound)
    ));
}

#[test]
fn get_all_translations_for_locale_matches_get_translations() {
    let mut m = TranslationManager::new();
    let tree = Node::empty_branch().with_child("a", leaf("x"));
    m.set_translations("en", tree).unwrap();
    let whole = m.get_all_translations_for_locale("en").unwrap();
    assert_eq!(whole.child("a").unwrap().leaf_value().unwrap(), "x");
}

#[test]
fn get_all_translations_snapshots_store() {
    let mut m = TranslationManager::new();
    m.set_translations("en", Node::empty_branch().with_child("a", leaf("x")))
        .unwrap();
    m.set_translations("fr", Node::empty_branch().with_child("b", leaf("y")))
        .unwrap();
    let all = m.get_all_translations();
    assert_eq!(all.len(), 2);
    for (locale, tree) in &all {
        assert!(m.has_locale(locale));
        assert!(tree.is_branch());
    }
}

#[test]
fn has_key_in_translations_matches_has_translation() {
    let mut m = TranslationManager::new();
    let tree = Node::empty_branch().with_child("a", leaf("x"));
    m.set_translations("en", tree).unwrap();
    assert_eq!(
        m.has_key_in_translations("en", "a"),
        m.has_translation("en", "a")
    );
    assert_eq!(
        m.has_key_in_translations("en", "zz"),
        m.has_translation("en", "zz")
    );
    assert!(!m.has_key_in_translations("fr", "a"));
}

#[test]
fn leaf_branch_conflict_resolves_to_incoming() {
    let mut m = TranslationManager::new();
    let t1 = Node::empty_branch().with_child("a", Node::empty_branch().with_child("b", leaf("x")));
    let t2 = Node::empty_branch().with_child("a", leaf("s"));
    m.set_translations("en", t1).unwrap();
    m.set_translations("en", t2).unwrap();
    let a = m.get_translation("en", "a").unwrap();
    assert_eq!(a.leaf_value().unwrap(), "s");

    let t3 = Node::empty_branch().with_child("a", Node::empty_branch().with_child("c", leaf("z")));
    m.set_translations("en", t3).unwrap();
    let c = m.get_translation("en", "a.c").unwrap();
    assert_eq!(c.leaf_value().unwrap(), "z");
}

#[test]
fn update_overwrites_existing_leaf() {
    let mut m = TranslationManager::new();
    let tree = Node::empty_branch().with_child("welcome", leaf("Welcome, {username}!"));
    m.set_translations("en", tree).unwrap();
    m.update_translation("en", "welcome", leaf("Hello, {username}!"))
        .unwrap();
    let got = m.get_translation("en", "welcome").unwrap();
    assert_eq!(got.leaf_value().unwrap(), "Hello, {username}!");
}

#[test]
fn single_segment_path_works_at_root() {
    let mut m = TranslationManager::new();
    m.set_translations("en", Node::empty_branch()).unwrap();
    m.update_translation("en", "k", leaf("v")).unwrap();
    assert!(m.has_translation("en", "k"));
    m.del_translation("en", "k").unwrap();
    assert!(!m.has_translation("en", "k"));
}

#[test]
fn empty_segments_are_ordinary_names() {
    let mut m = TranslationManager::new();
    m.set_translations("en", Node::empty_branch()).unwrap();
    m.update_translation("en", "a..b", leaf("v")).unwrap();
    let got = m.get_translation("en", "a..b").unwrap();
    assert_eq!(got.leaf_value().unwrap(), "v");
    assert!(!m.has_translation("en", "a.b"));
}

#[test]
fn node_getters_report_shape() {
    let l = Node::leaf("x".to_string());
    assert!(l.is_leaf());
    assert!(!l.is_branch());
    assert!(l.child("a").is_none());
    let b = Node::empty_branch().with_child("a", Node::leaf("x".to_string()));
    assert!(b.is_branch());
    assert!(b.leaf_value().is_none());
    assert!(b.child("a").is_some());
    assert!(b.child("zz").is_none());
}

#[test]
fn error_messages_are_stable() {
    assert_eq!(I18nError::LocaleNotFound.message(), "Locale not found");
    assert_eq!(I18nError::KeyNotFound.message(), "Key not found");
    assert_eq!(
        I18nError::TypeMismatch.message(),
        "Invalid key path: found a string where a nested map was expected"
    );
    assert_eq!(
        I18nError::FormatTargetNotString.message(),
        "Translation is not a string"
    );
}
