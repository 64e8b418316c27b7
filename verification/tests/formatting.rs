//! Placeholder substitution in leaf strings.

use wasm_i18n::I18nError;
use wasm_i18n::Node;
use wasm_i18n::TranslationManager;

fn leaf(text: &str) -> Node {
    Node::leaf(text.to_string())
}

fn args(pairs: &[(&str, &str)]) -> Vec<(String, String)> {
    pairs
        .iter()
        .map(|(k, v)| (k.to_string(), v.to_string()))
        .collect()
}

#[test]
fn format_translation_substitutes_argument() {
    let mut m = TranslationManager::new();
    let tree = Node::empty_branch().with_child("welcome", leaf("Hello, {name}!"));
    m.set_translations("en", tree).unwrap();
    let out = m
        .format_translation("en", "welcome", &args(&[("name", "Ann")]))
        .unwrap();
    assert_eq!(out, "Hello, Ann!");
}

#[test]
fn format_with_missing_argument_keeps_placeholder() {
    let mut m = TranslationManager::new();
    let tree = Node::empty_branch().with_child("welcome", leaf("Hi, {name}!"));
    m.set_translations("en", tree).unwrap();
    let out = m.format_translation("en", "welcome", &args(&[])).unwrap();
    assert_eq!(out, "Hi, {name}!");
}

#[test]
fn format_repeated_placeholder_uses_same_value() {
    let out = wasm_i18n::format_string("{a} and {a}", &args(&[("a", "x")])).unwrap();
    assert_eq!(out, "x and x");
}

#[test]
fn format_on_branch_fails() {
    let mut m = TranslationManager::new();
    let tree = Node::empty_branch().with_child("a", Node::empty_branch().with_child("b", leaf("x")));
    m.set_translations("en", tree).unwrap();
    assert_eq!(
        m.format_translation("en", "a", &args(&[])),
        Err(I18nError::FormatTargetNotString)
    );
}

#[test]
fn format_errors_propagate() {
    let mut m = TranslationManager::new();
    assert_eq!(
        m.format_translation("en", "a", &args(&[])),
        Err(I18nError::LocaleNotFound)
    );
    m.set_translations("en", Node::empty_branch()).unwrap();
    assert_eq!(
        m.format_translation("en", "missing", &args(&[])),
        Err(I18nError::KeyNotFound)
    );
}

#[test]
fn substituted_value_is_not_rescanned() {
    let out = wasm_i18n::format_string("{a}", &args(&[("a", "{b}"), ("b", "z")])).unwrap();
    assert_eq!(out, "{b}");
}

#[test]
fn malformed_placeholders_pass_through() {
    let a = args(&[("name", "Ann")]);
    assert_eq!(wasm_i18n::format_string("{name", &a).unwrap(), "{name");
    assert_eq!(wasm_i18n::format_string("name}", &a).unwrap(), "name}");
    assert_eq!(wasm_i18n::format_string("a{}b", &a).unwrap(), "a{}b");
    assert_eq!(
        wasm_i18n::format_string("{bad name}", &a).unwrap(),
        "{bad name}"
    );
}

#[test]
fn brace_before_token_is_kept() {
    let out = wasm_i18n::format_string("{{name}", &args(&[("name", "Ann")])).unwrap();
    assert_eq!(out, "{Ann");
}

#[test]
fn format_multiple_arguments() {
    let out = wasm_i18n::format_string(
        "{greeting}, {name}! Today is {day}.",
        &args(&[("greeting", "Hello"), ("name", "Bob"), ("day", "Monday")]),
    )
    .unwrap();
    assert_eq!(out, "Hello, Bob! Today is Monday.");
}

#[test]
fn format_empty_template() {
    assert_eq!(
        wasm_i18n::format_string("", &args(&[("a", "x")])).unwrap(),
        ""
    );
}

#[test]
fn format_keeps_text_outside_placeholders() {
    let out = wasm_i18n::format_string("nothing to do", &args(&[])).unwrap();
    assert_eq!(out, "nothing to do");
}

#[test]
fn format_handles_multibyte_text() {
    let out = wasm_i18n::format_string("héllo {name} — grüße", &args(&[("name", "Ann")])).unwrap();
    assert_eq!(out, "héllo Ann — grüße");
}

#[test]
fn format_string_entry_points_agree() {
    let a = args(&[("k", "K")]);
    let free = wasm_i18n::format_string("x{k}y", &a).unwrap();
    let helper = wasm_i18n::helpers::format_string("x{k}y", &a).unwrap();
    let from_format = wasm_i18n::format::format_string("x{k}y", &a).unwrap();
    let m = TranslationManager::new();
    let method = m.format_string("x{k}y", &a).unwrap();
    assert_eq!(free, "xKy");
    assert_eq!(helper, "xKy");
    assert_eq!(from_format, "xKy");
    assert_eq!(method, "xKy");
}

#[test]
fn underscore_and_digits_in_names() {
    let out = wasm_i18n::format_string(
        "{user_2} is here",
        &args(&[("user_2", "Cleo")]),
    )
    .unwrap();
    assert_eq!(out, "Cleo is here");
}
