use dbdev::create::{create_extension_query, quote_ident, quote_literal};

#[test]
fn quotes_are_doubled_not_dropped() {
    assert_eq!(quote_ident(r#"ext"; drop table t; --"#), r#""ext""; drop table t; --""#);
    assert_eq!(quote_literal("1.0'; drop table t; --"), "'1.0''; drop table t; --'");
}

#[test]
fn plain_values_are_only_wrapped() {
    assert_eq!(quote_ident("pg_net"), "\"pg_net\"");
    assert_eq!(quote_literal("1.2.3"), "'1.2.3'");
    assert_eq!(quote_ident(""), "\"\"");
    assert_eq!(quote_literal("'"), "''''");
}

#[test]
fn other_quote_kinds_are_left_alone() {
    assert_eq!(quote_ident("it's"), "\"it's\"");
    assert_eq!(quote_literal("say \"hi\""), "'say \"hi\"'");
}

#[test]
fn create_query_with_only_a_name() {
    assert_eq!(
        create_extension_query("my_ext", None, None, false),
        "create extension if not exists \"my_ext\";"
    );
}

#[test]
fn create_query_with_every_option() {
    assert_eq!(
        create_extension_query("my_ext", Some("extensions"), Some("1.0.0"), true),
        "create extension if not exists \"my_ext\" schema \"extensions\" version '1.0.0' cascade;"
    );
}

#[test]
fn create_query_quotes_hostile_input() {
    assert_eq!(
        create_extension_query("a\"b", Some("s\""), Some("1'"), false),
        "create extension if not exists \"a\"\"b\" schema \"s\"\"\" version '1''';"
    );
}

#[test]
fn quoted_tokens_have_paired_quotes_inside() {
    let value = "a\"\"b\"c";
    let r = quote_ident(value);
    assert_eq!(r.chars().count(), value.chars().count() + 2 + 3);
    assert!(r.starts_with('"') && r.ends_with('"'));
    let inner = &r[1..r.len() - 1];
    assert_eq!(inner, "a\"\"\"\"b\"\"c");
    assert_eq!(inner.replace("\"\"", "\""), value);

    let r = quote_literal("it's");
    assert_eq!(&r[1..r.len() - 1].replace("''", "'"), "it's");
}
