use leptos_styling::delivery::{render_inline, render_links};
use leptos_styling::{
    generate_style_sheets, DeliveryMode, Registry, Rendered, StyleSheet, StyleSheets,
    DEFAULT_BASE_URL,
};

fn registry_of(mode: DeliveryMode, sheets: &[(&'static str, Option<&'static str>)]) -> Registry {
    let mut registry = Registry::new(mode);
    for (name, content) in sheets {
        registry.register(StyleSheet::new(name, *content));
    }
    registry
}

fn links(markup: Rendered) -> Vec<String> {
    match markup {
        Rendered::Links(addresses) => addresses,
        other => panic!("expected links, got {:?}", other),
    }
}

fn inline(markup: Rendered) -> String {
    match markup {
        Rendered::Inline(text) => text,
        other => panic!("expected a style block, got {:?}", other),
    }
}

#[test]
fn default_base_url_is_pkg() {
    assert_eq!(DEFAULT_BASE_URL, "pkg");
}

#[test]
fn server_renders_one_link_for_green_button() {
    let registry =
        registry_of(DeliveryMode::Server, &[("green_button", Some(".button{color:green}"))]);
    assert_eq!(links(StyleSheets(&registry, "pkg/")), vec!["pkg/green_button.css"]);
}

#[test]
fn server_flushes_green_button_to_one_file() {
    let registry =
        registry_of(DeliveryMode::Server, &[("green_button", Some(".button{color:green}"))]);
    let files = generate_style_sheets(&registry);
    assert_eq!(files.len(), 1);
    assert_eq!(files[0].name, "green_button.css");
    assert_eq!(files[0].content, ".button{color:green}");
    let path = std::path::Path::new("dist/pkg").join(&files[0].name);
    assert_eq!(path, std::path::Path::new("dist/pkg/green_button.css"));
}

#[test]
fn client_renders_green_button_inline() {
    let registry =
        registry_of(DeliveryMode::Client, &[("green_button", Some(".button{color:green}"))]);
    assert_eq!(inline(StyleSheets(&registry, "pkg/")), ".button{color:green}");
}

#[test]
fn names_of_one_file_render_as_one_link() {
    let registry = registry_of(DeliveryMode::Server, &[("a", Some("1")), ("a.css", Some("2"))]);
    assert_eq!(links(StyleSheets(&registry, DEFAULT_BASE_URL)), vec!["pkg/a.css"]);
}

#[test]
fn links_keep_first_occurrence_order_and_ignore_content() {
    let registry = registry_of(
        DeliveryMode::Server,
        &[("b", None), ("a", Some("x")), ("b.css", Some("y")), ("c.css", None), ("a", None)],
    );
    assert_eq!(
        links(StyleSheets(&registry, "/static/css//")),
        vec!["/static/css/b.css", "/static/css/a.css", "/static/css/c.css"]
    );
}

#[test]
fn links_are_never_repeated() {
    let registry = registry_of(
        DeliveryMode::Server,
        &[("a", None), ("b", None), ("a.css", None), ("b.css", None), ("a", None)],
    );
    let addresses = links(StyleSheets(&registry, "pkg"));
    assert_eq!(addresses.len(), 2);
    assert_ne!(addresses[0], addresses[1]);
}

#[test]
fn inline_block_holds_both_contents_of_one_name() {
    let registry = registry_of(DeliveryMode::Client, &[("x", Some("A")), ("x", Some("B"))]);
    let text = inline(StyleSheets(&registry, "pkg"));
    assert!(text.contains("A"));
    assert!(text.contains("B"));
    assert_eq!(text, "AB");
}

#[test]
fn inline_block_concatenates_groups_in_order_of_first_occurrence() {
    let registry = registry_of(
        DeliveryMode::Client,
        &[("b", Some("b1;")), ("a", Some("a1;")), ("b.css", Some("b2;")), ("c", None)],
    );
    assert_eq!(inline(StyleSheets(&registry, "ignored")), "b1;b2;a1;");
}

#[test]
fn inline_block_is_as_long_as_all_contents_together() {
    let sheets = [("m", Some("12345")), ("n.css", Some("")), ("m.css", Some("678")), ("n", None)];
    let registry = registry_of(DeliveryMode::Client, &sheets);
    let total: usize = sheets.iter().map(|(_, c)| c.unwrap_or("").len()).sum();
    assert_eq!(inline(StyleSheets(&registry, "pkg")).len(), total);
}

#[test]
fn empty_registry_renders_empty_markup() {
    assert!(links(StyleSheets(&Registry::new(DeliveryMode::Server), "pkg")).is_empty());
    assert_eq!(inline(StyleSheets(&Registry::new(DeliveryMode::Client), "pkg")), "");
    assert!(generate_style_sheets(&Registry::new(DeliveryMode::Server)).is_empty());
}

#[test]
fn flush_writes_one_file_for_each_canonical_name() {
    let registry = registry_of(
        DeliveryMode::Server,
        &[("red", Some(".r{}")), ("blue.css", Some(".b{}")), ("red.css", Some(".r2{}"))],
    );
    let files = generate_style_sheets(&registry);
    assert_eq!(files.len(), 2);
    assert_eq!(files[0].name, "red.css");
    assert_eq!(files[0].content, ".r{}.r2{}");
    assert_eq!(files[1].name, "blue.css");
    assert_eq!(files[1].content, ".b{}");
}

#[test]
fn flushing_again_gives_the_same_files() {
    let registry = registry_of(DeliveryMode::Server, &[("a", Some("1")), ("b", Some("2"))]);
    let first: Vec<(String, String)> =
        generate_style_sheets(&registry).into_iter().map(|g| (g.name, g.content)).collect();
    let second: Vec<(String, String)> =
        generate_style_sheets(&registry).into_iter().map(|g| (g.name, g.content)).collect();
    assert_eq!(first, second);
}

#[test]
fn only_server_delivery_generates_files() {
    let sheets = [("a", Some("1")), ("b", Some("2"))];
    assert!(generate_style_sheets(&registry_of(DeliveryMode::Client, &sheets)).is_empty());
    assert!(generate_style_sheets(&registry_of(DeliveryMode::Inert, &sheets)).is_empty());
    assert_eq!(generate_style_sheets(&registry_of(DeliveryMode::Server, &sheets)).len(), 2);
}

#[test]
fn inert_mode_delivers_nothing() {
    let registry = registry_of(
        DeliveryMode::Inert,
        &[("green_button", Some(".button{color:green}")), ("red_button", Some(".r{}"))],
    );
    assert!(registry.all().iter().all(|sheet| sheet.content.is_none()));
    assert!(matches!(StyleSheets(&registry, "pkg"), Rendered::Nothing));
    assert!(generate_style_sheets(&registry).is_empty());
}

#[test]
fn render_links_works_on_plain_sheets() {
    let sheets = vec![StyleSheet::new("a", None), StyleSheet::new("a.css", Some("x"))];
    assert_eq!(render_links(&sheets, "pkg/"), vec!["pkg/a.css"]);
}

#[test]
fn render_inline_treats_absent_content_as_empty() {
    let sheets = vec![
        StyleSheet::new("a", None),
        StyleSheet::new("b", Some("B")),
        StyleSheet::new("a", Some("A")),
    ];
    assert_eq!(render_inline(&sheets), "AB");
}
