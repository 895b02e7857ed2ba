use leptos_styling::{DeliveryMode, Registry, StyleSheet};

#[test]
fn new_style_sheet_keeps_name_and_content() {
    let sheet = StyleSheet::new("green_button", Some(".button{color:green}"));
    assert_eq!(sheet.name, "green_button");
    assert_eq!(sheet.content, Some(".button{color:green}"));
    let bare = StyleSheet::new("red_button", None);
    assert_eq!(bare.name, "red_button");
    assert_eq!(bare.content, None);
}

#[test]
fn mode_selection_follows_what_the_build_asks_for() {
    assert_eq!(DeliveryMode::select(false, false), DeliveryMode::Inert);
    assert_eq!(DeliveryMode::select(true, false), DeliveryMode::Server);
    assert_eq!(DeliveryMode::select(false, true), DeliveryMode::Client);
    assert_eq!(DeliveryMode::select(true, true), DeliveryMode::Client);
}

#[test]
fn new_registry_is_empty_and_remembers_its_mode() {
    let registry = Registry::new(DeliveryMode::Server);
    assert!(registry.all().is_empty());
    assert_eq!(registry.mode(), DeliveryMode::Server);
    assert_eq!(Registry::new(DeliveryMode::Client).mode(), DeliveryMode::Client);
    assert_eq!(Registry::new(DeliveryMode::Inert).mode(), DeliveryMode::Inert);
}

#[test]
fn registry_holds_every_registered_unit() {
    let names = ["a", "b.css", "c", "d", "e.css"];
    let contents = [Some("A"), None, Some("C"), Some(""), Some("E")];
    for mode in [DeliveryMode::Server, DeliveryMode::Client] {
        let mut registry = Registry::new(mode);
        for i in 0..names.len() {
            registry.register(StyleSheet::new(names[i], contents[i]));
        }
        let all = registry.all();
        assert_eq!(all.len(), names.len());
        for i in 0..names.len() {
            assert_eq!(all[i].name, names[i]);
            assert_eq!(all[i].content, contents[i]);
        }
    }
}

#[test]
fn registry_can_be_read_any_number_of_times() {
    let mut registry = Registry::new(DeliveryMode::Client);
    registry.register(StyleSheet::new("a", Some("A")));
    registry.register(StyleSheet::new("a", Some("B")));
    let first: Vec<(&str, Option<&str>)> =
        registry.all().iter().map(|s| (s.name, s.content)).collect();
    let second: Vec<(&str, Option<&str>)> =
        registry.all().iter().map(|s| (s.name, s.content)).collect();
    assert_eq!(first, vec![("a", Some("A")), ("a", Some("B"))]);
    assert_eq!(first, second);
}

#[test]
fn register_keeps_the_mode() {
    let mut registry = Registry::new(DeliveryMode::Server);
    registry.register(StyleSheet::new("a", Some("A")));
    assert_eq!(registry.mode(), DeliveryMode::Server);
}

#[test]
fn inert_registry_keeps_names_without_content() {
    let mut registry = Registry::new(DeliveryMode::Inert);
    registry.register(StyleSheet::new("a", Some("A")));
    registry.register(StyleSheet::new("b", None));
    registry.register(StyleSheet::new("c.css", Some("C")));
    let all = registry.all();
    assert_eq!(all.len(), 3);
    assert_eq!(all[0].name, "a");
    assert_eq!(all[1].name, "b");
    assert_eq!(all[2].name, "c.css");
    for sheet in all {
        assert_eq!(sheet.content, None);
    }
}

#[test]
fn collect_registers_the_sheets_in_order() {
    let sheets = vec![
        StyleSheet::new("x", Some("1")),
        StyleSheet::new("y", Some("2")),
        StyleSheet::new("x", Some("3")),
    ];
    let collected = Registry::collect(DeliveryMode::Server, sheets.clone());
    let mut stepwise = Registry::new(DeliveryMode::Server);
    for sheet in &sheets {
        stepwise.register(*sheet);
    }
    assert_eq!(collected.mode(), DeliveryMode::Server);
    assert_eq!(collected.all().len(), 3);
    for i in 0..3 {
        assert_eq!(collected.all()[i].name, stepwise.all()[i].name);
        assert_eq!(collected.all()[i].content, stepwise.all()[i].content);
        assert_eq!(collected.all()[i].name, sheets[i].name);
        assert_eq!(collected.all()[i].content, sheets[i].content);
    }
}

#[test]
fn collect_for_no_delivery_drops_the_content() {
    let sheets = vec![StyleSheet::new("x", Some("1")), StyleSheet::new("y", Some("2"))];
    let registry = Registry::collect(DeliveryMode::Inert, sheets);
    assert_eq!(registry.all().len(), 2);
    assert_eq!(registry.all()[0].name, "x");
    assert_eq!(registry.all()[1].name, "y");
    assert!(registry.all().iter().all(|s| s.content.is_none()));
}
