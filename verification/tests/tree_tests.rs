use temperature_guardian::decimal::Decimal;
use temperature_guardian::tree::{Children, find_temperature_recursive};

fn dec(mantissa: i64, scale: u32) -> Decimal {
    Decimal { mantissa, scale }
}

fn node(text: &str, kind: Option<&str>, value: Option<&str>, children: Vec<Children>) -> Children {
    Children {
        id: None,
        text: text.to_owned(),
        min: None,
        value: value.map(|v| v.to_owned()),
        max: None,
        image_url: None,
        sensor_id: None,
        type_field: kind.map(|k| k.to_owned()),
        children,
    }
}

#[test]
fn finds_matching_temperature_node() {
    let tree = vec![node(
        "AMD Ryzen 7",
        None,
        None,
        vec![node(
            "Core (Tctl/Tdie)",
            Some("Temperature"),
            Some("48,9 °C"),
            vec![],
        )],
    )];
    assert_eq!(
        find_temperature_recursive(&tree, "Core (Tctl/Tdie)"),
        Some(dec(489, 1))
    );
}

#[test]
fn match_is_case_insensitive_both_ways() {
    let tree = vec![node(
        "gpu core clock and GPU CORE temp",
        Some("Temperature"),
        Some("61.0"),
        vec![],
    )];
    // an upper-case target must still match lower-case text
    assert_eq!(find_temperature_recursive(&tree, "GPU CORE"), Some(dec(610, 1)));
    assert_eq!(find_temperature_recursive(&tree, "gpu core"), Some(dec(610, 1)));
}

#[test]
fn match_requires_temperature_kind() {
    let tree = vec![node("GPU Core", Some("Clock"), Some("1800"), vec![])];
    assert_eq!(find_temperature_recursive(&tree, "GPU Core"), None);
}

#[test]
fn no_temperature_kind_anywhere_yields_none() {
    let tree = vec![
        node("a", None, Some("10"), vec![node("b", Some("Load"), Some("20"), vec![])]),
        node("c", Some("Fan"), Some("30"), vec![]),
    ];
    assert_eq!(find_temperature_recursive(&tree, "a"), None);
}

#[test]
fn unparsable_match_is_skipped_not_fatal() {
    let tree = vec![
        node("GPU Core", Some("Temperature"), Some("n/a"), vec![]),
        node("GPU Core", Some("Temperature"), Some("55.5"), vec![]),
    ];
    assert_eq!(find_temperature_recursive(&tree, "GPU Core"), Some(dec(555, 1)));
}

#[test]
fn missing_value_is_skipped() {
    let tree = vec![
        node("GPU Core", Some("Temperature"), None, vec![]),
        node("GPU Core", Some("Temperature"), Some("40"), vec![]),
    ];
    assert_eq!(find_temperature_recursive(&tree, "GPU Core"), Some(dec(40, 0)));
}

#[test]
fn preorder_takes_deep_child_before_later_sibling() {
    let tree = vec![
        node(
            "category",
            None,
            None,
            vec![node("GPU Core", Some("Temperature"), Some("11"), vec![])],
        ),
        node("GPU Core", Some("Temperature"), Some("22"), vec![]),
    ];
    assert_eq!(find_temperature_recursive(&tree, "GPU Core"), Some(dec(11, 0)));
}

#[test]
fn first_parsing_match_wins() {
    let tree = vec![
        node("GPU Core one", Some("Temperature"), Some("33"), vec![]),
        node("GPU Core two", Some("Temperature"), Some("44"), vec![]),
    ];
    assert_eq!(find_temperature_recursive(&tree, "GPU Core"), Some(dec(33, 0)));
}

#[test]
fn substring_match_not_exact_match() {
    let tree = vec![node(
        "CPU Package Core (Tctl/Tdie) sensor",
        Some("Temperature"),
        Some("70"),
        vec![],
    )];
    assert_eq!(
        find_temperature_recursive(&tree, "Core (Tctl/Tdie)"),
        Some(dec(70, 0))
    );
}

#[test]
fn empty_tree_yields_none() {
    let tree: Vec<Children> = vec![];
    assert_eq!(find_temperature_recursive(&tree, "anything"), None);
}
