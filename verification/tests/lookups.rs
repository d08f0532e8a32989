use vdom::attribute::{find_callback, find_plain_value, is_scrollable, key_of_name, scrollable, value, AttribKey};
use vdom::builder::{attr, element, on, text};
use vdom::content::same_attribute_slots;
use vdom::node::{count_within, find_node_path, Element, Node};
use vdom::value::{AttribValue, Callback, Value};

#[test]
fn path_to_a_place_names_the_child_at_each_step() {
    let tree = element(
        "div",
        &[],
        &[
            element("ul", &[], &[element("li", &[], &[text("one")]), text("two")]),
            text("three"),
            element("p", &[], &[text("four")]),
        ],
    );
    assert_eq!(find_node_path(&tree, 0), Some(vec![]));
    assert_eq!(find_node_path(&tree, 1), Some(vec![0]));
    assert_eq!(find_node_path(&tree, 2), Some(vec![0, 0]));
    assert_eq!(find_node_path(&tree, 3), Some(vec![0, 0, 0]));
    assert_eq!(find_node_path(&tree, 4), Some(vec![0, 1]));
    assert_eq!(find_node_path(&tree, 5), Some(vec![1]));
    assert_eq!(find_node_path(&tree, 6), Some(vec![2]));
    assert_eq!(find_node_path(&tree, 7), Some(vec![2, 0]));
    assert_eq!(find_node_path(&tree, 8), None);
    assert_eq!(find_node_path(&text("x"), 0), Some(vec![]));
    assert_eq!(find_node_path(&text("x"), 1), None);
}

#[test]
fn count_within_stops_at_the_budget() {
    let tree = element("div", &[], &[text("a"), element("p", &[], &[text("b")]), text("c")]);
    assert_eq!(count_within(&tree, 5), Some(5));
    assert_eq!(count_within(&tree, 6), Some(5));
    assert_eq!(count_within(&tree, 4), None);
    assert_eq!(count_within(&tree, 0), None);
    assert_eq!(count_within(&text("a"), 1), Some(1));
}

#[test]
fn node_shows_what_it_is() {
    let e = element("div", &[attr("class", Value::Str("a".to_string()))], &[text("t")]);
    assert!(e.is_element());
    assert!(!e.is_text());
    assert_eq!(e.tag(), Some(&"div".to_string()));
    assert_eq!(e.text(), None);
    assert_eq!(e.get_attributes(), Some(&vec![attr("class", Value::Str("a".to_string()))]));
    assert_eq!(e.get_children(), Some(&vec![text("t")]));
    assert_eq!(
        e.as_element_ref(),
        Some(&Element {
            tag: "div".to_string(),
            attributes: vec![attr("class", Value::Str("a".to_string()))],
            children: vec![text("t")],
        })
    );
    let t = text("t");
    assert!(t.is_text());
    assert!(!t.is_element());
    assert_eq!(t.tag(), None);
    assert_eq!(t.text(), Some(&"t".to_string()));
    assert_eq!(t.get_attributes(), None);
    assert_eq!(t.get_children(), None);
    assert_eq!(t.as_element_ref(), None);
    assert_eq!(Node::clone(&e), e);
}

#[test]
fn names_are_told_from_keys() {
    assert_eq!(key_of_name("Value"), Some(AttribKey::Value));
    assert_eq!(key_of_name("Key"), Some(AttribKey::Key));
    assert_eq!(key_of_name("Scrollable"), Some(AttribKey::Scrollable));
    assert_eq!(key_of_name("SvgImage"), Some(AttribKey::SvgImage));
    assert_eq!(key_of_name("value"), None);
    assert_eq!(key_of_name(""), None);
    for key in [
        AttribKey::Value,
        AttribKey::Label,
        AttribKey::Checked,
        AttribKey::Alignment,
        AttribKey::Key,
        AttribKey::Editable,
        AttribKey::Data,
        AttribKey::SvgImage,
        AttribKey::Style,
        AttribKey::ClickEvent,
        AttribKey::MouseDown,
        AttribKey::MouseUp,
        AttribKey::MouseMove,
        AttribKey::InputEvent,
        AttribKey::Scrollable,
    ] {
        assert_eq!(key_of_name(key.as_str()), Some(key));
        assert_eq!(key.to_string(), format!("{:?}", key));
    }
}

#[test]
fn values_and_listeners_are_found_under_their_keys() {
    let attrs = vec![
        value(Value::Str("first".to_string())),
        on("ClickEvent", Callback { id: 4 }),
        scrollable(Value::Bool(true)),
        value(Value::Str("last".to_string())),
    ];
    assert_eq!(find_plain_value(AttribKey::Value, &attrs), Some(&Value::Str("last".to_string())));
    assert_eq!(find_plain_value(AttribKey::ClickEvent, &attrs), None);
    assert_eq!(find_plain_value(AttribKey::Label, &attrs), None);
    assert_eq!(find_callback(AttribKey::ClickEvent, &attrs), Some(Callback { id: 4 }));
    assert_eq!(find_callback(AttribKey::Value, &attrs), None);
    assert_eq!(find_callback(AttribKey::MouseDown, &attrs), None);
    assert!(is_scrollable(&attrs));
    assert!(!is_scrollable(&vec![scrollable(Value::Bool(false))]));
    assert!(!is_scrollable(&vec![scrollable(Value::Int(1))]));
    assert!(!is_scrollable(&vec![on("Scrollable", Callback { id: 1 })]));
    assert!(!is_scrollable(&vec![]));
}

#[test]
fn attribute_values_come_from_values_and_listeners() {
    assert_eq!(AttribValue::from(Value::Int(3)), AttribValue::Value(Value::Int(3)));
    assert_eq!(AttribValue::from(Callback { id: 3 }), AttribValue::Callback(Callback { id: 3 }));
    let v: AttribValue = Value::Bool(true).into();
    assert_eq!(v.get_plain(), Some(&Value::Bool(true)));
    assert_eq!(AttribValue::Callback(Callback { id: 1 }).get_plain(), None);
    assert_eq!(Value::Bool(true).as_bool(), Some(true));
    assert_eq!(Value::Int(1).as_bool(), None);
    assert_eq!(Value::Bytes(vec![7]).as_bytes(), Some(&vec![7]));
    assert_eq!(Value::Str("7".to_string()).as_bytes(), None);
}

#[test]
fn attribute_slots_are_compared_whatever_their_order() {
    let a = vec![attr("x", Value::Int(1)), attr("y", Value::Int(2))];
    let b = vec![attr("y", Value::Int(2)), attr("x", Value::Int(0)), attr("x", Value::Int(1))];
    assert!(same_attribute_slots(&a, &b));
    assert!(!same_attribute_slots(&a, &vec![attr("x", Value::Int(1))]));
    assert!(!same_attribute_slots(&vec![], &a));
    assert!(same_attribute_slots(&vec![], &vec![]));
}
