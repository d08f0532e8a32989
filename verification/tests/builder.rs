use vdom::attribute::{keyed_attr, label, AttribKey};
use vdom::builder::{attr, element, on, text};
use vdom::node::{Attribute, Element, Node, Text};
use vdom::value::{AttribValue, Callback, Value};

#[test]
fn text_holds_its_string() {
    assert_eq!(text("hello"), Node::Text(Text { text: "hello".to_string() }));
}

#[test]
fn attr_holds_a_plain_value() {
    assert_eq!(
        attr("class", Value::Str("a".to_string())),
        Attribute { name: "class".to_string(), value: AttribValue::Value(Value::Str("a".to_string())) }
    );
}

#[test]
fn on_holds_a_listener() {
    assert_eq!(
        on("click", Callback { id: 7 }),
        Attribute { name: "click".to_string(), value: AttribValue::Callback(Callback { id: 7 }) }
    );
}

#[test]
fn element_keeps_attributes_and_children_in_order() {
    let node = element(
        "div",
        &[attr("class", Value::Str("a".to_string())), on("click", Callback { id: 1 }), attr("data-id", Value::Int(1111))],
        &[element("div", &[], &[text("Hello world!")]), text("tail")],
    );
    let expected = Node::Element(Element {
        tag: "div".to_string(),
        attributes: vec![
            Attribute { name: "class".to_string(), value: AttribValue::Value(Value::Str("a".to_string())) },
            Attribute { name: "click".to_string(), value: AttribValue::Callback(Callback { id: 1 }) },
            Attribute { name: "data-id".to_string(), value: AttribValue::Value(Value::Int(1111)) },
        ],
        children: vec![
            Node::Element(Element {
                tag: "div".to_string(),
                attributes: vec![],
                children: vec![Node::Text(Text { text: "Hello world!".to_string() })],
            }),
            Node::Text(Text { text: "tail".to_string() }),
        ],
    });
    assert_eq!(node, expected);
}

#[test]
fn add_attributes_appends_to_what_is_there() {
    let e = Element::new("input")
        .add_attributes(&[attr("type", Value::Str("checkbox".to_string()))])
        .add_attributes(&[attr("checked", Value::Bool(true))]);
    assert_eq!(e.tag, "input");
    assert_eq!(e.attributes.len(), 2);
    assert_eq!(e.attributes[0].name, "type");
    assert_eq!(e.attributes[1].name, "checked");
    assert_eq!(e.attributes[1].value, AttribValue::Value(Value::Bool(true)));
    assert!(e.children.is_empty());
}

#[test]
fn add_children_appends_copies() {
    let kids = [text("a"), text("b")];
    let e = Element::new("ul").add_children(&kids[..1]).add_children(&kids[1..]);
    assert_eq!(e.children, vec![text("a"), text("b")]);
    assert!(e.attributes.is_empty());
}

#[test]
fn add_event_listener_appends_a_listener() {
    let e = Element::new("button")
        .add_attributes(&[attr("class", Value::Str("x".to_string()))])
        .add_event_listener("click", Callback { id: 3 });
    assert_eq!(e.attributes.len(), 2);
    assert_eq!(e.attributes[1], on("click", Callback { id: 3 }));
}

#[test]
fn attrib_keys_are_named_as_they_are_written() {
    assert_eq!(AttribKey::Value.to_string(), "Value");
    assert_eq!(AttribKey::SvgImage.to_string(), "SvgImage");
    assert_eq!(AttribKey::Key.as_str(), "Key");
    assert_eq!(AttribKey::Scrollable.as_str(), "Scrollable");
    assert!(AttribKey::Value < AttribKey::Label);
    assert_eq!(label(Value::Str("ok".to_string())), attr("Label", Value::Str("ok".to_string())));
    assert_eq!(keyed_attr(AttribKey::Data, Value::Bytes(vec![1, 2])), attr("Data", Value::Bytes(vec![1, 2])));
}

#[test]
fn a_later_attribute_takes_the_place_of_an_earlier_one_of_its_name() {
    let e = Element::new("div")
        .add_attributes(&[attr("class", Value::Str("a".to_string())), attr("class", Value::Str("b".to_string()))]);
    assert_eq!(e.attributes, vec![attr("class", Value::Str("b".to_string()))]);
    assert!(e.attributes.iter().all(|a| a.value.get_plain().is_some()));

    let e = Element::new("div")
        .add_attributes(&[attr("class", Value::Str("a".to_string())), attr("id", Value::Int(1))])
        .add_attributes(&[attr("class", Value::Str("b".to_string())), attr("title", Value::Bool(true))]);
    assert_eq!(
        e.attributes,
        vec![attr("class", Value::Str("b".to_string())), attr("id", Value::Int(1)), attr("title", Value::Bool(true))]
    );
}

#[test]
fn adding_the_same_attributes_again_changes_nothing() {
    let xs = [
        attr("class", Value::Str("a".to_string())),
        on("click", Callback { id: 1 }),
        attr("class", Value::Str("b".to_string())),
        attr("id", Value::Int(7)),
        on("click", Callback { id: 2 }),
    ];
    let base = Element::new("div").add_attributes(&[attr("id", Value::Int(0)), attr("lang", Value::Str("en".to_string()))]);
    let once = Element::new("div")
        .add_attributes(&[attr("id", Value::Int(0)), attr("lang", Value::Str("en".to_string()))])
        .add_attributes(&xs);
    let twice = Element::new("div")
        .add_attributes(&[attr("id", Value::Int(0)), attr("lang", Value::Str("en".to_string()))])
        .add_attributes(&xs)
        .add_attributes(&xs);
    assert_eq!(once, twice);
    assert_eq!(
        once.attributes,
        vec![
            attr("id", Value::Int(7)),
            attr("lang", Value::Str("en".to_string())),
            attr("class", Value::Str("b".to_string())),
            on("click", Callback { id: 2 }),
        ]
    );
    let same = Element::new("div")
        .add_attributes(&[attr("id", Value::Int(0)), attr("lang", Value::Str("en".to_string()))])
        .add_attributes(&[]);
    assert_eq!(same, base);
}

#[test]
fn a_later_listener_takes_the_place_of_an_earlier_one_for_its_event() {
    let e = Element::new("button")
        .add_event_listener("click", Callback { id: 1 })
        .add_attributes(&[attr("class", Value::Str("x".to_string()))])
        .add_event_listener("click", Callback { id: 2 })
        .add_event_listener("hover", Callback { id: 3 });
    assert_eq!(
        e.attributes,
        vec![on("click", Callback { id: 2 }), attr("class", Value::Str("x".to_string())), on("hover", Callback { id: 3 })]
    );
    assert_eq!(e.tag, "button");
    assert!(e.children.is_empty());
}

#[test]
fn a_value_and_a_listener_of_one_name_stand_side_by_side() {
    let e = Element::new("input")
        .add_attributes(&[attr("input", Value::Str("text".to_string()))])
        .add_event_listener("input", Callback { id: 1 })
        .add_attributes(&[attr("input", Value::Str("other".to_string())), on("input", Callback { id: 2 })]);
    assert_eq!(e.attributes, vec![attr("input", Value::Str("other".to_string())), on("input", Callback { id: 2 })]);
}

#[test]
fn element_holds_one_attribute_of_each_name_and_kind() {
    let node = element(
        "div",
        &[
            attr("class", Value::Str("a".to_string())),
            attr("id", Value::Int(1)),
            attr("class", Value::Str("b".to_string())),
        ],
        &[],
    );
    assert_eq!(
        node.get_attributes(),
        Some(&vec![attr("class", Value::Str("b".to_string())), attr("id", Value::Int(1))])
    );
}
