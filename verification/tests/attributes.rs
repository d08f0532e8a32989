use vdom::attr_diff::{diff_attributes, find_value, same_slot_values};
use vdom::builder::{attr, on};
use vdom::node::Attribute;
use vdom::value::{AttribValue, Callback, Value};

fn s(v: &str) -> Value {
    Value::Str(v.to_string())
}

#[test]
fn absent_names_are_set_and_missing_ones_removed() {
    let old = vec![attr("class", s("a")), attr("id", s("x"))];
    let new = vec![attr("class", s("a")), attr("title", s("t"))];
    let (set, remove) = diff_attributes(&old, &new);
    assert_eq!(set, vec![attr("title", s("t"))]);
    assert_eq!(remove, vec!["id".to_string()]);
}

#[test]
fn order_of_attributes_does_not_matter() {
    let old = vec![attr("class", s("a")), attr("id", s("x"))];
    let new = vec![attr("id", s("x")), attr("class", s("a"))];
    let (set, remove) = diff_attributes(&old, &new);
    assert_eq!(set, Vec::<Attribute>::new());
    assert_eq!(remove, Vec::<String>::new());
}

#[test]
fn last_writer_wins_among_attributes_of_one_name() {
    let old = vec![attr("class", s("a"))];
    let new = vec![attr("class", s("b")), attr("id", s("i")), attr("class", s("c"))];
    let (set, remove) = diff_attributes(&old, &new);
    assert_eq!(set, vec![attr("id", s("i")), attr("class", s("c"))]);
    assert!(remove.is_empty());

    let new = vec![attr("class", s("b")), attr("class", s("a"))];
    let (set, remove) = diff_attributes(&old, &new);
    assert!(set.is_empty());
    assert!(remove.is_empty());

    let old = vec![attr("class", s("b")), attr("class", s("a"))];
    let new = vec![attr("class", s("b"))];
    let (set, _) = diff_attributes(&old, &new);
    assert_eq!(set, vec![attr("class", s("b"))]);
}

#[test]
fn a_removed_name_is_reported_once() {
    let old = vec![attr("class", s("a")), attr("class", s("b")), attr("id", s("x"))];
    let (set, remove) = diff_attributes(&old, &vec![]);
    assert!(set.is_empty());
    assert_eq!(remove, vec!["class".to_string(), "id".to_string()]);
}

#[test]
fn listeners_are_compared_by_presence_only() {
    let old = vec![on("click", Callback { id: 1 })];
    let new = vec![on("click", Callback { id: 2 })];
    let (set, remove) = diff_attributes(&old, &new);
    assert!(set.is_empty());
    assert!(remove.is_empty());

    let (set, remove) = diff_attributes(&old, &vec![]);
    assert!(set.is_empty());
    assert_eq!(remove, vec!["click".to_string()]);

    let (set, remove) = diff_attributes(&vec![], &new);
    assert_eq!(set, vec![on("click", Callback { id: 2 })]);
    assert!(remove.is_empty());
}

#[test]
fn a_listener_in_the_place_of_a_value_is_a_change() {
    let old = vec![attr("click", s("x"))];
    let new = vec![on("click", Callback { id: 2 })];
    let (set, remove) = diff_attributes(&old, &new);
    assert_eq!(set, vec![on("click", Callback { id: 2 })]);
    assert!(remove.is_empty());
    let (set, _) = diff_attributes(&new, &old);
    assert_eq!(set, vec![attr("click", s("x"))]);
}

#[test]
fn values_of_every_kind_are_compared_by_content() {
    let pairs = [
        (Value::Int(3), Value::Int(3), true),
        (Value::Int(3), Value::Int(4), false),
        (Value::Bool(true), Value::Bool(true), true),
        (Value::Bool(true), Value::Bool(false), false),
        (Value::Bytes(vec![1, 2, 3]), Value::Bytes(vec![1, 2, 3]), true),
        (Value::Bytes(vec![1, 2, 3]), Value::Bytes(vec![1, 2]), false),
        (Value::Bytes(vec![1, 2, 3]), Value::Bytes(vec![1, 2, 4]), false),
        (s("a"), s("a"), true),
        (s("a"), s("b"), false),
        (s("1"), Value::Int(1), false),
        (Value::Bool(true), Value::Int(1), false),
    ];
    for (a, b, same) in pairs {
        assert_eq!(a.same_as(&b), same);
        assert_eq!(b.same_as(&a), same);
        assert_eq!(
            same_slot_values(&AttribValue::Value(a.clone()), &AttribValue::Value(b.clone())),
            same
        );
        let (set, remove) = diff_attributes(&vec![attr("v", a)], &vec![attr("v", b)]);
        assert_eq!(set.is_empty(), same);
        assert!(remove.is_empty());
    }
}

#[test]
fn find_value_gives_the_last_value_of_a_name() {
    let attrs = vec![attr("class", s("a")), on("click", Callback { id: 9 }), attr("class", s("b"))];
    assert_eq!(find_value(&attrs, "class"), Some(&AttribValue::Value(s("b"))));
    assert_eq!(find_value(&attrs, "click"), Some(&AttribValue::Callback(Callback { id: 9 })));
    assert_eq!(find_value(&attrs, "id"), None);
}
