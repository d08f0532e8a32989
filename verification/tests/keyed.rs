use vdom::apply::apply_patches;
use vdom::builder::{attr, element, text};
use vdom::diff::diff;
use vdom::node::Node;
use vdom::patch::Patch;
use vdom::value::Value;

fn item(key: Value, label: &str) -> Node {
    element("li", &[attr("key", key)], &[text(label)])
}

fn list(children: &[Node]) -> Node {
    element("ul", &[], children)
}

#[test]
fn many_keyed_children_in_another_order_yield_no_patch() {
    let count: i64 = 300;
    let old: Vec<Node> = (0..count).map(|k| item(Value::Int(k - 150), &format!("item {}", k))).collect();
    // 7 and 300 have no common divisor, so this walks all places once
    let new: Vec<Node> = (0..count).map(|k| old[((k * 7) % count) as usize].clone()).collect();
    assert_eq!(diff(&list(&old), &list(&new)), vec![]);
}

#[test]
fn one_change_among_many_reordered_children_is_found_at_its_old_place() {
    let count: i64 = 100;
    let old: Vec<Node> = (0..count).map(|k| item(Value::Int(k), "same")).collect();
    let mut new: Vec<Node> = (0..count).rev().map(|k| item(Value::Int(k), "same")).collect();
    new[0] = item(Value::Int(99), "other");
    // the old child with key 99 is the last: li at 1 + 2 * 99, its text one further
    assert_eq!(
        diff(&list(&old), &list(&new)),
        vec![Patch::ReplaceNode { node_idx: 200, new_node_idx: 2, tag_of_old: None, replacement: text("other") }]
    );
}

#[test]
fn keys_of_every_kind_pair_their_children() {
    let s = |v: &str| Value::Str(v.to_string());
    let old = list(&[
        item(s("alpha"), "a"),
        item(s("beta"), "b"),
        item(Value::Bytes(vec![1, 2, 3]), "c"),
        item(Value::Bool(true), "d"),
        item(Value::Bool(false), "e"),
        item(Value::Int(-1), "f"),
        item(Value::Int(0), "g"),
        item(s(""), "h"),
        item(s("1"), "i"),
        item(Value::Int(1), "j"),
    ]);
    let new = list(&[
        item(Value::Int(1), "j"),
        item(s("1"), "i"),
        item(s(""), "h"),
        item(Value::Int(0), "g"),
        item(Value::Int(-1), "f"),
        item(Value::Bool(false), "e"),
        item(Value::Bool(true), "d"),
        item(Value::Bytes(vec![1, 2, 3]), "c"),
        item(s("beta"), "b"),
        item(s("alpha"), "a"),
    ]);
    assert_eq!(diff(&old, &new), vec![]);
    let other = list(&[item(Value::Bytes(vec![1, 2, 4]), "c"), item(s("alpha"), "a2")]);
    let patches = diff(&old, &other);
    // places in the old tree: ul 0, then li at 1 + 2 * k and its text at 2 + 2 * k;
    // in the new tree: ul 0, li 1, "c" 2, li 3, "a2" 4
    let mut expected = vec![
        Patch::AppendChildren {
            node_idx: 0,
            tag: "ul".to_string(),
            children: vec![(0, item(Value::Bytes(vec![1, 2, 4]), "c"))],
        },
        Patch::ReplaceNode { node_idx: 2, new_node_idx: 4, tag_of_old: None, replacement: text("a2") },
    ];
    for k in 1..10 {
        expected.push(Patch::RemoveNode { node_idx: 1 + 2 * k, tag: Some("li".to_string()) });
    }
    assert_eq!(patches, expected);
    assert_eq!(apply_patches(&old, &patches), Ok(other));
}

#[test]
fn equal_keys_are_paired_in_their_order_among_many() {
    let old: Vec<Node> = (0..50).map(|k| item(Value::Int(k % 5), &format!("old {}", k))).collect();
    let new: Vec<Node> = (0..60).map(|k| item(Value::Int(k % 5), &format!("old {}", k))).collect();
    // the first fifty are paired with themselves, the last ten appended
    let appended: Vec<(usize, Node)> = (50..60).map(|k| (k, new[k].clone())).collect();
    assert_eq!(
        diff(&list(&old), &list(&new)),
        vec![Patch::AppendChildren { node_idx: 0, tag: "ul".to_string(), children: appended }]
    );
    // and the other way the last ten are removed, each at its place
    let removed: Vec<Patch> =
        (50..60).map(|k| Patch::RemoveNode { node_idx: 1 + 2 * k, tag: Some("li".to_string()) }).collect();
    assert_eq!(diff(&list(&new), &list(&old)), removed);
}
