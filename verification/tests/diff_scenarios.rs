use vdom::builder::{attr, element, on, text};
use vdom::diff::{diff, diff_with_key};
use vdom::node::Node;
use vdom::patch::Patch;
use vdom::value::{Callback, Value};

fn s(v: &str) -> Value {
    Value::Str(v.to_string())
}

fn div(children: &[Node]) -> Node {
    element("div", &[], children)
}

fn keyed(key: i64, label: &str) -> Node {
    element("li", &[attr("key", Value::Int(key))], &[text(label)])
}

#[test]
fn identical_trees_yield_no_patch() {
    let tree = element(
        "div",
        &[attr("class", s("some-class")), on("click", Callback { id: 1 }), attr("data-id", Value::Int(1))],
        &[element("input", &[attr("type", s("checkbox"))], &[]), text("tail")],
    );
    assert_eq!(diff(&tree, &tree), vec![]);
    assert_eq!(diff(&tree, &tree.clone()), vec![]);
}

#[test]
fn tag_change_replaces_the_node_and_leaves_the_children_alone() {
    let old = element("div", &[], &[text("a")]);
    let new = element("span", &[], &[text("a")]);
    assert_eq!(
        diff(&old, &new),
        vec![Patch::ReplaceNode {
            node_idx: 0,
            new_node_idx: 0,
            tag_of_old: Some("div".to_string()),
            replacement: element("span", &[], &[text("a")]),
        }]
    );
}

#[test]
fn equal_attributes_yield_no_patch() {
    let old = element("div", &[attr("class", s("a"))], &[]);
    let new = element("div", &[attr("class", s("a"))], &[]);
    assert_eq!(diff(&old, &new), vec![]);
}

#[test]
fn changed_attribute_yields_one_patch_that_sets_it() {
    let old = element("div", &[attr("class", s("a"))], &[]);
    let new = element("div", &[attr("class", s("b"))], &[]);
    assert_eq!(
        diff(&old, &new),
        vec![Patch::AddAttributes {
            node_idx: 0,
            tag: "div".to_string(),
            set: vec![attr("class", s("b"))],
            remove: vec![],
        }]
    );
}

#[test]
fn added_child_yields_one_append_patch() {
    let old = div(&[]);
    let new = div(&[text("x")]);
    assert_eq!(
        diff(&old, &new),
        vec![Patch::AppendChildren { node_idx: 0, tag: "div".to_string(), children: vec![(0, text("x"))] }]
    );
}

#[test]
fn surplus_new_children_are_appended_with_their_positions() {
    let old = div(&[text("a")]);
    let new = div(&[text("a"), element("p", &[], &[text("b")]), text("c")]);
    assert_eq!(
        diff(&old, &new),
        vec![Patch::AppendChildren {
            node_idx: 0,
            tag: "div".to_string(),
            children: vec![(1, element("p", &[], &[text("b")])), (2, text("c"))],
        }]
    );
}

#[test]
fn removed_child_yields_one_remove_patch_at_its_index() {
    let old = div(&[text("x"), text("y")]);
    let new = div(&[text("x")]);
    assert_eq!(diff(&old, &new), vec![Patch::RemoveNode { node_idx: 2, tag: None }]);
}

#[test]
fn keyed_reorder_yields_no_patch() {
    let old = div(&[keyed(1, "A"), keyed(2, "B")]);
    let new = div(&[keyed(2, "B"), keyed(1, "A")]);
    assert_eq!(diff(&old, &new), vec![]);
}

#[test]
fn third_child_keeps_its_old_index_when_the_middle_one_goes() {
    // places in the old tree: div 0, ul 1, li 2, "one" 3, li 4, "two" 5, p 6, "mid" 7, span 8, "end" 9
    let first = element(
        "ul",
        &[],
        &[element("li", &[], &[text("one")]), element("li", &[], &[text("two")])],
    );
    let middle = element("p", &[], &[text("mid")]);
    let third = element("span", &[], &[text("end")]);
    let old = div(&[first.clone(), middle, third.clone()]);
    let new = div(&[first, third.clone()]);
    assert_eq!(
        diff(&old, &new),
        vec![
            Patch::ReplaceNode {
                node_idx: 6,
                new_node_idx: 6,
                tag_of_old: Some("p".to_string()),
                replacement: third,
            },
            Patch::RemoveNode { node_idx: 8, tag: Some("span".to_string()) },
        ]
    );
}

#[test]
fn keyed_third_child_is_diffed_at_its_old_index_when_the_middle_one_goes() {
    // places in the old tree: div 0, li 1, "A" 2, li 3, "B" 4, li 5, "C" 6
    let old = div(&[keyed(1, "A"), keyed(2, "B"), keyed(3, "C")]);
    let new = div(&[keyed(1, "A"), keyed(3, "changed")]);
    assert_eq!(
        diff(&old, &new),
        vec![
            Patch::RemoveNode { node_idx: 3, tag: Some("li".to_string()) },
            Patch::ReplaceNode { node_idx: 6, new_node_idx: 4, tag_of_old: None, replacement: text("changed") },
        ]
    );
}

#[test]
fn changed_text_is_replaced() {
    assert_eq!(
        diff(&text("a"), &text("b")),
        vec![Patch::ReplaceNode { node_idx: 0, new_node_idx: 0, tag_of_old: None, replacement: text("b") }]
    );
    assert_eq!(diff(&text("a"), &text("a")), vec![]);
}

#[test]
fn text_against_element_is_replaced() {
    let new = element("b", &[], &[]);
    assert_eq!(
        diff(&text("a"), &new),
        vec![Patch::ReplaceNode { node_idx: 0, new_node_idx: 0, tag_of_old: None, replacement: new.clone() }]
    );
    assert_eq!(
        diff(&new, &text("a")),
        vec![Patch::ReplaceNode {
            node_idx: 0,
            new_node_idx: 0,
            tag_of_old: Some("b".to_string()),
            replacement: text("a"),
        }]
    );
}

#[test]
fn different_keys_replace_even_with_the_same_tag() {
    let old = element("li", &[attr("key", Value::Int(1))], &[text("same")]);
    let new = element("li", &[attr("key", Value::Int(2))], &[text("same")]);
    assert_eq!(
        diff(&old, &new),
        vec![Patch::ReplaceNode {
            node_idx: 0,
            new_node_idx: 0,
            tag_of_old: Some("li".to_string()),
            replacement: new.clone(),
        }]
    );
}

#[test]
fn a_key_on_one_side_only_is_an_attribute_change() {
    let old = element("li", &[attr("key", Value::Int(1))], &[]);
    let new = element("li", &[], &[]);
    assert_eq!(
        diff(&old, &new),
        vec![Patch::AddAttributes {
            node_idx: 0,
            tag: "li".to_string(),
            set: vec![],
            remove: vec!["key".to_string()],
        }]
    );
}

#[test]
fn keyed_children_are_added_and_removed_by_key() {
    // places in the old tree: div 0, li(1) 1, "A" 2, li(2) 3, "B" 4
    let old = div(&[keyed(1, "A"), keyed(2, "B")]);
    let new = div(&[keyed(3, "C"), keyed(2, "B2")]);
    assert_eq!(
        diff(&old, &new),
        vec![
            Patch::AppendChildren { node_idx: 0, tag: "div".to_string(), children: vec![(0, keyed(3, "C"))] },
            Patch::RemoveNode { node_idx: 1, tag: Some("li".to_string()) },
            Patch::ReplaceNode { node_idx: 4, new_node_idx: 4, tag_of_old: None, replacement: text("B2") },
        ]
    );
}

#[test]
fn children_with_the_same_key_are_paired_in_their_order() {
    let old = div(&[keyed(1, "A"), keyed(1, "B")]);
    let new = div(&[keyed(1, "A"), keyed(1, "B"), keyed(1, "C")]);
    assert_eq!(
        diff(&old, &new),
        vec![Patch::AppendChildren { node_idx: 0, tag: "div".to_string(), children: vec![(2, keyed(1, "C"))] }]
    );
    assert_eq!(diff(&new, &new), vec![]);
}

#[test]
fn children_without_a_key_among_keyed_ones_are_paired_among_themselves() {
    // places in the old tree: div 0, "x" 1, li 2, "A" 3
    let old = div(&[text("x"), keyed(1, "A")]);
    let new = div(&[keyed(1, "A"), text("y")]);
    assert_eq!(
        diff(&old, &new),
        vec![Patch::ReplaceNode { node_idx: 1, new_node_idx: 3, tag_of_old: None, replacement: text("y") }]
    );
}

#[test]
fn patches_of_one_node_come_before_those_of_its_children() {
    // places in the old tree: div 0, p 1, "a" 2, "gone" 3
    let old = element("div", &[attr("class", s("a"))], &[element("p", &[attr("id", s("x"))], &[text("a")]), text("gone")]);
    let new = element("div", &[attr("class", s("b"))], &[element("p", &[], &[text("b")])]);
    let patches = diff(&old, &new);
    assert_eq!(
        patches,
        vec![
            Patch::AddAttributes { node_idx: 0, tag: "div".to_string(), set: vec![attr("class", s("b"))], remove: vec![] },
            Patch::AddAttributes { node_idx: 1, tag: "p".to_string(), set: vec![], remove: vec!["id".to_string()] },
            Patch::ReplaceNode { node_idx: 2, new_node_idx: 2, tag_of_old: None, replacement: text("b") },
            Patch::RemoveNode { node_idx: 3, tag: None },
        ]
    );
    let targets: Vec<usize> = patches.iter().map(|p| p.node_idx()).collect();
    let mut sorted = targets.clone();
    sorted.sort();
    assert_eq!(targets, sorted);
}

#[test]
fn attributes_and_appended_children_of_one_element_come_in_that_order() {
    let old = element("ul", &[], &[text("a")]);
    let new = element("ul", &[attr("class", s("big"))], &[text("b"), text("c")]);
    assert_eq!(
        diff(&old, &new),
        vec![
            Patch::AddAttributes { node_idx: 0, tag: "ul".to_string(), set: vec![attr("class", s("big"))], remove: vec![] },
            Patch::AppendChildren { node_idx: 0, tag: "ul".to_string(), children: vec![(1, text("c"))] },
            Patch::ReplaceNode { node_idx: 1, new_node_idx: 1, tag_of_old: None, replacement: text("b") },
        ]
    );
}

#[test]
fn new_index_of_a_replacement_counts_the_new_tree() {
    // old: div 0, p 1, "a" 2, "b" 3, i 4       new: div 0, p 1, "a" 2, b 3
    let old = div(&[element("p", &[], &[text("a"), text("b")]), element("i", &[], &[])]);
    let new = div(&[element("p", &[], &[text("a")]), element("b", &[], &[])]);
    assert_eq!(
        diff(&old, &new),
        vec![
            Patch::RemoveNode { node_idx: 3, tag: None },
            Patch::ReplaceNode {
                node_idx: 4,
                new_node_idx: 3,
                tag_of_old: Some("i".to_string()),
                replacement: element("b", &[], &[]),
            },
        ]
    );
}

#[test]
fn another_attribute_can_hold_the_key() {
    let item = |k: i64, label: &str| element("li", &[attr("Key", Value::Int(k))], &[text(label)]);
    let old = div(&[item(1, "A"), item(2, "B")]);
    let new = div(&[item(2, "B"), item(1, "A")]);
    assert_eq!(diff_with_key(&old, &new, "Key"), vec![]);
    // under the usual key these children have no key and are paired by position
    assert_eq!(
        diff(&old, &new),
        vec![
            Patch::AddAttributes {
                node_idx: 1,
                tag: "li".to_string(),
                set: vec![attr("Key", Value::Int(2))],
                remove: vec![],
            },
            Patch::ReplaceNode { node_idx: 2, new_node_idx: 2, tag_of_old: None, replacement: text("B") },
            Patch::AddAttributes {
                node_idx: 3,
                tag: "li".to_string(),
                set: vec![attr("Key", Value::Int(1))],
                remove: vec![],
            },
            Patch::ReplaceNode { node_idx: 4, new_node_idx: 4, tag_of_old: None, replacement: text("A") },
        ]
    );
}

#[test]
fn patch_gives_its_address_and_tag() {
    let patches = diff(&div(&[text("x"), text("y")]), &div(&[element("p", &[], &[])]));
    assert_eq!(patches.len(), 2);
    assert_eq!(patches[0].node_idx(), 1);
    assert_eq!(patches[0].tag(), None);
    assert_eq!(patches[1].node_idx(), 2);
    let patches = diff(&div(&[]), &div(&[text("x")]));
    assert_eq!(patches[0].tag(), Some(&"div".to_string()));
}
