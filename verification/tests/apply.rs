use vdom::apply::{apply_patches, PatchError};
use vdom::builder::{attr, element, on, text};
use vdom::content::same_content;
use vdom::diff::diff;
use vdom::node::{count_nodes, find_node, Node};
use vdom::patch::Patch;
use vdom::value::{Callback, Value};

fn s(v: &str) -> Value {
    Value::Str(v.to_string())
}

fn keyed(key: i64, label: &str) -> Node {
    element("li", &[attr("key", Value::Int(key))], &[text(label)])
}

fn converges(old: &Node, new: &Node) {
    let patches = diff(old, new);
    let patched = apply_patches(old, &patches).expect("the patches of the differ apply");
    assert!(same_content(&patched, new), "{:?} against {:?}", patched, new);
    assert_eq!(diff(&patched, new), vec![]);
}

#[test]
fn patches_turn_the_old_tree_into_the_new_one() {
    let old = element(
        "div",
        &[attr("class", s("a")), attr("id", s("x")), on("click", Callback { id: 1 })],
        &[
            element("ul", &[], &[element("li", &[], &[text("one")]), element("li", &[], &[text("two")])]),
            text("mid"),
            element("p", &[attr("title", s("t"))], &[text("end")]),
        ],
    );
    let new = element(
        "div",
        &[attr("class", s("b")), on("click", Callback { id: 2 }), attr("lang", s("en"))],
        &[
            element("ul", &[attr("class", s("list"))], &[element("li", &[], &[text("one")])]),
            element("span", &[], &[text("mid")]),
            element("p", &[], &[text("end"), text("more")]),
            text("tail"),
        ],
    );
    converges(&old, &new);
    converges(&new, &old);
    converges(&old, &old);
    converges(&old, &text("just text"));
    converges(&text("just text"), &new);
}

#[test]
fn patched_tree_is_the_new_tree_where_no_attribute_changes() {
    let old = element("div", &[], &[text("a"), element("p", &[], &[text("b")]), text("c")]);
    let new = element("div", &[], &[text("a"), element("p", &[], &[text("x"), text("y")])]);
    assert_eq!(apply_patches(&old, &diff(&old, &new)), Ok(new));
}

#[test]
fn keyed_children_converge_where_they_keep_their_order() {
    let old = element("ul", &[], &[keyed(1, "A"), keyed(2, "B"), keyed(4, "D")]);
    let new = element("ul", &[], &[keyed(0, "Z"), keyed(1, "A"), keyed(3, "C"), keyed(4, "D2"), keyed(5, "E")]);
    converges(&old, &new);
    assert_eq!(apply_patches(&old, &diff(&old, &new)), Ok(new.clone()));
    converges(&new, &old);
    assert_eq!(apply_patches(&new, &diff(&new, &old)), Ok(old));
}

#[test]
fn reordered_keyed_children_stay_in_their_old_order() {
    let old = element("ul", &[], &[keyed(1, "A"), keyed(2, "B")]);
    let new = element("ul", &[], &[keyed(2, "B"), keyed(1, "A")]);
    let patched = apply_patches(&old, &diff(&old, &new)).unwrap();
    assert_eq!(patched, old);
    assert!(!same_content(&patched, &new));
    assert_eq!(diff(&patched, &new), vec![]);
}

#[test]
fn attribute_patch_removes_then_sets() {
    let old = element("a", &[attr("href", s("x")), attr("id", s("i")), attr("class", s("c"))], &[]);
    let patches = vec![Patch::AddAttributes {
        node_idx: 0,
        tag: "a".to_string(),
        set: vec![attr("href", s("y"))],
        remove: vec!["id".to_string()],
    }];
    assert_eq!(
        apply_patches(&old, &patches),
        Ok(element("a", &[attr("class", s("c")), attr("href", s("y"))], &[]))
    );
}

#[test]
fn attribute_patch_leaves_one_attribute_of_a_name() {
    let old = element("a", &[attr("x", s("v")), on("x", Callback { id: 1 }), attr("y", s("w"))], &[]);
    let patches = vec![Patch::AddAttributes {
        node_idx: 0,
        tag: "a".to_string(),
        set: vec![attr("x", s("new"))],
        remove: vec![],
    }];
    let patched = apply_patches(&old, &patches).unwrap();
    assert_eq!(patched.get_attributes(), Some(&vec![attr("y", s("w")), attr("x", s("new"))]));
}

#[test]
fn patched_attributes_hold_each_name_once() {
    let old = element("div", &[attr("class", s("a")), attr("id", s("i"))], &[]);
    let new = element("div", &[attr("class", s("b")), attr("id", s("i"))], &[]);
    let patched = apply_patches(&old, &diff(&old, &new)).unwrap();
    assert_eq!(patched.get_attributes(), Some(&vec![attr("id", s("i")), attr("class", s("b"))]));
}

#[test]
fn the_patches_between_a_tree_and_itself_change_nothing() {
    let tree = element(
        "div",
        &[attr("class", s("a")), on("click", Callback { id: 1 })],
        &[text("a"), element("p", &[], &[text("b")])],
    );
    let patches = diff(&tree, &tree);
    assert!(patches.is_empty());
    assert_eq!(apply_patches(&tree, &patches), Ok(tree.clone()));
}

#[test]
fn appended_children_go_to_their_positions() {
    let old = element("ul", &[], &[text("b"), text("d")]);
    let patches = vec![Patch::AppendChildren {
        node_idx: 0,
        tag: "ul".to_string(),
        children: vec![(0, text("a")), (2, text("c")), (7, text("z"))],
    }];
    assert_eq!(
        apply_patches(&old, &patches),
        Ok(element("ul", &[], &[text("a"), text("b"), text("c"), text("d"), text("z")]))
    );
}

#[test]
fn removing_the_root_is_an_error() {
    let old = element("div", &[], &[text("a")]);
    assert_eq!(
        apply_patches(&old, &vec![Patch::RemoveNode { node_idx: 0, tag: Some("div".to_string()) }]),
        Err(PatchError::RootRemoved)
    );
}

#[test]
fn a_patch_without_a_target_is_an_error() {
    let old = element("div", &[], &[text("a")]);
    let beyond = vec![Patch::RemoveNode { node_idx: 2, tag: None }];
    assert_eq!(apply_patches(&old, &beyond), Err(PatchError::Unresolved { node_idx: 2 }));
    let out_of_order = vec![
        Patch::RemoveNode { node_idx: 1, tag: None },
        Patch::AddAttributes { node_idx: 0, tag: "div".to_string(), set: vec![], remove: vec![] },
    ];
    assert_eq!(apply_patches(&old, &out_of_order), Err(PatchError::Unresolved { node_idx: 0 }));
    let below_a_replaced_node = vec![
        Patch::ReplaceNode { node_idx: 0, new_node_idx: 0, tag_of_old: Some("div".to_string()), replacement: text("x") },
        Patch::RemoveNode { node_idx: 1, tag: None },
    ];
    assert_eq!(apply_patches(&old, &below_a_replaced_node), Err(PatchError::Unresolved { node_idx: 1 }));
}

#[test]
fn no_patches_leave_the_tree_as_it_is() {
    let old = element("div", &[attr("a", Value::Bool(true))], &[text("a"), element("p", &[], &[])]);
    assert_eq!(apply_patches(&old, &vec![]), Ok(old.clone()));
}

#[test]
fn nodes_are_numbered_in_pre_order() {
    let tree = element(
        "div",
        &[],
        &[
            element("ul", &[], &[element("li", &[], &[text("one")]), text("two")]),
            text("three"),
            element("p", &[], &[]),
        ],
    );
    assert_eq!(count_nodes(&tree), Some(7));
    assert_eq!(count_nodes(&text("x")), Some(1));
    assert_eq!(find_node(&tree, 0), Some(&tree));
    assert_eq!(find_node(&tree, 1), Some(&element("ul", &[], &[element("li", &[], &[text("one")]), text("two")])));
    assert_eq!(find_node(&tree, 2), Some(&element("li", &[], &[text("one")])));
    assert_eq!(find_node(&tree, 3), Some(&text("one")));
    assert_eq!(find_node(&tree, 4), Some(&text("two")));
    assert_eq!(find_node(&tree, 5), Some(&text("three")));
    assert_eq!(find_node(&tree, 6), Some(&element("p", &[], &[])));
    assert_eq!(find_node(&tree, 7), None);
    assert_eq!(find_node(&text("x"), 1), None);
}

#[test]
fn every_patch_addresses_a_node_of_the_old_tree_with_its_tag() {
    let old = element(
        "div",
        &[attr("class", s("a"))],
        &[element("ul", &[], &[keyed(1, "A"), keyed(2, "B"), keyed(3, "C")]), text("x"), element("p", &[], &[])],
    );
    let new = element(
        "div",
        &[],
        &[element("ul", &[], &[keyed(3, "C2"), keyed(1, "A"), keyed(9, "N")]), element("b", &[], &[])],
    );
    let patches = diff(&old, &new);
    assert!(!patches.is_empty());
    for patch in &patches {
        let target = find_node(&old, patch.node_idx()).expect("the target is in the old tree");
        let tag = match target {
            Node::Element(e) => Some(&e.tag),
            Node::Text(_) => None,
        };
        assert_eq!(patch.tag(), tag);
    }
}

#[test]
fn content_equality_is_blind_to_attribute_order_and_listeners() {
    let a = element("div", &[attr("x", s("1")), on("click", Callback { id: 1 })], &[text("t")]);
    let b = element("div", &[on("click", Callback { id: 2 }), attr("x", s("0")), attr("x", s("1"))], &[text("t")]);
    assert!(same_content(&a, &b));
    assert_eq!(diff(&a, &b), vec![]);
    let c = element("div", &[attr("x", s("1"))], &[text("t")]);
    assert!(!same_content(&a, &c));
    let d = element("div", &[attr("x", s("1")), on("click", Callback { id: 1 })], &[text("t"), text("u")]);
    assert!(!same_content(&a, &d));
    assert!(!same_content(&text("t"), &a));
    assert!(same_content(&text("t"), &text("t")));
}
