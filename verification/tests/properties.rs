use vdom::apply::apply_patches;
use vdom::builder::{attr, element, on, text};
use vdom::content::same_content;
use vdom::diff::diff;
use vdom::node::{count_nodes, find_node, find_node_path, Attribute, Node};
use vdom::value::{Callback, Value};

/// A small generator of numbers, the same on every run.
struct Numbers(u64);

impl Numbers {
    fn next(&mut self, below: u64) -> u64 {
        self.0 = self.0.wrapping_mul(6364136223846793005).wrapping_add(1442695040888963407);
        (self.0 >> 33) % below
    }
}

fn some_value(numbers: &mut Numbers) -> Value {
    match numbers.next(4) {
        0 => Value::Str(format!("s{}", numbers.next(3))),
        1 => Value::Int(numbers.next(3) as i64 - 1),
        2 => Value::Bool(numbers.next(2) == 0),
        _ => Value::Bytes(vec![numbers.next(2) as u8; numbers.next(3) as usize]),
    }
}

fn some_attributes(numbers: &mut Numbers, keyed: bool) -> Vec<Attribute> {
    let mut attrs = vec![];
    for _ in 0..numbers.next(4) {
        let name = ["class", "id", "title", "click"][numbers.next(4) as usize];
        if numbers.next(4) == 0 {
            attrs.push(on(name, Callback { id: numbers.next(100) }));
        } else {
            attrs.push(attr(name, some_value(numbers)));
        }
    }
    if keyed && numbers.next(3) != 0 {
        attrs.push(attr("key", Value::Int(numbers.next(5) as i64)));
    }
    attrs
}

fn some_tree(numbers: &mut Numbers, depth: u32, keyed: bool) -> Node {
    if depth == 0 || numbers.next(4) == 0 {
        return text(&format!("t{}", numbers.next(3)));
    }
    let tag = ["div", "p", "ul"][numbers.next(3) as usize];
    let attrs = some_attributes(numbers, keyed);
    let children: Vec<Node> =
        (0..numbers.next(5)).map(|_| some_tree(numbers, depth - 1, keyed)).collect();
    element(tag, &attrs, &children)
}

fn tag_of(node: &Node) -> Option<&String> {
    match node {
        Node::Element(e) => Some(&e.tag),
        Node::Text(_) => None,
    }
}

#[test]
fn every_tree_yields_no_patch_against_itself() {
    let mut numbers = Numbers(1);
    for _ in 0..300 {
        let tree = some_tree(&mut numbers, 4, true);
        assert_eq!(diff(&tree, &tree), vec![], "{:?}", tree);
    }
}

#[test]
fn patches_come_in_walk_order_and_address_old_nodes() {
    let mut numbers = Numbers(2);
    for _ in 0..300 {
        let old = some_tree(&mut numbers, 4, true);
        let new = some_tree(&mut numbers, 4, true);
        let patches = diff(&old, &new);
        let count = count_nodes(&old).unwrap();
        let mut last = 0;
        for patch in &patches {
            assert!(last <= patch.node_idx());
            last = patch.node_idx();
            assert!(patch.node_idx() < count);
            let target = find_node(&old, patch.node_idx()).unwrap();
            assert_eq!(patch.tag(), tag_of(target));
        }
    }
}

#[test]
fn patches_of_the_differ_always_apply() {
    let mut numbers = Numbers(3);
    for _ in 0..300 {
        let old = some_tree(&mut numbers, 4, true);
        let new = some_tree(&mut numbers, 4, true);
        let patched = apply_patches(&old, &diff(&old, &new));
        assert!(patched.is_ok(), "{:?} to {:?}", old, new);
    }
}

#[test]
fn trees_without_keys_converge() {
    let mut numbers = Numbers(4);
    for _ in 0..300 {
        let old = some_tree(&mut numbers, 4, false);
        let new = some_tree(&mut numbers, 4, false);
        let patched = apply_patches(&old, &diff(&old, &new)).unwrap();
        assert!(same_content(&patched, &new), "{:?} to {:?} gave {:?}", old, new, patched);
        assert_eq!(diff(&patched, &new), vec![]);
    }
}

#[test]
fn no_patch_between_trees_with_the_same_content() {
    let mut numbers = Numbers(5);
    let mut alike = 0;
    for _ in 0..2000 {
        let old = some_tree(&mut numbers, 2, true);
        let new = some_tree(&mut numbers, 2, true);
        if same_content(&old, &new) {
            alike += 1;
            assert_eq!(diff(&old, &new), vec![]);
        }
    }
    assert!(alike > 0);
}

#[test]
fn every_place_has_a_path_that_leads_to_its_node() {
    let mut numbers = Numbers(6);
    for _ in 0..100 {
        let tree = some_tree(&mut numbers, 4, true);
        let count = count_nodes(&tree).unwrap();
        for idx in 0..count {
            let path = find_node_path(&tree, idx).unwrap();
            let mut node = &tree;
            for step in path {
                node = &node.get_children().unwrap()[step];
            }
            assert_eq!(Some(node), find_node(&tree, idx));
        }
        assert_eq!(find_node_path(&tree, count), None);
        assert_eq!(find_node(&tree, count), None);
    }
}
