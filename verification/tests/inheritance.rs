use extol_sprite_layer::{
    checked_inherited_layers, inherited_layers, propagate_layers_impl, SceneNode,
};
use std::collections::HashMap;

fn node(children: &[u64], layer: Option<&str>, has_parent: bool) -> SceneNode<String> {
    SceneNode { children: children.to_vec(), layer: layer.map(|l| l.to_string()), has_parent }
}

#[test]
fn children_take_the_nearest_layer_above() {
    let mut nodes = HashMap::new();
    nodes.insert(1, node(&[2, 3], Some("ground"), false));
    nodes.insert(2, node(&[4], None, true));
    nodes.insert(3, node(&[5], Some("sky"), true));
    nodes.insert(4, node(&[], None, true));
    nodes.insert(5, node(&[6], None, true));
    nodes.insert(6, node(&[], None, true));
    let layers = inherited_layers(&nodes);
    assert_eq!(layers.len(), 6);
    assert_eq!(layers[&1], "ground");
    assert_eq!(layers[&2], "ground");
    assert_eq!(layers[&4], "ground");
    assert_eq!(layers[&3], "sky");
    assert_eq!(layers[&5], "sky");
    assert_eq!(layers[&6], "sky");
}

#[test]
fn root_without_children_gets_one_entry() {
    let mut nodes = HashMap::new();
    nodes.insert(9, node(&[], Some("only"), false));
    let layers = inherited_layers(&nodes);
    assert_eq!(layers.len(), 1);
    assert_eq!(layers[&9], "only");
}

#[test]
fn entities_under_no_layered_root_are_absent() {
    let mut nodes = HashMap::new();
    nodes.insert(1, node(&[2], None, false));
    nodes.insert(2, node(&[3], Some("late"), true));
    nodes.insert(3, node(&[], None, true));
    nodes.insert(4, node(&[], Some("root"), false));
    // has a layer and is nobody's child, but is marked as having a parent
    nodes.insert(5, node(&[], Some("orphan"), true));
    let layers = inherited_layers(&nodes);
    assert_eq!(layers.len(), 1);
    assert_eq!(layers[&4], "root");
}

#[test]
fn empty_scene_has_no_layers() {
    let nodes: HashMap<u64, SceneNode<String>> = HashMap::new();
    assert!(inherited_layers(&nodes).is_empty());
    assert!(checked_inherited_layers(&nodes).unwrap().is_empty());
}

#[test]
fn broken_link_below_a_layered_root_is_reported() {
    let mut nodes = HashMap::new();
    nodes.insert(1, node(&[2], Some("a"), false));
    nodes.insert(2, node(&[77], None, true));
    assert!(checked_inherited_layers(&nodes).is_none());
}

#[test]
fn broken_link_elsewhere_does_no_harm() {
    let mut nodes = HashMap::new();
    nodes.insert(1, node(&[2], Some("a"), false));
    nodes.insert(2, node(&[], None, true));
    nodes.insert(3, node(&[77], None, false));
    let layers = checked_inherited_layers(&nodes).unwrap();
    assert_eq!(layers.len(), 2);
    assert_eq!(layers[&2], "a");
}

#[test]
fn a_cycle_is_walked_once() {
    let mut nodes = HashMap::new();
    nodes.insert(1, node(&[2], Some("a"), false));
    nodes.insert(2, node(&[3], None, true));
    nodes.insert(3, node(&[2, 3], Some("b"), true));
    let layers = inherited_layers(&nodes);
    assert_eq!(layers.len(), 3);
    assert_eq!(layers[&1], "a");
    assert_eq!(layers[&2], "a");
    assert_eq!(layers[&3], "b");
}

#[test]
fn deep_chain_is_walked_without_recursion() {
    let n: u64 = 200_000;
    let mut nodes = HashMap::new();
    nodes.insert(0, node(&[1], Some("deep"), false));
    for e in 1..n {
        let children = if e + 1 < n { vec![e + 1] } else { vec![] };
        nodes.insert(e, SceneNode { children, layer: None, has_parent: true });
    }
    let layers = inherited_layers(&nodes);
    assert_eq!(layers.len(), n as usize);
    assert_eq!(layers[&(n - 1)], "deep");
}

#[test]
fn propagation_keeps_what_is_there() {
    let mut nodes = HashMap::new();
    nodes.insert(1, node(&[2], Some("a"), false));
    nodes.insert(2, node(&[], None, true));
    nodes.insert(3, node(&[4], Some("b"), false));
    nodes.insert(4, node(&[], Some("c"), true));
    let mut layers = HashMap::new();
    assert!(propagate_layers_impl(1, &nodes, &mut layers));
    assert_eq!(layers.len(), 2);
    assert!(propagate_layers_impl(3, &nodes, &mut layers));
    assert_eq!(layers.len(), 4);
    assert_eq!(layers[&2], "a");
    assert_eq!(layers[&3], "b");
    assert_eq!(layers[&4], "c");
}
