use fcpeg::parser::{ArgumentMap, MemoizationMap};
use fcpeg::rule::{is_primitive_rule_name, LoopRange};
use fcpeg::tree::{
    ASTReflectionStyle, CharacterPosition, SyntaxLeaf, SyntaxNode, SyntaxNodeChild, SyntaxTree,
};

fn named(name: &str) -> ASTReflectionStyle {
    ASTReflectionStyle::Reflection(name.to_string())
}

fn leaf(value: &str, style: ASTReflectionStyle) -> SyntaxNodeChild {
    SyntaxNodeChild::from_leaf_args(CharacterPosition::get_empty(), value.to_string(), style)
}

fn node(children: Vec<SyntaxNodeChild>, style: ASTReflectionStyle) -> SyntaxNodeChild {
    SyntaxNodeChild::from_node_args(children, style)
}

fn sample_node() -> SyntaxNode {
    let inner = node(
        vec![
            leaf("b", named("")),
            leaf("c", ASTReflectionStyle::NoReflection),
        ],
        named("Inner"),
    );
    let hidden = node(vec![leaf("d", named(""))], ASTReflectionStyle::NoReflection);
    let other = node(vec![leaf("e", named(""))], named("Other"));
    SyntaxNode::new(
        7,
        vec![leaf("a", named("")), inner, hidden, other],
        named("Top"),
    )
}

#[test]
fn positions_carry_their_fields() {
    let p = CharacterPosition::new(Some("file".to_string()), 5, 2, 1);
    assert_eq!(p.file_path, Some("file".to_string()));
    assert_eq!((p.index, p.line, p.column), (5, 2, 1));
    let e = CharacterPosition::get_empty();
    assert_eq!(e.file_path, None);
    assert_eq!((e.index, e.line, e.column), (0, 0, 0));
}

#[test]
fn from_config_reflects_only_when_flags_agree() {
    match ASTReflectionStyle::from_config(true, true, "n".to_string()) {
        ASTReflectionStyle::Reflection(name) => assert_eq!(name, "n"),
        _ => panic!("expected a reflection"),
    }
    match ASTReflectionStyle::from_config(false, true, "n".to_string()) {
        ASTReflectionStyle::NoReflection => {}
        _ => panic!("expected no reflection"),
    }
    match ASTReflectionStyle::from_config(false, false, "n".to_string()) {
        ASTReflectionStyle::Reflection(name) => assert_eq!(name, "n"),
        _ => panic!("expected a reflection"),
    }
}

#[test]
fn styles_report_reflectability_and_expansion() {
    assert!(named("x").is_reflectable());
    assert!(!ASTReflectionStyle::NoReflection.is_reflectable());
    assert!(ASTReflectionStyle::Expansion.is_reflectable());
    assert!(ASTReflectionStyle::Expansion.is_expandable());
    assert!(!named("x").is_expandable());
}

#[test]
fn element_accessors_distinguish_nodes_and_leaves() {
    let l = leaf("v", named("L"));
    assert!(!l.is_node());
    assert!(l.is_reflectable());
    assert!(l.get_leaf().is_ok());
    assert!(l.get_node().is_err());
    let n = node(vec![], named("N"));
    assert!(n.is_node());
    assert!(n.get_node().is_ok());
    assert!(n.get_leaf().is_err());
}

#[test]
fn reflection_style_can_be_replaced() {
    let mut l = leaf("v", named("L"));
    l.set_ast_reflection_style(ASTReflectionStyle::NoReflection);
    assert!(!l.is_reflectable());
    match l.get_ast_reflection_style() {
        ASTReflectionStyle::NoReflection => {}
        _ => panic!("expected the replaced style"),
    }
}

#[test]
fn tree_wraps_its_root() {
    let tree = SyntaxTree::from_node_args(vec![leaf("v", named(""))], named("Root"));
    let root = tree.get_child_ref().get_node().ok().unwrap();
    assert_eq!(root.get_children().len(), 1);
    let rebuilt = SyntaxTree::from_node(node(vec![], named("Root")));
    assert_eq!(
        rebuilt
            .get_child_ref()
            .get_node()
            .ok()
            .unwrap()
            .get_children()
            .len(),
        0
    );
}

#[test]
fn reflectable_children_skip_hidden_elements() {
    let n = sample_node();
    let refl = n.get_reflectable_children();
    assert_eq!(refl.len(), 3);
    assert!(refl[0].get_leaf().is_ok());
    assert!(refl[1].get_node().is_ok());
    assert!(refl[2].get_node().is_ok());
}

#[test]
fn child_lookup_by_reflectable_index() {
    let n = sample_node();
    assert!(n.get_child_at(0).is_ok());
    assert!(n.get_leaf_child_at(0).is_ok());
    assert!(n.get_node_child_at(1).is_ok());
    assert!(n.get_child_at(3).is_err());
    let inner = n.get_node_child_at(1).ok().unwrap();
    assert_eq!(inner.join_child_leaf_values(), "b");
}

#[test]
fn first_and_all_matching_child_nodes_are_found() {
    let n = sample_node();
    assert!(n.exists_child_node(vec!["Inner"]));
    assert!(!n.exists_child_node(vec!["Absent"]));
    let first = n.find_first_child_node(vec!["Other", "Inner"]).unwrap();
    match &first.ast_reflection_style {
        ASTReflectionStyle::Reflection(name) => assert_eq!(name, "Inner"),
        _ => panic!("expected a named node"),
    }
    let all = n.find_child_nodes(vec!["Inner", "Other"]);
    assert_eq!(all.len(), 2);
}

#[test]
fn filter_children_keeps_only_accepted_elements() {
    let n = sample_node();
    let nodes_only = n.filter_children(|c: &SyntaxNodeChild| c.is_node());
    assert_eq!(nodes_only.len(), 3);
}

#[test]
fn position_comes_from_the_first_direct_leaf() {
    let with_leaf = SyntaxNode::new(
        1,
        vec![
            node(vec![leaf("x", named(""))], named("N")),
            leaf("y", named("")),
        ],
        named("Top"),
    );
    assert!(with_leaf.get_position().is_ok());
    let without_leaf = SyntaxNode::new(2, vec![node(vec![], named("N"))], named("Top"));
    assert!(without_leaf.get_position().is_err());
}

#[test]
fn join_child_leaf_values_skips_hidden_subtrees() {
    let n = sample_node();
    assert_eq!(n.join_child_leaf_values(), "abe");
}

#[test]
fn leaves_carry_their_values() {
    let l = SyntaxLeaf::new(3, CharacterPosition::get_empty(), "txt".to_string(), named(""));
    assert!(l.is_reflectable());
    assert_eq!(l.value, "txt");
}

#[test]
fn deep_clone_copies_the_whole_element() {
    let n = sample_node();
    let first = SyntaxNodeChild::Node(Box::new(n));
    let copy = first.deep_clone();
    let a = first.get_node().ok().unwrap();
    let b = copy.get_node().ok().unwrap();
    assert_eq!(a.join_child_leaf_values(), b.join_child_leaf_values());
    assert_eq!(a.get_children().len(), b.get_children().len());
}

#[test]
fn loop_ranges_build_as_asked() {
    let r = LoopRange::new(2, None);
    assert_eq!(r.min, 2);
    assert_eq!(r.max, None);
    let s = LoopRange::get_single_loop();
    assert_eq!((s.min, s.max), (1, Some(1)));
}

#[test]
fn the_join_primitive_is_recognized() {
    assert!(is_primitive_rule_name(&"JOIN".to_string()));
    assert!(!is_primitive_rule_name(&"join".to_string()));
}

#[test]
fn memoization_map_stores_and_finds_entries() {
    let mut m = MemoizationMap::new();
    assert!(m.find(9, 0).is_none());
    m.push(9, 0, 2, Some(vec![leaf("ab", named(""))]));
    match m.find(9, 0) {
        Some((len, Some(children))) => {
            assert_eq!(len, 2);
            assert_eq!(children.len(), 1);
            assert_eq!(children[0].get_leaf().ok().unwrap().value, "ab");
        }
        _ => panic!("expected the stored entry"),
    }
    assert!(m.find(9, 1).is_none());
    assert!(m.find(8, 0).is_none());
}

#[test]
fn memoization_map_newest_entry_wins() {
    let mut m = MemoizationMap::new();
    m.push(5, 0, 1, Some(vec![leaf("x", named(""))]));
    m.push(5, 0, 2, Some(vec![leaf("xy", named(""))]));
    match m.find(5, 0) {
        Some((len, Some(children))) => {
            assert_eq!(len, 2);
            assert_eq!(children[0].get_leaf().ok().unwrap().value, "xy");
        }
        _ => panic!("expected the newer entry"),
    }
}

#[test]
fn argument_maps_start_empty() {
    let _ = ArgumentMap::new();
}
