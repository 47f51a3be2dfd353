use std::sync::atomic::{AtomicU64, Ordering};

use fcpeg::parser::{SyntaxParser, SyntaxParsingLog};
use fcpeg::rule::{
    LoopRange, Rule, RuleElement, RuleElementLookaheadKind, RuleElementOrder, RuleExpression,
    RuleExpressionKind, RuleGroup, RuleGroupKind, RuleMap, RuleMapEntry,
};
use fcpeg::tree::{
    ASTReflectionStyle, CharacterPosition, SyntaxNode, SyntaxNodeChild, SyntaxTree,
};

static NEXT_UUID: AtomicU64 = AtomicU64::new(1);

fn fresh_uuid() -> u128 {
    NEXT_UUID.fetch_add(1, Ordering::SeqCst) as u128
}

fn unnamed() -> ASTReflectionStyle {
    ASTReflectionStyle::Reflection(String::new())
}

fn once() -> LoopRange {
    LoopRange::new(1, Some(1))
}

fn expr_of(kind: RuleExpressionKind, value: &str) -> RuleExpression {
    RuleExpression {
        pos: CharacterPosition::get_empty(),
        kind,
        value: value.to_string(),
        ast_reflection_style: unnamed(),
        lookahead_kind: RuleElementLookaheadKind::NoLookahead,
        loop_range: once(),
    }
}

fn lit(value: &str) -> RuleElement {
    RuleElement::Expression(Box::new(expr_of(RuleExpressionKind::LiteralString, value)))
}

fn lit_loop(value: &str, min: usize, max: Option<usize>) -> RuleElement {
    let mut e = expr_of(RuleExpressionKind::LiteralString, value);
    e.loop_range = LoopRange::new(min, max);
    RuleElement::Expression(Box::new(e))
}

fn lit_lookahead(value: &str, positive: bool) -> RuleElement {
    let mut e = expr_of(RuleExpressionKind::LiteralString, value);
    e.lookahead_kind = if positive {
        RuleElementLookaheadKind::Positive
    } else {
        RuleElementLookaheadKind::Negative
    };
    RuleElement::Expression(Box::new(e))
}

fn wildcard() -> RuleElement {
    RuleElement::Expression(Box::new(expr_of(RuleExpressionKind::Wildcard, "")))
}

fn char_class(pattern: &str) -> RuleElement {
    RuleElement::Expression(Box::new(expr_of(RuleExpressionKind::CharClass, pattern)))
}

fn rule_ref(id: &str) -> RuleElement {
    RuleElement::Expression(Box::new(expr_of(RuleExpressionKind::Id, id)))
}

fn group_of(kind: RuleGroupKind, elems: Vec<RuleElement>) -> RuleGroup {
    RuleGroup {
        uuid: fresh_uuid(),
        kind,
        sub_elems: elems,
        ast_reflection_style: unnamed(),
        elem_order: RuleElementOrder::Sequential,
        lookahead_kind: RuleElementLookaheadKind::NoLookahead,
        loop_range: once(),
    }
}

fn seq_group(elems: Vec<RuleElement>) -> RuleGroup {
    group_of(RuleGroupKind::Sequence, elems)
}

/// A choice of the given alternatives, matched `min` to `max` times.
fn choice_loop(alts: Vec<RuleGroup>, min: usize, max: Option<usize>) -> RuleGroup {
    let mut inner = group_of(
        RuleGroupKind::Choice,
        alts.into_iter()
            .map(|g| RuleElement::Group(Box::new(g)))
            .collect(),
    );
    inner.loop_range = once();
    let mut outer = seq_group(vec![RuleElement::Group(Box::new(inner))]);
    outer.loop_range = LoopRange::new(min, max);
    outer
}

fn rule_entry(id: &str, group: RuleGroup) -> RuleMapEntry {
    RuleMapEntry {
        id: id.to_string(),
        rule: Rule {
            group,
            generics_arg_ids: Vec::new(),
            template_arg_ids: Vec::new(),
        },
    }
}

fn map_of(entries: Vec<RuleMapEntry>, start: &str) -> RuleMap {
    RuleMap {
        rules: entries,
        start_rule_id: start.to_string(),
        start_rule_pos: CharacterPosition::get_empty(),
    }
}

fn parse_input(map: &RuleMap, input: &str) -> Result<SyntaxTree, SyntaxParsingLog> {
    SyntaxParser::parse(map, "test".to_string(), input.to_string(), false)
}

fn root_node(tree: &SyntaxTree) -> &SyntaxNode {
    tree.get_child_ref().get_node().ok().unwrap()
}

fn leaf_value(child: &SyntaxNodeChild) -> String {
    child.get_leaf().ok().unwrap().value.clone()
}

fn collect_leaf_values(node: &SyntaxNode, out: &mut Vec<String>) {
    for child in node.get_children() {
        match child {
            SyntaxNodeChild::Node(inner) => collect_leaf_values(inner, out),
            SyntaxNodeChild::Leaf(leaf) => out.push(leaf.value.clone()),
        }
    }
}

fn style_name(style: &ASTReflectionStyle) -> Option<String> {
    match style {
        ASTReflectionStyle::Reflection(name) => Some(name.clone()),
        _ => None,
    }
}

fn tree_eq_mod_uuid(a: &SyntaxNodeChild, b: &SyntaxNodeChild) -> bool {
    match (a, b) {
        (SyntaxNodeChild::Node(na), SyntaxNodeChild::Node(nb)) => {
            na.subelems.len() == nb.subelems.len()
                && styles_eq(&na.ast_reflection_style, &nb.ast_reflection_style)
                && na
                    .subelems
                    .iter()
                    .zip(nb.subelems.iter())
                    .all(|(x, y)| tree_eq_mod_uuid(x, y))
        }
        (SyntaxNodeChild::Leaf(la), SyntaxNodeChild::Leaf(lb)) => {
            la.value == lb.value
                && styles_eq(&la.ast_reflection_style, &lb.ast_reflection_style)
                && la.pos.index == lb.pos.index
                && la.pos.line == lb.pos.line
                && la.pos.column == lb.pos.column
        }
        _ => false,
    }
}

fn styles_eq(a: &ASTReflectionStyle, b: &ASTReflectionStyle) -> bool {
    match (a, b) {
        (ASTReflectionStyle::Reflection(x), ASTReflectionStyle::Reflection(y)) => x == y,
        (ASTReflectionStyle::NoReflection, ASTReflectionStyle::NoReflection) => true,
        (ASTReflectionStyle::Expansion, ASTReflectionStyle::Expansion) => true,
        _ => false,
    }
}

#[test]
fn empty_input_yields_empty_tree() {
    let map = map_of(vec![], "S");
    let tree = parse_input(&map, "").unwrap_or_else(|_| panic!("empty input must succeed"));
    let root = root_node(&tree);
    assert_eq!(root.get_children().len(), 0);
}

#[test]
fn carriage_returns_are_stripped_before_parsing() {
    let map = map_of(vec![], "S");
    let tree = parse_input(&map, "\r\r").unwrap_or_else(|_| panic!("must succeed"));
    assert_eq!(root_node(&tree).get_children().len(), 0);
}

#[test]
fn newline_tracker_reports_line_one_column_zero() {
    let map = map_of(
        vec![rule_entry("S", seq_group(vec![lit("\n"), lit("x")]))],
        "S",
    );
    let tree = parse_input(&map, "\nx").unwrap_or_else(|_| panic!("must succeed"));
    let root = root_node(&tree);
    assert_eq!(root.get_children().len(), 2);
    let second = root.get_children()[1].get_leaf().ok().unwrap();
    assert_eq!(second.pos.line, 1);
    assert_eq!(second.pos.column, 0);
    assert_eq!(second.pos.index, 1);
}

#[test]
fn line_tracker_marks_the_line_start_from_the_consumed_text() {
    let map = map_of(
        vec![rule_entry("S", seq_group(vec![lit("a\nb"), lit("c")]))],
        "S",
    );
    let tree = parse_input(&map, "a\nbc").unwrap_or_else(|_| panic!("must succeed"));
    let root = root_node(&tree);
    let second = root.get_children()[1].get_leaf().ok().unwrap();
    assert_eq!(second.pos.index, 3);
    assert_eq!(second.pos.line, 1);
    assert_eq!(second.pos.column, 1);
}

#[test]
fn invalid_char_class_is_a_fatal_error() {
    let map = map_of(vec![rule_entry("S", seq_group(vec![char_class("(")]))], "S");
    match parse_input(&map, "a") {
        Err(SyntaxParsingLog::InvalidCharClassFormat { value }) => assert_eq!(value, "("),
        _ => panic!("expected the invalid character class report"),
    }
}

#[test]
fn failed_choice_restores_the_cursor() {
    let alts = vec![seq_group(vec![lit("ab")]), seq_group(vec![lit("ac")])];
    let map = map_of(
        vec![rule_entry("S", seq_group(vec![RuleElement::Group(Box::new(choice_loop(alts, 1, Some(1))))]))],
        "S",
    );
    match parse_input(&map, "ad") {
        Err(SyntaxParsingLog::NoSucceededRule { pos, rule_id, .. }) => {
            assert_eq!(rule_id, "S");
            assert_eq!(pos.index, 0);
        }
        _ => panic!("expected no succeeded rule"),
    }
}

#[test]
fn sequence_of_two_literals() {
    let map = map_of(vec![rule_entry("S", seq_group(vec![lit("a"), lit("b")]))], "S");
    let tree = parse_input(&map, "ab").unwrap_or_else(|_| panic!("must succeed"));
    let root = root_node(&tree);
    assert_eq!(style_name(&root.ast_reflection_style).unwrap(), "S");
    assert_eq!(root.get_children().len(), 2);
    assert_eq!(leaf_value(&root.get_children()[0]), "a");
    assert_eq!(leaf_value(&root.get_children()[1]), "b");
    assert_eq!(root.get_children()[0].get_leaf().ok().unwrap().pos.index, 0);
    assert_eq!(root.get_children()[1].get_leaf().ok().unwrap().pos.index, 1);
}

#[test]
fn ordered_choice_takes_the_matching_alternative() {
    let alts = vec![seq_group(vec![lit("a")]), seq_group(vec![lit("b")])];
    let map = map_of(
        vec![rule_entry(
            "S",
            seq_group(vec![RuleElement::Group(Box::new(choice_loop(alts, 1, Some(1))))]),
        )],
        "S",
    );
    let tree = parse_input(&map, "b").unwrap_or_else(|_| panic!("must succeed"));
    let root = root_node(&tree);
    assert_eq!(style_name(&root.ast_reflection_style).unwrap(), "S");
    assert_eq!(root.get_children().len(), 1);
    assert_eq!(leaf_value(&root.get_children()[0]), "b");
}

#[test]
fn unbounded_repetition_gathers_each_match() {
    let map = map_of(
        vec![rule_entry("S", seq_group(vec![lit_loop("a", 0, None)]))],
        "S",
    );
    let tree = parse_input(&map, "aaaa").unwrap_or_else(|_| panic!("must succeed"));
    let root = root_node(&tree);
    let reflectable = root.get_reflectable_children();
    assert_eq!(reflectable.len(), 4);
    for child in reflectable {
        assert_eq!(leaf_value(child), "a");
    }
}

#[test]
fn negative_lookahead_blocks_and_passes() {
    let map = map_of(
        vec![rule_entry("S", seq_group(vec![lit_lookahead("a", false), wildcard()]))],
        "S",
    );
    let tree = parse_input(&map, "b").unwrap_or_else(|_| panic!("must succeed on b"));
    let root = root_node(&tree);
    assert_eq!(root.get_children().len(), 1);
    assert_eq!(leaf_value(&root.get_children()[0]), "b");

    match parse_input(&map, "a") {
        Err(SyntaxParsingLog::NoSucceededRule { .. }) => {}
        _ => panic!("expected no succeeded rule on a"),
    }
}

#[test]
fn positive_lookahead_consumes_nothing() {
    let map = map_of(
        vec![rule_entry("S", seq_group(vec![lit_lookahead("a", true), lit("ab")]))],
        "S",
    );
    let tree = parse_input(&map, "ab").unwrap_or_else(|_| panic!("must succeed"));
    let root = root_node(&tree);
    assert_eq!(root.get_children().len(), 1);
    assert_eq!(leaf_value(&root.get_children()[0]), "ab");
}

#[test]
fn join_flattens_the_matched_subtree_into_one_leaf() {
    let alts = vec![seq_group(vec![lit("a")]), seq_group(vec![lit("b")])];
    let join_arg = choice_loop(alts, 1, None);
    let join_expr = RuleExpression {
        pos: CharacterPosition::get_empty(),
        kind: RuleExpressionKind::IdWithArgs {
            generics_args: vec![join_arg],
            template_args: Vec::new(),
        },
        value: "JOIN".to_string(),
        ast_reflection_style: unnamed(),
        lookahead_kind: RuleElementLookaheadKind::NoLookahead,
        loop_range: once(),
    };
    let map = map_of(
        vec![rule_entry(
            "S",
            seq_group(vec![RuleElement::Expression(Box::new(join_expr))]),
        )],
        "S",
    );
    let tree = parse_input(&map, "aab").unwrap_or_else(|_| panic!("must succeed"));
    let root = root_node(&tree);
    assert_eq!(style_name(&root.ast_reflection_style).unwrap(), "S");
    assert_eq!(root.get_children().len(), 1);
    assert_eq!(leaf_value(&root.get_children()[0]), "aab");
}

#[test]
fn random_order_group_matches_each_alternative_once_in_input_order() {
    let alts = vec![
        seq_group(vec![lit("a")]),
        seq_group(vec![lit("b")]),
        seq_group(vec![lit("c")]),
    ];
    let container = group_of(
        RuleGroupKind::Choice,
        alts.into_iter()
            .map(|g| RuleElement::Group(Box::new(g)))
            .collect(),
    );
    let mut unordered = seq_group(vec![RuleElement::Group(Box::new(container))]);
    unordered.elem_order = RuleElementOrder::Random(LoopRange::new(1, Some(1)));
    let top = seq_group(vec![RuleElement::Group(Box::new(unordered))]);
    let map = map_of(vec![rule_entry("S", top)], "S");
    let tree = parse_input(&map, "bca").unwrap_or_else(|_| panic!("must succeed"));
    let root = root_node(&tree);
    assert_eq!(root.get_children().len(), 3);
    assert_eq!(leaf_value(&root.get_children()[0]), "b");
    assert_eq!(leaf_value(&root.get_children()[1]), "c");
    assert_eq!(leaf_value(&root.get_children()[2]), "a");
}

#[test]
fn leaf_values_concatenate_to_the_consumed_input() {
    let mut hidden = expr_of(RuleExpressionKind::LiteralString, "-");
    hidden.ast_reflection_style = ASTReflectionStyle::NoReflection;
    let map = map_of(
        vec![rule_entry(
            "S",
            seq_group(vec![lit("a"), RuleElement::Expression(Box::new(hidden)), lit("b")]),
        )],
        "S",
    );
    let tree = parse_input(&map, "a-b").unwrap_or_else(|_| panic!("must succeed"));
    let mut values = Vec::new();
    collect_leaf_values(root_node(&tree), &mut values);
    assert_eq!(values.concat(), "a-b");
}

#[test]
fn bounded_repetition_respects_its_range() {
    let map = map_of(
        vec![rule_entry("S", seq_group(vec![lit_loop("a", 2, Some(3))]))],
        "S",
    );
    let tree = parse_input(&map, "aaa").unwrap_or_else(|_| panic!("must succeed on aaa"));
    assert_eq!(root_node(&tree).get_children().len(), 3);
    match parse_input(&map, "a") {
        Err(SyntaxParsingLog::NoSucceededRule { .. }) => {}
        _ => panic!("expected no succeeded rule on a"),
    }
}

#[test]
fn too_long_repetition_is_reported() {
    let map = map_of(
        vec![rule_entry("S", seq_group(vec![lit_loop("", 0, None)]))],
        "S",
    );
    match parse_input(&map, "a") {
        Err(SyntaxParsingLog::TooLongRepetition { loop_limit }) => {
            assert_eq!(loop_limit, 65536);
        }
        _ => panic!("expected the repetition report"),
    }
}

#[test]
fn invalid_loop_range_is_reported() {
    let map = map_of(
        vec![rule_entry("S", seq_group(vec![lit_loop("a", 3, Some(2))]))],
        "S",
    );
    match parse_input(&map, "aaa") {
        Err(SyntaxParsingLog::InvalidLoopRange { min, max }) => {
            assert_eq!((min, max), (3, 2));
        }
        _ => panic!("expected the loop range report"),
    }
}

#[test]
fn unknown_start_rule_is_reported() {
    let map = map_of(vec![], "Missing");
    match parse_input(&map, "a") {
        Err(SyntaxParsingLog::UnknownRuleID { rule_id, .. }) => assert_eq!(rule_id, "Missing"),
        _ => panic!("expected the unknown rule report"),
    }
}

#[test]
fn unknown_rule_reference_is_reported() {
    let map = map_of(vec![rule_entry("S", seq_group(vec![rule_ref("T")]))], "S");
    match parse_input(&map, "a") {
        Err(SyntaxParsingLog::UnknownRuleID { rule_id, .. }) => assert_eq!(rule_id, "T"),
        _ => panic!("expected the unknown rule report"),
    }
}

#[test]
fn rule_references_nest() {
    let map = map_of(
        vec![
            rule_entry("S", seq_group(vec![rule_ref("A"), rule_ref("A")])),
            rule_entry("A", seq_group(vec![char_class("[xy]")])),
        ],
        "S",
    );
    let tree = parse_input(&map, "xy").unwrap_or_else(|_| panic!("must succeed"));
    let root = root_node(&tree);
    assert_eq!(root.get_children().len(), 2);
    let first = root.get_children()[0].get_node().ok().unwrap();
    assert_eq!(style_name(&first.ast_reflection_style).unwrap(), "A");
    assert_eq!(first.join_child_leaf_values(), "x");
}

#[test]
fn char_class_rejects_a_character_outside_the_class() {
    let map = map_of(vec![rule_entry("S", seq_group(vec![char_class("[0-9]")]))], "S");
    match parse_input(&map, "a") {
        Err(SyntaxParsingLog::NoSucceededRule { .. }) => {}
        _ => panic!("expected no succeeded rule"),
    }
}

#[test]
fn memoization_on_and_off_agree() {
    let alts = vec![seq_group(vec![lit("x")]), seq_group(vec![lit("y")])];
    let map = map_of(
        vec![
            rule_entry("S", seq_group(vec![rule_ref("A"), rule_ref("A")])),
            rule_entry(
                "A",
                seq_group(vec![RuleElement::Group(Box::new(choice_loop(alts, 1, Some(1))))]),
            ),
        ],
        "S",
    );
    let plain = SyntaxParser::parse(&map, "test".to_string(), "xy".to_string(), false)
        .unwrap_or_else(|_| panic!("must succeed without memoization"));
    let memoized = SyntaxParser::parse(&map, "test".to_string(), "xy".to_string(), true)
        .unwrap_or_else(|_| panic!("must succeed with memoization"));
    assert!(tree_eq_mod_uuid(plain.get_child_ref(), memoized.get_child_ref()));
}

#[test]
fn generics_arguments_bind_and_resolve() {
    let mut arg_ref = expr_of(RuleExpressionKind::ArgId, "a");
    arg_ref.ast_reflection_style = unnamed();
    let f_group = seq_group(vec![
        RuleElement::Expression(Box::new(arg_ref.deep_clone())),
        RuleElement::Expression(Box::new(arg_ref.deep_clone())),
    ]);
    let f_rule = RuleMapEntry {
        id: "F".to_string(),
        rule: Rule {
            group: f_group,
            generics_arg_ids: vec!["a".to_string()],
            template_arg_ids: Vec::new(),
        },
    };
    let call = RuleExpression {
        pos: CharacterPosition::get_empty(),
        kind: RuleExpressionKind::IdWithArgs {
            generics_args: vec![seq_group(vec![lit("x")])],
            template_args: Vec::new(),
        },
        value: "F".to_string(),
        ast_reflection_style: unnamed(),
        lookahead_kind: RuleElementLookaheadKind::NoLookahead,
        loop_range: once(),
    };
    let map = map_of(
        vec![
            rule_entry("S", seq_group(vec![RuleElement::Expression(Box::new(call))])),
            f_rule,
        ],
        "S",
    );
    let tree = parse_input(&map, "xx").unwrap_or_else(|_| panic!("must succeed"));
    let mut values = Vec::new();
    collect_leaf_values(root_node(&tree), &mut values);
    assert_eq!(values.concat(), "xx");
}

#[test]
fn unbound_generics_argument_is_reported() {
    let map = map_of(
        vec![rule_entry(
            "S",
            seq_group(vec![RuleElement::Expression(Box::new(expr_of(
                RuleExpressionKind::ArgId,
                "a",
            )))]),
        )],
        "S",
    );
    match parse_input(&map, "x") {
        Err(SyntaxParsingLog::UnknownGenericsArgumentID { arg_id }) => assert_eq!(arg_id, "a"),
        _ => panic!("expected the unknown argument report"),
    }
}

#[test]
fn join_argument_count_is_checked() {
    let join_expr = RuleExpression {
        pos: CharacterPosition::get_empty(),
        kind: RuleExpressionKind::IdWithArgs {
            generics_args: vec![seq_group(vec![lit("a")]), seq_group(vec![lit("b")])],
            template_args: Vec::new(),
        },
        value: "JOIN".to_string(),
        ast_reflection_style: unnamed(),
        lookahead_kind: RuleElementLookaheadKind::NoLookahead,
        loop_range: once(),
    };
    let map = map_of(
        vec![rule_entry(
            "S",
            seq_group(vec![RuleElement::Expression(Box::new(join_expr))]),
        )],
        "S",
    );
    match parse_input(&map, "ab") {
        Err(SyntaxParsingLog::InvalidGenericsArgumentLength { expected_arg_len, .. }) => {
            assert_eq!(expected_arg_len, 1);
        }
        _ => panic!("expected the argument length report"),
    }
}

#[test]
fn random_order_group_without_child_group_is_reported() {
    let mut unordered = seq_group(vec![]);
    unordered.elem_order = RuleElementOrder::Random(LoopRange::new(1, Some(1)));
    let top = seq_group(vec![RuleElement::Group(Box::new(unordered))]);
    let map = map_of(vec![rule_entry("S", top)], "S");
    match parse_input(&map, "a") {
        Err(SyntaxParsingLog::InvalidRuleElementStructure { .. }) => {}
        _ => panic!("expected the structure report"),
    }
}

#[test]
fn incomplete_consumption_fails() {
    let map = map_of(vec![rule_entry("S", seq_group(vec![lit("a")]))], "S");
    match parse_input(&map, "ab") {
        Err(SyntaxParsingLog::NoSucceededRule { pos, .. }) => assert_eq!(pos.index, 1),
        _ => panic!("expected no succeeded rule"),
    }
}

#[test]
fn expansion_style_splices_children_into_the_parent() {
    let mut a_ref = expr_of(RuleExpressionKind::Id, "A");
    a_ref.ast_reflection_style = ASTReflectionStyle::Expansion;
    let map = map_of(
        vec![
            rule_entry(
                "S",
                seq_group(vec![
                    lit("x"),
                    RuleElement::Expression(Box::new(a_ref)),
                    lit("z"),
                ]),
            ),
            rule_entry("A", seq_group(vec![lit("y")])),
        ],
        "S",
    );
    let tree = parse_input(&map, "xyz").unwrap_or_else(|_| panic!("must succeed"));
    let root = root_node(&tree);
    assert_eq!(root.get_children().len(), 3);
    assert_eq!(leaf_value(&root.get_children()[1]), "y");
}

#[test]
fn rule_reference_takes_the_given_reflection_name() {
    let mut a_ref = expr_of(RuleExpressionKind::Id, "A");
    a_ref.ast_reflection_style = ASTReflectionStyle::Reflection("Custom".to_string());
    let map = map_of(
        vec![
            rule_entry("S", seq_group(vec![RuleElement::Expression(Box::new(a_ref))])),
            rule_entry("A", seq_group(vec![lit("y")])),
        ],
        "S",
    );
    let tree = parse_input(&map, "y").unwrap_or_else(|_| panic!("must succeed"));
    let root = root_node(&tree);
    let child = root.get_children()[0].get_node().ok().unwrap();
    assert_eq!(style_name(&child.ast_reflection_style).unwrap(), "Custom");
}

#[test]
fn template_arguments_are_counted() {
    let f_rule = RuleMapEntry {
        id: "F".to_string(),
        rule: Rule {
            group: seq_group(vec![lit("x")]),
            generics_arg_ids: Vec::new(),
            template_arg_ids: vec!["t".to_string()],
        },
    };
    let call = RuleExpression {
        pos: CharacterPosition::get_empty(),
        kind: RuleExpressionKind::IdWithArgs {
            generics_args: Vec::new(),
            template_args: Vec::new(),
        },
        value: "F".to_string(),
        ast_reflection_style: unnamed(),
        lookahead_kind: RuleElementLookaheadKind::NoLookahead,
        loop_range: once(),
    };
    let map = map_of(
        vec![
            rule_entry("S", seq_group(vec![RuleElement::Expression(Box::new(call))])),
            f_rule,
        ],
        "S",
    );
    match parse_input(&map, "x") {
        Err(SyntaxParsingLog::InvalidTemplateArgumentLength { expected_arg_len, .. }) => {
            assert_eq!(expected_arg_len, 1);
        }
        _ => panic!("expected the template argument length report"),
    }
}

#[test]
fn template_arguments_bind_when_counts_agree() {
    let f_rule = RuleMapEntry {
        id: "F".to_string(),
        rule: Rule {
            group: seq_group(vec![lit("x")]),
            generics_arg_ids: Vec::new(),
            template_arg_ids: vec!["t".to_string()],
        },
    };
    let call = RuleExpression {
        pos: CharacterPosition::get_empty(),
        kind: RuleExpressionKind::IdWithArgs {
            generics_args: Vec::new(),
            template_args: vec![seq_group(vec![lit("u")])],
        },
        value: "F".to_string(),
        ast_reflection_style: unnamed(),
        lookahead_kind: RuleElementLookaheadKind::NoLookahead,
        loop_range: once(),
    };
    let map = map_of(
        vec![
            rule_entry("S", seq_group(vec![RuleElement::Expression(Box::new(call))])),
            f_rule,
        ],
        "S",
    );
    let tree = parse_input(&map, "x").unwrap_or_else(|_| panic!("must succeed"));
    let mut values = Vec::new();
    collect_leaf_values(root_node(&tree), &mut values);
    assert_eq!(values.concat(), "x");
}
