//! The recursive descent evaluator: matches a compiled rule graph against
//! an input string and builds a concrete syntax tree, with backtracking,
//! lookahead, bounded repetition, unordered groups, rule-valued arguments
//! and optional packrat memoization.

use vstd::prelude::*;
use vstd::string::StringExecFns;
use crate::ext::{
    char_class_is_match, chars_to_string, compile_char_class, regex_hit, regex_ok,
    string_to_chars, CharClassMatcher,
};
use crate::rule::{
    group_join_free, group_view, group_views, groups_join_free, is_primitive_rule_name,
    lemma_elem_views_len, lemma_elems_join_free_index, lemma_group_views_len,
    lemma_groups_join_free_index, lemma_lookup_rule_join_free, lookup_rule, map_join_free,
    rule_view, spec_primitive_rule_name, ElemView, LoopRange, RuleElement,
    RuleElementLookaheadKind,
    RuleElementOrder, RuleExpression, RuleExpressionKind, RuleGroup, RuleGroupKind, RuleMap,
    RuleView,
};
use crate::tree::{
    child_view, children_ast_text, children_text, children_views, clone_children,
    drop_empty_nodes, lemma_children_ast_text_push, lemma_children_text_append,
    lemma_drop_empty_nodes_free, lemma_no_empty_nodes_append, no_empty_nodes,
    lemma_children_text_push, lemma_children_views_append, lemma_children_views_len,
    lemma_children_views_push, lemma_drop_empty_nodes_push, ASTReflectionStyle,
    CharacterPosition, ChildView, LeafView, NodeView, PositionView, StyleView, SyntaxNode,
    SyntaxNodeChild, SyntaxTree,
};

verus! {

/// The depth bound on rule recursion; exceeding it is a hard error.
pub const MAX_NESTING_DEPTH: u64 = 65536;

/// The default bound on iterations of one repetition.
pub const DEFAULT_LOOP_LIMIT: usize = 65536;

/// Structured report of a hard parsing error. A plain failure to match is
/// not an error: it is reported as an absent result and drives
/// backtracking.
pub enum SyntaxParsingLog {
    InvalidCharClassFormat { value: String },
    InvalidGenericsArgumentLength { pos: CharacterPosition, expected_arg_len: usize },
    InvalidTemplateArgumentLength { pos: CharacterPosition, expected_arg_len: usize },
    InvalidLoopRange { min: usize, max: usize },
    InvalidRuleElementStructure { uuid: u128, msg: String },
    NoSucceededRule {
        pos: CharacterPosition,
        rule_id: String,
        rule_stack: Vec<(CharacterPosition, String)>,
    },
    TooLongRepetition { loop_limit: usize },
    TooDeepNesting { depth_limit: usize },
    UncoveredPrimitiveRule { pos: CharacterPosition, rule_name: String },
    UnknownGenericsArgumentID { arg_id: String },
    UnknownTemplateArgumentID { arg_id: String },
    UnknownLookaheadKind { uuid: u128, kind: String },
    UnknownRuleID { pos: CharacterPosition, rule_id: String },
}

pub open spec fn is_unknown_rule_id_log(e: SyntaxParsingLog, id: Seq<char>, at: PositionView) -> bool {
    e matches SyntaxParsingLog::UnknownRuleID { pos, rule_id } && rule_id@ == id && pos@ == at
}

pub open spec fn is_char_class_log(e: SyntaxParsingLog, pattern: Seq<char>) -> bool {
    e matches SyntaxParsingLog::InvalidCharClassFormat { value } && value@ == pattern
}

pub open spec fn is_invalid_loop_range_log(e: SyntaxParsingLog, lr: LoopRange) -> bool {
    e matches SyntaxParsingLog::InvalidLoopRange { min, max } && min == lr.min && lr.max
        == Option::Some(max)
}

pub open spec fn is_unknown_generics_arg_log(e: SyntaxParsingLog, id: Seq<char>) -> bool {
    e matches SyntaxParsingLog::UnknownGenericsArgumentID { arg_id } && arg_id@ == id
}

/// The loop range a repetition runs under: the override where the caller
/// gave one, the element's own range otherwise.
pub open spec fn effective_loop_range(loop_override: Option<&LoopRange>, fallback: LoopRange)
    -> LoopRange {
    match loop_override {
        Option::Some(l) => *l,
        Option::None => fallback,
    }
}

/// The reflection style a rule match carries: the first sub-group's
/// style where the rule group starts with a group, the rule group's own
/// style otherwise; an unnamed reflection takes the rule id as its name.
pub open spec fn effective_rule_style(rv: RuleView, rule_id: Seq<char>) -> StyleView {
    let base = if rv.group.sub_elems.len() > 0 {
        match rv.group.sub_elems[0] {
            ElemView::Group(g) => g.style,
            ElemView::Expression(_) => rv.group.style,
        }
    } else {
        rv.group.style
    };
    match base {
        StyleView::Reflection(name) => if name.len() == 0 {
            StyleView::Reflection(rule_id)
        } else {
            StyleView::Reflection(name)
        },
        StyleView::NoReflection => StyleView::NoReflection,
        StyleView::Expansion => StyleView::Expansion,
    }
}

/// Whether the literal `v` stands at position `i` of `s`, with the
/// cursor strictly inside the input, as literal matching demands.
pub open spec fn literal_matches_at(s: Seq<char>, i: int, v: Seq<char>) -> bool {
    i < s.len() && i + v.len() <= s.len() && s.subrange(i, i + v.len()) == v
}

/// A run of produced elements holding exactly one leaf with the given
/// position, value and style.
pub open spec fn single_leaf_output(
    out: Seq<SyntaxNodeChild>,
    pos: PositionView,
    value: Seq<char>,
    style: StyleView,
) -> bool {
    children_views(out) == seq![ChildView::Leaf(LeafView { pos, value, style })]
}

/// The position-tracker state: cursor, line, and last-line-start mark.
pub ghost struct TrackView {
    pub i: int,
    pub line: int,
    pub mark: int,
}

/// The source location at a tracker state.
pub open spec fn position_at(path: Seq<char>, t: TrackView) -> PositionView {
    PositionView {
        file_path: Option::Some(path),
        index: t.i,
        line: t.line,
        column: if t.i >= t.mark {
            t.i - t.mark
        } else {
            t.mark
        },
    }
}

/// The tracker after consuming `txt`.
pub open spec fn advanced_track(t: TrackView, txt: Seq<char>) -> TrackView {
    TrackView {
        i: t.i + txt.len(),
        line: t.line + newline_count(txt),
        mark: updated_latest_line_mark(txt, t.i, t.mark),
    }
}

/// Whether the expression kind is one of the three primitive matchers,
/// with a compilable pattern where it is a character class.
pub open spec fn primitive_defined(kind: crate::rule::ExprKindView, value: Seq<char>) -> bool {
    match kind {
        crate::rule::ExprKindView::LiteralString => true,
        crate::rule::ExprKindView::CharClass => regex_ok(value),
        crate::rule::ExprKindView::Wildcard => true,
        _ => false,
    }
}

/// What one primitive matcher consumes at the cursor: the text of the
/// single leaf it emits, or nothing on a failure to match.
pub open spec fn primitive_consumes(
    s: Seq<char>,
    i: int,
    kind: crate::rule::ExprKindView,
    value: Seq<char>,
) -> Option<Seq<char>> {
    match kind {
        crate::rule::ExprKindView::LiteralString => if literal_matches_at(s, i, value) {
            Option::Some(value)
        } else {
            Option::None
        },
        crate::rule::ExprKindView::CharClass => if i < s.len() && regex_hit(value, seq![s[i]]) {
            Option::Some(seq![s[i]])
        } else {
            Option::None
        },
        crate::rule::ExprKindView::Wildcard => if i < s.len() {
            Option::Some(seq![s[i]])
        } else {
            Option::None
        },
        _ => Option::None,
    }
}

/// The outcome of a repetition: matched children with the final
/// tracker, a clean no-match, or a repetition beyond the limit, which is
/// a hard error.
pub ghost enum RepeatOutcome {
    Matched(Seq<ChildView>, TrackView),
    NoMatch,
    Overrun,
}

/// A primitive expression with a well-formed repetition range.
pub open spec fn repeatable_primitive(x: crate::rule::ExprView) -> bool {
    primitive_defined(x.kind, x.value) && x.loop_range.is_valid()
}

/// Greedy repetition of one primitive expression: matched again and
/// again from the tracker state, emitting one leaf per match, until a
/// failure, the end of the input, or the finite maximum; the whole
/// repetition matches exactly when the count lands in the range, and
/// passing the limit is a hard error.
pub open spec fn prim_repeat(
    s: Seq<char>,
    path: Seq<char>,
    t: TrackView,
    x: crate::rule::ExprView,
    count: int,
    limit: int,
) -> RepeatOutcome
    decreases limit + 1 - count,
{
    if t.i >= s.len() {
        if count >= x.loop_range.min as int && (match x.loop_range.max {
            Option::Some(m) => count <= m as int,
            Option::None => true,
        }) {
            RepeatOutcome::Matched(Seq::empty(), t)
        } else {
            RepeatOutcome::NoMatch
        }
    } else if count > limit {
        RepeatOutcome::Overrun
    } else {
        match primitive_consumes(s, t.i, x.kind, x.value) {
            Option::Some(txt) => {
                if (match x.loop_range.max {
                    Option::Some(m) => count + 1 == m as int,
                    Option::None => false,
                }) {
                    RepeatOutcome::Matched(
                        seq![
                            ChildView::Leaf(
                                LeafView { pos: position_at(path, t), value: txt, style: x.style },
                            )
                        ],
                        advanced_track(t, txt),
                    )
                } else {
                    match prim_repeat(s, path, advanced_track(t, txt), x, count + 1, limit) {
                        RepeatOutcome::Matched(cs, t2) => RepeatOutcome::Matched(
                            seq![
                                ChildView::Leaf(
                                    LeafView {
                                        pos: position_at(path, t),
                                        value: txt,
                                        style: x.style,
                                    },
                                )
                            ] + cs,
                            t2,
                        ),
                        RepeatOutcome::NoMatch => RepeatOutcome::NoMatch,
                        RepeatOutcome::Overrun => RepeatOutcome::Overrun,
                    }
                }
            },
            Option::None => {
                if count >= x.loop_range.min as int && (match x.loop_range.max {
                    Option::Some(m) => count <= m as int,
                    Option::None => true,
                }) {
                    RepeatOutcome::Matched(Seq::empty(), t)
                } else {
                    RepeatOutcome::NoMatch
                }
            },
        }
    }
}

/// Whether every element of the run is a primitive expression matched
/// exactly once, without lookahead and with a compilable pattern where
/// it is a character class.
pub open spec fn flat_primitives(elems: Seq<ElemView>) -> bool {
    forall|k: int|
        0 <= k < elems.len() ==> (#[trigger] elems[k] matches ElemView::Expression(x)
            && repeatable_primitive(x))
}

/// What a run of primitive elements consumes and emits from a tracker
/// state: each element repeats greedily within its range, a
/// lookahead-marked element asserts its polarity without consuming, and
/// the whole run matches, fails, or overruns the repetition limit.
pub open spec fn seq_consumes(
    s: Seq<char>,
    path: Seq<char>,
    t: TrackView,
    elems: Seq<ElemView>,
    limit: int,
) -> RepeatOutcome
    decreases elems,
{
    if elems.len() == 0 {
        RepeatOutcome::Matched(Seq::empty(), t)
    } else {
        match elems[0] {
            ElemView::Expression(x) => if x.lookahead_kind is NoLookahead {
                match prim_repeat(s, path, t, x, 0, limit) {
                    RepeatOutcome::Matched(cs, t2) => match seq_consumes(
                        s,
                        path,
                        t2,
                        elems.subrange(1, elems.len() as int),
                        limit,
                    ) {
                        RepeatOutcome::Matched(cs2, t3) => RepeatOutcome::Matched(cs + cs2, t3),
                        RepeatOutcome::NoMatch => RepeatOutcome::NoMatch,
                        RepeatOutcome::Overrun => RepeatOutcome::Overrun,
                    },
                    RepeatOutcome::NoMatch => RepeatOutcome::NoMatch,
                    RepeatOutcome::Overrun => RepeatOutcome::Overrun,
                }
            } else {
                match prim_repeat(s, path, t, x, 0, limit) {
                    RepeatOutcome::Matched(cs0, t0) => if x.lookahead_kind is Positive {
                        seq_consumes(s, path, t, elems.subrange(1, elems.len() as int), limit)
                    } else {
                        RepeatOutcome::NoMatch
                    },
                    RepeatOutcome::NoMatch => if x.lookahead_kind is Positive {
                        RepeatOutcome::NoMatch
                    } else {
                        seq_consumes(s, path, t, elems.subrange(1, elems.len() as int), limit)
                    },
                    RepeatOutcome::Overrun => RepeatOutcome::Overrun,
                }
            },
            ElemView::Group(_) => RepeatOutcome::NoMatch,
        }
    }
}

/// A rule whose whole body is one nonempty run of primitives, matched
/// exactly once without lookahead.
pub open spec fn flat_once_rule(rv: RuleView) -> bool {
    flat_primitives(rv.group.sub_elems) && rv.group.sub_elems.len() > 0 && rv.group.loop_range
        == (LoopRange { min: 1, max: Option::Some(1usize) })
        && rv.group.lookahead_kind is NoLookahead
}

/// A group usable as a choice alternative of the characterised
/// fragment: one nonempty run of primitives, matched exactly once
/// without a lookahead mark, in declaration order.
pub open spec fn flat_alternative(g: crate::rule::GroupView) -> bool {
    flat_primitives(g.sub_elems) && g.sub_elems.len() > 0 && g.loop_range == (LoopRange {
        min: 1,
        max: Option::Some(1usize),
    }) && g.lookahead_kind is NoLookahead
}

/// Whether every group among the alternatives is a flat alternative;
/// alternatives that are not groups are never tried.
pub open spec fn flat_choice_alternatives(alts: Seq<ElemView>) -> bool {
    forall|k: int|
        0 <= k < alts.len() ==> ((#[trigger] alts[k]) matches ElemView::Group(g)
            ==> flat_alternative(g))
}

/// What an ordered choice over flat alternatives consumes: the
/// alternatives are tried in declaration order from one position, the
/// first match is committed, and elements that are not groups are passed
/// over.
pub open spec fn choice_consumes(
    s: Seq<char>,
    path: Seq<char>,
    t: TrackView,
    alts: Seq<ElemView>,
    limit: int,
) -> RepeatOutcome
    decreases alts,
{
    if alts.len() == 0 {
        RepeatOutcome::NoMatch
    } else {
        match alts[0] {
            ElemView::Group(g) => match seq_consumes(s, path, t, g.sub_elems, limit) {
                RepeatOutcome::Matched(cs, t2) => RepeatOutcome::Matched(cs, t2),
                RepeatOutcome::NoMatch => choice_consumes(
                    s,
                    path,
                    t,
                    alts.subrange(1, alts.len() as int),
                    limit,
                ),
                RepeatOutcome::Overrun => RepeatOutcome::Overrun,
            },
            ElemView::Expression(_) => choice_consumes(
                s,
                path,
                t,
                alts.subrange(1, alts.len() as int),
                limit,
            ),
        }
    }
}

/// A group holding exactly one ordered choice over flat alternatives.
pub open spec fn single_flat_choice(gv: crate::rule::GroupView) -> bool {
    gv.sub_elems.len() == 1 && (gv.sub_elems[0] matches ElemView::Group(c) && c.kind is Choice
        && c.elem_order is Sequential && flat_choice_alternatives(c.sub_elems))
}

/// A rule whose whole body is one ordered choice over flat alternatives.
pub open spec fn flat_choice_rule(rv: RuleView) -> bool {
    single_flat_choice(rv.group) && rv.group.loop_range == (LoopRange {
        min: 1,
        max: Option::Some(1usize),
    }) && rv.group.lookahead_kind is NoLookahead
}

/// The alternatives of a single-choice rule body.
pub open spec fn choice_alts_of(elems: Seq<ElemView>) -> Seq<ElemView> {
    match elems[0] {
        ElemView::Group(c) => c.sub_elems,
        ElemView::Expression(_) => Seq::empty(),
    }
}

/// The generics argument groups of a parameterized reference.
pub open spec fn generics_args_of(k: crate::rule::ExprKindView) -> Seq<crate::rule::GroupView> {
    match k {
        crate::rule::ExprKindView::IdWithArgs { generics_args, .. } => generics_args,
        _ => Seq::empty(),
    }
}

/// The template argument groups of a parameterized reference.
pub open spec fn template_args_of(k: crate::rule::ExprKindView) -> Seq<crate::rule::GroupView> {
    match k {
        crate::rule::ExprKindView::IdWithArgs { template_args, .. } => template_args,
        _ => Seq::empty(),
    }
}

/// The style a rule reference stamps on its match: an unnamed
/// reflection takes the referenced rule's id as its name.
pub open spec fn id_shaped_style(style: StyleView, id: Seq<char>) -> StyleView {
    match style {
        StyleView::Reflection(name) => if name.len() == 0 {
            StyleView::Reflection(id)
        } else {
            StyleView::Reflection(name)
        },
        StyleView::NoReflection => StyleView::NoReflection,
        StyleView::Expansion => StyleView::Expansion,
    }
}

/// What a rule reference hands back: the matched rule's children under a
/// restyled node, or the children themselves in its place when the
/// reference carries the expansion style.
pub open spec fn id_shaped_output(
    children: Seq<ChildView>,
    style: StyleView,
    id: Seq<char>,
) -> Seq<ChildView> {
    if style.is_expandable() {
        children
    } else {
        seq![ChildView::Node(NodeView { style: id_shaped_style(style, id), children })]
    }
}

/// A matched repetition emits leaves only.
pub proof fn lemma_prim_repeat_leaves(
    s: Seq<char>,
    path: Seq<char>,
    t: TrackView,
    x: crate::rule::ExprView,
    count: int,
    limit: int,
)
    ensures
        prim_repeat(s, path, t, x, count, limit) matches RepeatOutcome::Matched(cs, t2)
            ==> forall|k: int| 0 <= k < cs.len() ==> (#[trigger] cs[k]) is Leaf,
    decreases limit + 1 - count,
{
    if t.i < s.len() && count <= limit {
        match primitive_consumes(s, t.i, x.kind, x.value) {
            Option::Some(txt) => {
                if !(match x.loop_range.max {
                    Option::Some(m) => count + 1 == m as int,
                    Option::None => false,
                }) {
                    lemma_prim_repeat_leaves(s, path, advanced_track(t, txt), x, count + 1, limit);
                }
            },
            Option::None => {},
        }
    }
}

/// A matched ordered choice over flat alternatives emits leaves only.
pub proof fn lemma_choice_consumes_leaves(
    s: Seq<char>,
    path: Seq<char>,
    t: TrackView,
    alts: Seq<ElemView>,
    limit: int,
)
    ensures
        choice_consumes(s, path, t, alts, limit) matches RepeatOutcome::Matched(out, t2)
            ==> forall|k: int| 0 <= k < out.len() ==> (#[trigger] out[k]) is Leaf,
    decreases alts,
{
    if alts.len() > 0 {
        match alts[0] {
            ElemView::Group(g) => {
                match seq_consumes(s, path, t, g.sub_elems, limit) {
                    RepeatOutcome::Matched(cs, t2) => {
                        lemma_seq_consumes_leaves(s, path, t, g.sub_elems, limit);
                    },
                    RepeatOutcome::NoMatch => {
                        lemma_choice_consumes_leaves(
                            s,
                            path,
                            t,
                            alts.subrange(1, alts.len() as int),
                            limit,
                        );
                    },
                    RepeatOutcome::Overrun => {},
                }
            },
            ElemView::Expression(_) => {
                lemma_choice_consumes_leaves(s, path, t, alts.subrange(1, alts.len() as int), limit);
            },
        }
    }
}

/// A matched run of primitives emits leaves only.
pub proof fn lemma_seq_consumes_leaves(
    s: Seq<char>,
    path: Seq<char>,
    t: TrackView,
    elems: Seq<ElemView>,
    limit: int,
)
    ensures
        seq_consumes(s, path, t, elems, limit) matches RepeatOutcome::Matched(out, t2)
            ==> forall|k: int| 0 <= k < out.len() ==> (#[trigger] out[k]) is Leaf,
    decreases elems,
{
    if elems.len() > 0 {
        match elems[0] {
            ElemView::Expression(x) => {
                if x.lookahead_kind is NoLookahead {
                    match prim_repeat(s, path, t, x, 0, limit) {
                        RepeatOutcome::Matched(cs, t2) => {
                            lemma_prim_repeat_leaves(s, path, t, x, 0, limit);
                            lemma_seq_consumes_leaves(
                                s,
                                path,
                                t2,
                                elems.subrange(1, elems.len() as int),
                                limit,
                            );
                        },
                        RepeatOutcome::NoMatch => {},
                        RepeatOutcome::Overrun => {},
                    }
                } else {
                    lemma_seq_consumes_leaves(
                        s,
                        path,
                        t,
                        elems.subrange(1, elems.len() as int),
                        limit,
                    );
                }
            },
            ElemView::Group(_) => {},
        }
    }
}

/// Dropping empty nodes leaves an all-leaf run unchanged.
pub proof fn lemma_drop_empty_nodes_leaves(s: Seq<ChildView>)
    requires
        forall|k: int| 0 <= k < s.len() ==> (#[trigger] s[k]) is Leaf,
    ensures
        drop_empty_nodes(s) == s,
    decreases s,
{
    if s.len() > 0 {
        let tail = s.subrange(1, s.len() as int);
        assert(forall|k: int| 0 <= k < tail.len() ==> (#[trigger] tail[k]) == s[k + 1]);
        lemma_drop_empty_nodes_leaves(tail);
        assert(drop_empty_nodes(s) =~= s);
    }
}

/// Whether the newest memo record is for the given key, consumed span
/// and produced children.
pub open spec fn memo_recorded(
    m: Seq<MemoEntry>,
    group_uuid: u128,
    src_i: usize,
    src_len: int,
    v: Seq<SyntaxNodeChild>,
) -> bool {
    m.len() > 0 && m.last().group_uuid == group_uuid && m.last().src_i == src_i && m.last().src_len
        as int == src_len && (m.last().result matches Option::Some(w) && children_views(w@)
        == children_views(v))
}

/// Whether any map on the stack binds a generics argument under `id`.
pub open spec fn stack_has_generics(maps: Seq<ArgumentMap>, id: Seq<char>) -> bool {
    exists|i: int| 0 <= i < maps.len() && arg_lookup(#[trigger] maps[i].generics(), id) is Some
}

/// One rule-valued argument binding.
pub struct ArgBinding {
    pub id: String,
    pub group: RuleGroup,
}

/// The generics and template bindings of one parameterized rule
/// invocation.
pub struct ArgumentMap {
    generics_group: Vec<ArgBinding>,
    template_group: Vec<ArgBinding>,
}

/// The binding for `id`, if any; the newest entry wins, so a later
/// binding for the same id shadows an earlier one.
pub open spec fn arg_lookup(bindings: Seq<ArgBinding>, id: Seq<char>) -> Option<ArgBinding>
    decreases bindings,
{
    if bindings.len() == 0 {
        Option::None
    } else if bindings.last().id@ == id {
        Option::Some(bindings.last())
    } else {
        arg_lookup(bindings.subrange(0, bindings.len() - 1), id)
    }
}

proof fn lemma_arg_lookup_found(bindings: Seq<ArgBinding>, id: Seq<char>)
    ensures
        arg_lookup(bindings, id) matches Option::Some(b) ==> exists|j: int|
            0 <= j < bindings.len() && bindings[j] == b,
    decreases bindings,
{
    if bindings.len() > 0 {
        let head = bindings.subrange(0, bindings.len() - 1);
        lemma_arg_lookup_found(head, id);
        if !(bindings.last().id@ == id) {
            match arg_lookup(head, id) {
                Option::Some(b) => {
                    let j = choose|j: int| 0 <= j < head.len() && head[j] == b;
                    assert(bindings[j] == b);
                },
                Option::None => {},
            }
        }
    }
}

proof fn lemma_arg_lookup_step(bindings: Seq<ArgBinding>, id: Seq<char>, i: int)
    requires
        0 <= i < bindings.len(),
        bindings[i].id@ != id,
    ensures
        arg_lookup(bindings.subrange(0, i + 1), id) == arg_lookup(
            bindings.subrange(0, i),
            id,
        ),
{
    let head = bindings.subrange(0, i + 1);
    assert(head.last() == bindings[i]);
    assert(head.subrange(0, head.len() - 1) =~= bindings.subrange(0, i));
}

impl ArgumentMap {
    pub closed spec fn generics(self) -> Seq<ArgBinding> {
        self.generics_group@
    }

    pub closed spec fn templates(self) -> Seq<ArgBinding> {
        self.template_group@
    }

    pub fn new() -> (r: ArgumentMap)
        ensures
            r.generics().len() == 0,
            r.templates().len() == 0,
    {
        ArgumentMap { generics_group: Vec::new(), template_group: Vec::new() }
    }

    /// The generics group bound to `id`, if any; the newest binding
    /// wins.
    fn get_generics_group(&self, id: &String) -> (r: Option<&RuleGroup>)
        ensures
            arg_lookup(self.generics(), id@) is None ==> r is None,
            arg_lookup(self.generics(), id@) matches Some(b) ==> (r matches Some(g) && group_view(
                *g,
            ) == group_view(b.group)),
    {
        let n = self.generics_group.len();
        let mut i: usize = n;
        proof {
            assert(self.generics().subrange(0, n as int) =~= self.generics());
        }
        while i > 0
            invariant
                0 <= i <= n,
                n == self.generics_group@.len(),
                arg_lookup(self.generics(), id@) == arg_lookup(
                    self.generics().subrange(0, i as int),
                    id@,
                ),
            decreases i,
        {
            i = i - 1;
            proof {
                assert(self.generics().subrange(0, i as int + 1).last() == self.generics()[
                    i as int
                ]);
                assert(self.generics().subrange(0, i as int + 1).subrange(0, i as int)
                    =~= self.generics().subrange(0, i as int));
            }
            if self.generics_group[i].id.eq(id) {
                return Some(&self.generics_group[i].group);
            }
            proof {
                lemma_arg_lookup_step(self.generics(), id@, i as int);
            }
        }
        proof {
            assert(self.generics().subrange(0, 0).len() == 0);
        }
        None
    }
}

/// One memoized group outcome: at `src_i` the group consumed `src_len`
/// characters and produced `result`.
pub struct MemoEntry {
    pub group_uuid: u128,
    pub src_i: usize,
    pub src_len: usize,
    pub result: Option<Vec<SyntaxNodeChild>>,
}

/// The packrat cache: group identity and input position to consumed
/// length and produced children.
pub struct MemoizationMap {
    entries: Vec<MemoEntry>,
}

impl View for MemoizationMap {
    type V = Seq<MemoEntry>;

    closed spec fn view(&self) -> Seq<MemoEntry> {
        self.entries@
    }
}

/// The entry for the key, if any; the newest entry wins, so a later
/// record for the same key shadows an earlier one.
pub open spec fn memo_lookup(entries: Seq<MemoEntry>, group_uuid: u128, src_i: usize) -> Option<
    MemoEntry,
>
    decreases entries,
{
    if entries.len() == 0 {
        Option::None
    } else if entries.last().group_uuid == group_uuid && entries.last().src_i == src_i {
        Option::Some(entries.last())
    } else {
        memo_lookup(entries.subrange(0, entries.len() - 1), group_uuid, src_i)
    }
}

proof fn lemma_memo_lookup_found(entries: Seq<MemoEntry>, group_uuid: u128, src_i: usize)
    ensures
        memo_lookup(entries, group_uuid, src_i) matches Option::Some(e) ==> (e.group_uuid
            == group_uuid && e.src_i == src_i && exists|j: int|
            0 <= j < entries.len() && entries[j] == e),
    decreases entries,
{
    if entries.len() > 0 {
        let head = entries.subrange(0, entries.len() - 1);
        lemma_memo_lookup_found(head, group_uuid, src_i);
        if !(entries.last().group_uuid == group_uuid && entries.last().src_i == src_i) {
            match memo_lookup(head, group_uuid, src_i) {
                Option::Some(e) => {
                    let j = choose|j: int| 0 <= j < head.len() && head[j] == e;
                    assert(entries[j] == e);
                },
                Option::None => {},
            }
        }
    }
}

proof fn lemma_memo_lookup_step(entries: Seq<MemoEntry>, group_uuid: u128, src_i: usize, i: int)
    requires
        0 <= i < entries.len(),
        !(entries[i].group_uuid == group_uuid && entries[i].src_i == src_i),
    ensures
        memo_lookup(entries.subrange(0, i + 1), group_uuid, src_i) == memo_lookup(
            entries.subrange(0, i),
            group_uuid,
            src_i,
        ),
{
    let head = entries.subrange(0, i + 1);
    assert(head.last() == entries[i]);
    assert(head.subrange(0, head.len() - 1) =~= entries.subrange(0, i));
}

/// Whether a find result reports exactly the stored entry: same consumed
/// length and, element for element, the same produced children.
pub open spec fn memo_result_matches(
    r: Option<(usize, Option<Vec<SyntaxNodeChild>>)>,
    e: MemoEntry,
) -> bool {
    match r {
        Option::Some(p) => p.0 == e.src_len && match (p.1, e.result) {
            (Option::Some(v), Option::Some(w)) => children_views(v@) == children_views(w@),
            (Option::None, Option::None) => true,
            _ => false,
        },
        Option::None => false,
    }
}

impl MemoizationMap {
    pub fn new() -> (r: MemoizationMap)
        ensures
            r@ =~= Seq::<MemoEntry>::empty(),
    {
        MemoizationMap { entries: Vec::new() }
    }

    /// Records one outcome under (group identity, input position).
    pub fn push(
        &mut self,
        group_uuid: u128,
        src_i: usize,
        src_len: usize,
        result: Option<Vec<SyntaxNodeChild>>,
    )
        ensures
            final(self)@ == old(self)@.push(
                MemoEntry { group_uuid, src_i, src_len, result },
            ),
    {
        self.entries.push(MemoEntry { group_uuid, src_i, src_len, result });
    }

    /// The recorded outcome for the key, the newest record winning, with
    /// the children copied out.
    pub fn find(&self, pattern: u128, src_i: usize) -> (r: Option<
        (usize, Option<Vec<SyntaxNodeChild>>),
    >)
        ensures
            memo_lookup(self@, pattern, src_i) is None ==> r is None,
            memo_lookup(self@, pattern, src_i) matches Some(e) ==> memo_result_matches(r, e),
    {
        let n = self.entries.len();
        let mut i: usize = n;
        proof {
            assert(self@.subrange(0, n as int) =~= self@);
        }
        while i > 0
            invariant
                0 <= i <= n,
                n == self.entries@.len(),
                memo_lookup(self@, pattern, src_i) == memo_lookup(
                    self@.subrange(0, i as int),
                    pattern,
                    src_i,
                ),
            decreases i,
        {
            i = i - 1;
            proof {
                assert(self@.subrange(0, i as int + 1).last() == self@[i as int]);
                assert(self@.subrange(0, i as int + 1).subrange(0, i as int) =~= self@.subrange(
                    0,
                    i as int,
                ));
            }
            if self.entries[i].group_uuid == pattern && self.entries[i].src_i == src_i {
                let res: Option<Vec<SyntaxNodeChild>> = match &self.entries[i].result {
                    Some(v) => Some(clone_children(v)),
                    None => None,
                };
                return Some((self.entries[i].src_len, res));
            }
            proof {
                lemma_memo_lookup_step(self@, pattern, src_i, i as int);
            }
        }
        proof {
            assert(self@.subrange(0, 0).len() == 0);
        }
        None
    }
}

/// The number of newline characters in a text.
pub open spec fn newline_count(s: Seq<char>) -> int
    decreases s,
{
    if s.len() == 0 {
        0
    } else {
        (if s[0] == '\n' {
            1int
        } else {
            0int
        }) + newline_count(s.subrange(1, s.len() as int))
    }
}

pub proof fn lemma_newline_count_push(s: Seq<char>, c: char)
    ensures
        newline_count(s.push(c)) == newline_count(s) + (if c == '\n' {
            1int
        } else {
            0int
        }),
    decreases s,
{
    if s.len() == 0 {
        reveal_with_fuel(newline_count, 2);
        assert(s.push(c)[0] == c);
        assert(s.push(c).subrange(1, 1) =~= Seq::<char>::empty());
    } else {
        assert(s.push(c)[0] == s[0]);
        assert(s.push(c).subrange(1, s.len() as int + 1) =~= s.subrange(1, s.len() as int).push(c));
        lemma_newline_count_push(s.subrange(1, s.len() as int), c);
    }
}

pub proof fn lemma_newline_count_append(a: Seq<char>, b: Seq<char>)
    ensures
        newline_count(a + b) == newline_count(a) + newline_count(b),
    decreases a,
{
    if a.len() == 0 {
        assert(a + b =~= b);
    } else {
        assert((a + b)[0] == a[0]);
        assert((a + b).subrange(1, (a + b).len() as int) =~= a.subrange(1, a.len() as int) + b);
        lemma_newline_count_append(a.subrange(1, a.len() as int), b);
    }
}

/// The index of the last newline of a text, if any.
pub open spec fn last_newline_index(s: Seq<char>) -> Option<int>
    decreases s,
{
    if s.len() == 0 {
        Option::None
    } else if s.last() == '\n' {
        Option::Some(s.len() - 1)
    } else {
        last_newline_index(s.subrange(0, s.len() - 1))
    }
}

/// The last-line-start mark after consuming `s` with the cursor at `i`:
/// untouched without a newline; otherwise computed from the offsets of
/// the last newline and, if there is one, the newline before it.
pub open spec fn updated_latest_line_mark(s: Seq<char>, i: int, prev: int) -> int {
    match last_newline_index(s) {
        Option::None => prev,
        Option::Some(l1) => match last_newline_index(s.subrange(0, l1)) {
            Option::Some(l2) => i + (l1 - l2) + 1,
            Option::None => i + (s.len() - l1),
        },
    }
}

/// The input after pre-processing: every carriage return removed.
pub open spec fn strip_cr(s: Seq<char>) -> Seq<char>
    decreases s,
{
    if s.len() == 0 {
        Seq::empty()
    } else {
        (if s[0] == '\r' {
            Seq::empty()
        } else {
            seq![s[0]]
        }) + strip_cr(s.subrange(1, s.len() as int))
    }
}

pub proof fn lemma_strip_cr_push(s: Seq<char>, c: char)
    ensures
        strip_cr(s.push(c)) == strip_cr(s) + (if c == '\r' {
            Seq::<char>::empty()
        } else {
            seq![c]
        }),
    decreases s,
{
    if s.len() == 0 {
        reveal_with_fuel(strip_cr, 2);
        assert(s.push(c)[0] == c);
        assert(s.push(c).subrange(1, 1) =~= Seq::<char>::empty());
        assert(strip_cr(s.push(c)) =~= strip_cr(s) + (if c == '\r' {
            Seq::<char>::empty()
        } else {
            seq![c]
        }));
    } else {
        assert(s.push(c)[0] == s[0]);
        assert(s.push(c).subrange(1, s.len() as int + 1) =~= s.subrange(1, s.len() as int).push(c));
        lemma_strip_cr_push(s.subrange(1, s.len() as int), c);
        assert(strip_cr(s.push(c)) =~= strip_cr(s) + (if c == '\r' {
            Seq::<char>::empty()
        } else {
            seq![c]
        }));
    }
}

/// The concatenated text of produced elements.
pub open spec fn vec_text(s: Seq<SyntaxNodeChild>) -> Seq<char> {
    children_text(children_views(s))
}

/// The single-owner state of one parse call. The rule graph itself is
/// borrowed, not owned: it is read-only and passed to every step.
pub struct SyntaxParser {
    src_i: usize,
    src_line: usize,
    src_latest_line_i: usize,
    src_path: String,
    src_content: Vec<char>,
    loop_limit: usize,
    arg_maps: Vec<ArgumentMap>,
    rule_stack: Vec<(CharacterPosition, String)>,
    regex_map: Vec<CharClassMatcher>,
    memoized_map: MemoizationMap,
    enable_memoization: bool,
}

/// Whether one memo entry reports a genuine outcome: it fits in the
/// input, records an advance, holds a produced result, and (for a
/// `JOIN`-free grammar) its children spell exactly the consumed text.
pub open spec fn memo_entry_ok(
    e: MemoEntry,
    src: Seq<char>,
    rules: Seq<(Seq<char>, crate::rule::RuleView)>,
) -> bool {
    &&& e.src_i + e.src_len <= src.len()
    &&& e.src_len > 0
    &&& e.result is Some
    &&& (map_join_free(rules) ==> (e.result matches Option::Some(v) ==> vec_text(v@)
        == src.subrange(e.src_i as int, e.src_i as int + e.src_len as int)))
}

impl SyntaxParser {
    /// The pre-processed input.
    pub closed spec fn src(self) -> Seq<char> {
        self.src_content@
    }

    /// The cursor: how much of the input is consumed.
    pub closed spec fn cursor(self) -> int {
        self.src_i as int
    }

    /// The session configuration never changes during a parse.
    spec fn sess(self, o: Self) -> bool {
        &&& self.src_content == o.src_content
        &&& self.src_path == o.src_path
        &&& self.loop_limit == o.loop_limit
        &&& self.enable_memoization == o.enable_memoization
    }

    /// The position state is back to what it was: a failed attempt
    /// consumes nothing.
    spec fn pos_restored(self, o: Self) -> bool {
        &&& self.src_i == o.src_i
        &&& self.src_line == o.src_line
        &&& self.src_latest_line_i == o.src_latest_line_i
    }

    /// The argument stack and the rule stack are balanced.
    spec fn stacks_kept(self, o: Self) -> bool {
        &&& self.arg_maps@ == o.arg_maps@
        &&& self.rule_stack@ == o.rule_stack@
    }

    /// Even an aborting step leaves the stacks at their entry depth.
    spec fn frames_len_kept(self, o: Self) -> bool {
        &&& self.arg_maps@.len() == o.arg_maps@.len()
        &&& self.rule_stack@.len() == o.rule_stack@.len()
    }

    /// Well-formedness: the cursor stays inside the input, the line
    /// counter counts consumed newlines (exactly so when memoization is
    /// off, where no cache hop can skip the tracker), and every cached
    /// character-class pattern compiled.
    pub closed spec fn wf(self) -> bool {
        &&& self.src_i <= self.src_content@.len()
        &&& self.src_line <= self.src_i
        &&& self.loop_limit < usize::MAX
        &&& (!self.enable_memoization ==> self.src_line as int == newline_count(
            self.src_content@.subrange(0, self.src_i as int),
        ))
        &&& (forall|k: int|
            0 <= k < self.regex_map@.len() ==> regex_ok(
                (#[trigger] self.regex_map@[k]).pattern_chars(),
            ))
    }

    /// Every memo entry reports a genuine outcome.
    pub closed spec fn memo_ok(self, rules: Seq<(Seq<char>, crate::rule::RuleView)>) -> bool {
        forall|k: int|
            0 <= k < self.memoized_map@.len() ==> memo_entry_ok(
                #[trigger] self.memoized_map@[k],
                self.src_content@,
                rules,
            )
    }

    /// Every group bound on the argument stack is free of `JOIN`.
    pub closed spec fn arg_groups_join_free(self) -> bool {
        forall|i: int, j: int|
            #![trigger self.arg_maps@[i].generics()[j]]
            (0 <= i < self.arg_maps@.len() && 0 <= j < self.arg_maps@[i].generics().len())
                ==> group_join_free(group_view(self.arg_maps@[i].generics()[j].group))
    }

    /// The cursor as a source location: index and line from the
    /// trackers, the column from the distance to the last-line-start
    /// mark, falling back to the mark itself where the cursor sits
    /// before it.
    pub closed spec fn cursor_position(self) -> PositionView {
        PositionView {
            file_path: Option::Some(self.src_path@),
            index: self.src_i as int,
            line: self.src_line as int,
            column: if self.src_i >= self.src_latest_line_i {
                self.src_i - self.src_latest_line_i
            } else {
                self.src_latest_line_i as int
            },
        }
    }

    /// The tracker state.
    pub closed spec fn track(self) -> TrackView {
        TrackView {
            i: self.src_i as int,
            line: self.src_line as int,
            mark: self.src_latest_line_i as int,
        }
    }

    /// The position of the cursor, as a source location.
    fn get_char_position(&self) -> (r: CharacterPosition)
        ensures
            r@ == self.cursor_position(),
            r.index == self.src_i,
            r.line == self.src_line,
            r.column as int == (if self.src_i >= self.src_latest_line_i {
                self.src_i - self.src_latest_line_i
            } else {
                self.src_latest_line_i as int
            }),
            r.file_path matches Some(p) && p@ == self.src_path@,
    {
        let column = if self.src_i >= self.src_latest_line_i {
            self.src_i - self.src_latest_line_i
        } else {
            self.src_latest_line_i
        };
        CharacterPosition::new(Some(self.src_path.clone()), self.src_i, self.src_line, column)
    }

    /// A copy of `len` characters of input starting at `start_i`.
    fn substring_src_content(&self, start_i: usize, len: usize) -> (r: Vec<char>)
        requires
            start_i + len <= self.src_content@.len(),
        ensures
            r@ == self.src_content@.subrange(start_i as int, start_i as int + len as int),
    {
        let total = self.src_content.len();
        let mut out: Vec<char> = Vec::new();
        let mut k: usize = 0;
        proof {
            assert(self.src_content@.subrange(start_i as int, start_i as int) =~= Seq::<
                char,
            >::empty());
        }
        while k < len
            invariant
                0 <= k <= len,
                start_i + len <= self.src_content@.len(),
                total == self.src_content@.len(),
                out@ == self.src_content@.subrange(start_i as int, start_i as int + k as int),
            decreases len - k,
        {
            out.push(self.src_content[start_i + k]);
            proof {
                assert(self.src_content@.subrange(start_i as int, start_i as int + k as int + 1)
                    =~= self.src_content@.subrange(start_i as int, start_i as int + k as int).push(
                    self.src_content@[start_i as int + k as int],
                ));
            }
            k = k + 1;
        }
        out
    }

    /// Advances the cursor over `expr_str`, which is exactly the input at
    /// the cursor, and maintains the line tracker: the line counter grows
    /// by the newlines consumed, and the last-line-start mark is updated
    /// from the trailing newlines of the consumed text.
    fn add_source_index_by_string(&mut self, expr_str: &Vec<char>)
        requires
            old(self).wf(),
            old(self).src_i + expr_str@.len() <= old(self).src_content@.len(),
            expr_str@ == old(self).src_content@.subrange(
                old(self).src_i as int,
                old(self).src_i as int + expr_str@.len() as int,
            ),
        ensures
            final(self).wf(),
            final(self).src_i == old(self).src_i + expr_str@.len(),
            final(self).src_line as int == old(self).src_line as int + newline_count(expr_str@),
            final(self).src_latest_line_i as int == updated_latest_line_mark(
                expr_str@,
                old(self).src_i as int,
                old(self).src_latest_line_i as int,
            ),
            final(self).src_content == old(self).src_content,
            final(self).src_path == old(self).src_path,
            final(self).loop_limit == old(self).loop_limit,
            final(self).enable_memoization == old(self).enable_memoization,
            final(self).arg_maps == old(self).arg_maps,
            final(self).rule_stack == old(self).rule_stack,
            final(self).regex_map == old(self).regex_map,
            final(self).memoized_map == old(self).memoized_map,
    {
        let len = expr_str.len();
        let mut cnt: usize = 0;
        let mut last_nl: Option<usize> = None;
        let mut second_last_nl: Option<usize> = None;
        let mut j: usize = 0;
        proof {
            assert(expr_str@.subrange(0, 0) =~= Seq::<char>::empty());
        }
        while j < len
            invariant
                0 <= j <= len,
                len == expr_str@.len(),
                cnt as int == newline_count(expr_str@.subrange(0, j as int)),
                cnt <= j,
                last_nl is None ==> second_last_nl is None,
                last_nl is None ==> cnt == 0,
                last_nl matches Some(l1) ==> l1 < j,
                second_last_nl matches Some(l2) ==> (last_nl matches Some(l1) && l2 < l1),
                (match last_nl {
                    Some(l1) => last_newline_index(expr_str@.subrange(0, j as int))
                        == Option::Some(l1 as int),
                    None => last_newline_index(expr_str@.subrange(0, j as int)) is None,
                }),
                (match last_nl {
                    Some(l1) => match second_last_nl {
                        Some(l2) => last_newline_index(expr_str@.subrange(0, l1 as int))
                            == Option::Some(l2 as int),
                        None => last_newline_index(expr_str@.subrange(0, l1 as int)) is None,
                    },
                    None => true,
                }),
            decreases len - j,
        {
            let c = expr_str[j];
            proof {
                lemma_newline_count_push(expr_str@.subrange(0, j as int), expr_str@[j as int]);
                assert(expr_str@.subrange(0, j as int + 1) =~= expr_str@.subrange(0, j as int).push(
                    expr_str@[j as int],
                ));
                assert(expr_str@.subrange(0, j as int + 1).last() == expr_str@[j as int]);
                assert(expr_str@.subrange(0, j as int + 1).subrange(0, j as int) =~= expr_str@.subrange(
                    0,
                    j as int,
                ));
            }
            if c == '\n' {
                second_last_nl = last_nl;
                last_nl = Some(j);
                cnt = cnt + 1;
            }
            j = j + 1;
        }
        proof {
            assert(expr_str@.subrange(0, len as int) =~= expr_str@);
        }
        let total = self.src_content.len();
        proof {
            assert(old(self).src_line + cnt <= total);
        }
        match last_nl {
            Some(l1) => {
                self.src_line = self.src_line + cnt;
                self.src_latest_line_i = match second_last_nl {
                    Some(l2) => self.src_i + (l1 - l2) + 1,
                    None => self.src_i + (len - l1),
                };
            },
            None => {},
        }
        proof {
            lemma_newline_count_append(
                old(self).src_content@.subrange(0, old(self).src_i as int),
                expr_str@,
            );
            assert(old(self).src_content@.subrange(
                0,
                old(self).src_i as int + expr_str@.len() as int,
            ) =~= old(self).src_content@.subrange(0, old(self).src_i as int) + expr_str@);
        }
        self.src_i = self.src_i + len;
    }
}

/// Appends produced elements onto `children` in order, dropping empty
/// nodes, as the attachment rules ask. Dropped nodes hold no text, so the
/// gathered text grows by exactly the text of `src`.
fn append_filtered(children: &mut Vec<SyntaxNodeChild>, src: Vec<SyntaxNodeChild>)
    ensures
        vec_text(final(children)@) == vec_text(old(children)@) + vec_text(src@),
        children_views(final(children)@) == children_views(old(children)@) + drop_empty_nodes(
            children_views(src@),
        ),
{
    let ghost src0 = src@;
    let ghost mut p: int = 0;
    let mut rest = src;
    proof {
        assert(vec_text(children@) + vec_text(rest@) == vec_text(old(children)@) + vec_text(src0));
        assert(rest@ =~= src0.subrange(0, src0.len() as int));
        assert(src0.subrange(0, 0) =~= Seq::<SyntaxNodeChild>::empty());
        assert(children_views(children@) =~= children_views(old(children)@) + drop_empty_nodes(
            children_views(src0.subrange(0, 0)),
        ));
    }
    while rest.len() > 0
        invariant
            0 <= p <= src0.len(),
            rest@ == src0.subrange(p, src0.len() as int),
            vec_text(children@) + vec_text(rest@) == vec_text(old(children)@) + vec_text(src0),
            children_views(children@) == children_views(old(children)@) + drop_empty_nodes(
                children_views(src0.subrange(0, p)),
            ),
        decreases rest.len(),
    {
        let ghost pre = rest@;
        let e = rest.remove(0);
        proof {
            assert(rest@ =~= pre.subrange(1, pre.len() as int));
            assert(e == src0[p]);
            assert(rest@ =~= src0.subrange(p + 1, src0.len() as int));
            let cvs = children_views(pre);
            assert(cvs =~= seq![child_view(pre[0])] + children_views(
                pre.subrange(1, pre.len() as int),
            ));
            assert(cvs[0] == child_view(pre[0]));
            assert(cvs.subrange(1, cvs.len() as int) =~= children_views(
                pre.subrange(1, pre.len() as int),
            ));
            assert(children_text(cvs) == cvs[0].text() + children_text(
                cvs.subrange(1, cvs.len() as int),
            ));
            assert(vec_text(pre) == child_view(e).text() + vec_text(rest@));
            lemma_children_views_push(src0.subrange(0, p), src0[p]);
            lemma_drop_empty_nodes_push(
                children_views(src0.subrange(0, p)),
                child_view(src0[p]),
            );
            assert(src0.subrange(0, p + 1) =~= src0.subrange(0, p).push(src0[p]));
        }
        let drop_it = match &e {
            SyntaxNodeChild::Node(node) => node.subelems.len() == 0,
            _ => false,
        };
        if !drop_it {
            proof {
                lemma_children_views_push(children@, e);
                lemma_children_text_push(children_views(children@), child_view(e));
                match &e {
                    SyntaxNodeChild::Node(node) => {
                        lemma_children_views_len(node.subelems@);
                    },
                    _ => {},
                }
            }
            children.push(e);
        } else {
            proof {
                match e {
                    SyntaxNodeChild::Node(node) => {
                        assert(node.subelems@.len() == 0);
                        assert(children_views(node.subelems@) =~= Seq::<ChildView>::empty());
                        assert(child_view(e).text() =~= Seq::<char>::empty());
                    },
                    _ => {},
                }
                assert(vec_text(children@) + vec_text(rest@) == vec_text(old(children)@)
                    + vec_text(src0));
            }
        }
        proof {
            p = p + 1;
        }
    }
    proof {
        assert(rest@.len() == 0);
        assert(p == src0.len());
        assert(src0.subrange(0, p) =~= src0);
        assert(children_views(rest@) =~= Seq::<ChildView>::empty());
        assert(vec_text(rest@) =~= Seq::<char>::empty());
        assert(vec_text(children@) =~= vec_text(old(children)@) + vec_text(src0));
    }
}

/// Appends produced elements onto `children` in order, keeping every
/// element, as expansion splicing asks.
fn append_all(children: &mut Vec<SyntaxNodeChild>, src: Vec<SyntaxNodeChild>)
    ensures
        vec_text(final(children)@) == vec_text(old(children)@) + vec_text(src@),
        children_views(final(children)@) == children_views(old(children)@) + children_views(src@),
{
    let ghost src0 = src@;
    let ghost pre = children@;
    let mut other = src;
    children.append(&mut other);
    proof {
        assert(children@ =~= pre + src0);
        lemma_children_views_append(pre, src0);
        lemma_children_text_append(children_views(pre), children_views(src0));
    }
}

proof fn lemma_vec_text_singleton(e: SyntaxNodeChild)
    ensures
        vec_text(seq![e]) == child_view(e).text(),
{
    lemma_children_views_push(Seq::empty(), e);
    lemma_children_text_push(Seq::<ChildView>::empty(), child_view(e));
    assert(seq![e] =~= Seq::<SyntaxNodeChild>::empty().push(e));
    assert(children_views(Seq::<SyntaxNodeChild>::empty()) =~= Seq::<ChildView>::empty());
    assert(children_text(Seq::<ChildView>::empty()) =~= Seq::<char>::empty());
    assert(children_views(seq![e]) == Seq::<ChildView>::empty().push(child_view(e)));
}

/// The reflectable text of a run of produced elements, in order: what the
/// `JOIN` primitive flattens into one leaf.
fn join_elements(elems: &Vec<SyntaxNodeChild>) -> (r: String)
    ensures
        r@ == children_ast_text(children_views(elems@)),
{
    let mut s = String::new();
    let n = elems.len();
    let mut i: usize = 0;
    proof {
        assert(elems@.subrange(0, 0) =~= Seq::<SyntaxNodeChild>::empty());
    }
    while i < n
        invariant
            0 <= i <= n,
            n == elems@.len(),
            s@ == children_ast_text(children_views(elems@.subrange(0, i as int))),
        decreases n - i,
    {
        proof {
            lemma_children_views_push(elems@.subrange(0, i as int), elems@[i as int]);
            lemma_children_ast_text_push(
                children_views(elems@.subrange(0, i as int)),
                child_view(elems@[i as int]),
            );
            assert(elems@.subrange(0, i as int + 1) =~= elems@.subrange(0, i as int).push(
                elems@[i as int],
            ));
        }
        match &elems[i] {
            SyntaxNodeChild::Node(node) => {
                if node.ast_reflection_style.is_reflectable() {
                    let sub = node.join_child_leaf_values();
                    s.append(sub.as_str());
                }
            },
            SyntaxNodeChild::Leaf(leaf) => {
                if leaf.ast_reflection_style.is_reflectable() {
                    s.append(leaf.value.as_str());
                }
            },
        }
        i = i + 1;
    }
    proof {
        assert(elems@.subrange(0, n as int) =~= elems@);
    }
    s
}

/// What attaching a child group's match contributes to the parent: an
/// empty match nothing, an expansion its children in place, and any
/// other style a single node wrapping them.
pub open spec fn attached_views(v: Seq<ChildView>, style: StyleView) -> Seq<ChildView> {
    if v.len() == 0 {
        Seq::empty()
    } else if style.is_expandable() {
        v
    } else {
        seq![ChildView::Node(NodeView { style, children: v })]
    }
}

/// Applies the attachment rules for a matched child group: an empty
/// match attaches nothing, an expansion style splices the children in
/// place of the would-be node, and any other style wraps them in a fresh
/// node.
fn attach_group_result(
    children: &mut Vec<SyntaxNodeChild>,
    v: Vec<SyntaxNodeChild>,
    style: &ASTReflectionStyle,
)
    ensures
        vec_text(final(children)@) == vec_text(old(children)@) + vec_text(v@),
        children_views(final(children)@) == children_views(old(children)@) + attached_views(
            children_views(v@),
            style@,
        ),
{
    let ghost v0 = v@;
    proof {
        lemma_children_views_len(v0);
    }
    if v.len() == 0 {
        proof {
            assert(children_views(v0) =~= Seq::<ChildView>::empty());
            assert(vec_text(v0) =~= Seq::<char>::empty());
            assert(vec_text(children@) =~= vec_text(children@) + vec_text(v0));
            assert(children_views(children@) =~= children_views(children@) + attached_views(
                children_views(v0),
                style@,
            ));
        }
    } else if style.is_expandable() {
        append_all(children, v);
    } else {
        let node = SyntaxNodeChild::from_node_args(v, style.deep_clone());
        proof {
            assert(child_view(node).text() == vec_text(v0));
            lemma_children_views_push(children@, node);
            lemma_children_text_push(children_views(children@), child_view(node));
        }
        children.push(node);
        proof {
            assert(children_views(children@) =~= children_views(old(children)@) + attached_views(
                children_views(v0),
                style@,
            ));
        }
    }
}

/// Whether every flag is set.
fn all_true(v: &Vec<bool>) -> (r: bool)
    ensures
        r == (forall|i: int| 0 <= i < v@.len() ==> v@[i]),
{
    let n = v.len();
    let mut i: usize = 0;
    while i < n
        invariant
            0 <= i <= n,
            n == v@.len(),
            forall|j: int| 0 <= j < i ==> v@[j],
        decreases n - i,
    {
        if !v[i] {
            return false;
        }
        i = i + 1;
    }
    true
}

/// What a successful non-empty parse hands back: a root node named after
/// the start rule whose leaves, for a `JOIN`-free grammar, spell exactly
/// the pre-processed input.
pub open spec fn parse_output_ok(
    tree: ChildView,
    rules: Seq<(Seq<char>, crate::rule::RuleView)>,
    start_id: Seq<char>,
    input: Seq<char>,
) -> bool {
    tree matches ChildView::Node(nv) && nv.style == StyleView::Reflection(start_id) && (
    map_join_free(rules) ==> children_text(nv.children) == strip_cr(input))
}

impl SyntaxParser {
    /// Parses the whole input with the given grammar. Carriage returns
    /// are removed first. An empty input yields an empty tree. A parse
    /// that does not consume the whole input fails.
    pub fn parse(
        rule_map: &RuleMap,
        src_path: String,
        src_content: String,
        enable_memoization: bool,
    ) -> (r: Result<SyntaxTree, SyntaxParsingLog>)
        ensures
            strip_cr(src_content@).len() == 0 ==> (r matches Ok(tree) && tree@ == ChildView::Node(
                NodeView { style: StyleView::Reflection(Seq::empty()), children: Seq::empty() },
            )),
            r matches Ok(tree) ==> (strip_cr(src_content@).len() != 0 ==> parse_output_ok(
                tree@,
                rule_map@,
                rule_map.start_rule_id@,
                src_content@,
            )),
            strip_cr(src_content@).len() != 0 && lookup_rule(rule_map@, rule_map.start_rule_id@)
                is None ==> (r matches Err(e) && is_unknown_rule_id_log(
                e,
                rule_map.start_rule_id@,
                rule_map.start_rule_pos@,
            )),
            lookup_rule(rule_map@, rule_map.start_rule_id@) matches Option::Some(rv) ==> ((
            !enable_memoization && strip_cr(src_content@).len() != 0 && flat_choice_rule(rv)) ==> (
            match choice_consumes(
                strip_cr(src_content@),
                src_path@,
                (TrackView { i: 0, line: 0, mark: 0 }),
                choice_alts_of(rv.group.sub_elems),
                DEFAULT_LOOP_LIMIT as int,
            ) {
                RepeatOutcome::Matched(cs, t2) => if t2.i == strip_cr(src_content@).len() {
                    r matches Ok(tree) && tree@ == ChildView::Node(
                        NodeView {
                            style: StyleView::Reflection(rule_map.start_rule_id@),
                            children: cs,
                        },
                    )
                } else {
                    r matches Err(e) && e is NoSucceededRule
                },
                RepeatOutcome::NoMatch => (r matches Err(e) && e is NoSucceededRule),
                RepeatOutcome::Overrun => (r matches Err(e)
                    && e matches SyntaxParsingLog::TooLongRepetition { loop_limit } && loop_limit
                    == DEFAULT_LOOP_LIMIT),
            })),
            lookup_rule(rule_map@, rule_map.start_rule_id@) matches Option::Some(rv) ==> ((
            !enable_memoization && strip_cr(src_content@).len() != 0 && flat_once_rule(rv)) ==> (
            match seq_consumes(
                strip_cr(src_content@),
                src_path@,
                (TrackView { i: 0, line: 0, mark: 0 }),
                rv.group.sub_elems,
                DEFAULT_LOOP_LIMIT as int,
            ) {
                RepeatOutcome::Matched(cs, t2) => if t2.i == strip_cr(src_content@).len() {
                    r matches Ok(tree) && tree@ == ChildView::Node(
                        NodeView {
                            style: StyleView::Reflection(rule_map.start_rule_id@),
                            children: cs,
                        },
                    )
                } else {
                    r matches Err(e) && e is NoSucceededRule
                },
                RepeatOutcome::NoMatch => (r matches Err(e) && e is NoSucceededRule),
                RepeatOutcome::Overrun => (r matches Err(e)
                    && e matches SyntaxParsingLog::TooLongRepetition { loop_limit } && loop_limit
                    == DEFAULT_LOOP_LIMIT),
            })),
    {
        let raw = string_to_chars(&src_content);
        let mut content: Vec<char> = Vec::new();
        let n = raw.len();
        let mut i: usize = 0;
        proof {
            assert(raw@.subrange(0, 0) =~= Seq::<char>::empty());
        }
        while i < n
            invariant
                0 <= i <= n,
                n == raw@.len(),
                content@ == strip_cr(raw@.subrange(0, i as int)),
            decreases n - i,
        {
            let c = raw[i];
            proof {
                lemma_strip_cr_push(raw@.subrange(0, i as int), raw@[i as int]);
                assert(raw@.subrange(0, i as int + 1) =~= raw@.subrange(0, i as int).push(
                    raw@[i as int],
                ));
            }
            if c != '\r' {
                content.push(c);
            }
            i = i + 1;
        }
        proof {
            assert(raw@.subrange(0, n as int) =~= raw@);
        }
        if content.len() == 0 {
            let tree = SyntaxTree::from_node_args(
                Vec::new(),
                ASTReflectionStyle::Reflection(String::new()),
            );
            proof {
                assert(children_views(Seq::<SyntaxNodeChild>::empty()) =~= Seq::<
                    ChildView,
                >::empty());
            }
            return Ok(tree);
        }
        let mut parser = SyntaxParser {
            src_i: 0,
            src_line: 0,
            src_latest_line_i: 0,
            src_path,
            src_content: content,
            loop_limit: DEFAULT_LOOP_LIMIT,
            arg_maps: Vec::new(),
            rule_stack: Vec::new(),
            regex_map: Vec::new(),
            memoized_map: MemoizationMap::new(),
            enable_memoization,
        };
        proof {
            assert(parser.src_content@.subrange(0, 0) =~= Seq::<char>::empty());
            assert(parser.wf());
            assert(parser.memo_ok(rule_map@));
        }
        let result = parser.parse_rule(
            rule_map,
            &rule_map.start_rule_id,
            &rule_map.start_rule_pos,
            MAX_NESTING_DEPTH,
        );
        match result {
            Err(e) => Err(e),
            Ok(None) => {
                let pos = parser.get_char_position();
                Err(
                    SyntaxParsingLog::NoSucceededRule {
                        pos,
                        rule_id: rule_map.start_rule_id.clone(),
                        rule_stack: parser.rule_stack,
                    },
                )
            },
            Ok(Some(mut root_node)) => {
                root_node.set_ast_reflection_style(
                    ASTReflectionStyle::Reflection(rule_map.start_rule_id.clone()),
                );
                if parser.src_i < parser.src_content.len() {
                    let pos = parser.get_char_position();
                    return Err(
                        SyntaxParsingLog::NoSucceededRule {
                            pos,
                            rule_id: rule_map.start_rule_id.clone(),
                            rule_stack: parser.rule_stack,
                        },
                    );
                }
                proof {
                    assert(parser.src_content@.subrange(0, parser.src_i as int)
                        =~= parser.src_content@);
                }
                Ok(SyntaxTree::from_node(root_node))
            },
        }
    }

    /// Matches the named rule at the cursor and wraps the produced
    /// children into a node carrying the rule's effective reflection
    /// style; an unknown rule id is a hard error.
    fn parse_rule(
        &mut self,
        rules: &RuleMap,
        rule_id: &String,
        pos: &CharacterPosition,
        depth: u64,
    ) -> (r: Result<Option<SyntaxNodeChild>, SyntaxParsingLog>)
        requires
            old(self).wf(),
            old(self).memo_ok(rules@),
            map_join_free(rules@) ==> old(self).arg_groups_join_free(),
        ensures
            final(self).wf(),
            final(self).memo_ok(rules@),
            final(self).sess(*old(self)),
            final(self).frames_len_kept(*old(self)),
            map_join_free(rules@) ==> final(self).arg_groups_join_free(),
            r is Ok ==> final(self).stacks_kept(*old(self)),
            r matches Ok(Some(elem)) ==> elem@ is Node && old(self).src_i <= final(self).src_i
                && final(self).src_i <= final(self).src_content@.len(),
            r matches Ok(Some(elem)) ==> (map_join_free(rules@) ==> elem@.text() == old(
                self,
            ).src_content@.subrange(old(self).src_i as int, final(self).src_i as int)),
            r matches Ok(Some(elem)) ==> (lookup_rule(rules@, rule_id@) matches Option::Some(rv)
                && elem@ matches ChildView::Node(nv) && nv.style == effective_rule_style(
                rv,
                rule_id@,
            )),
            r matches Ok(None) ==> final(self).pos_restored(*old(self)),
            lookup_rule(rules@, rule_id@) is None ==> (r matches Err(e) && is_unknown_rule_id_log(
                e,
                rule_id@,
                pos@,
            )),
            lookup_rule(rules@, rule_id@) matches Option::Some(rv) ==> ((depth >= 15 && !old(
                self,
            ).enable_memoization && old(self).src_i < old(self).src_content@.len()
                && flat_choice_rule(rv)) ==> (match choice_consumes(
                old(self).src_content@,
                old(self).src_path@,
                old(self).track(),
                choice_alts_of(rv.group.sub_elems),
                old(self).loop_limit as int,
            ) {
                RepeatOutcome::Matched(cs, t2) => r matches Ok(Some(elem)) && elem@
                    == ChildView::Node(
                    NodeView { style: effective_rule_style(rv, rule_id@), children: cs },
                ) && final(self).track() == t2,
                RepeatOutcome::NoMatch => r matches Ok(None),
                RepeatOutcome::Overrun => (r matches Err(e)
                    && e matches SyntaxParsingLog::TooLongRepetition { loop_limit } && loop_limit
                    == old(self).loop_limit),
            })),
            lookup_rule(rules@, rule_id@) matches Option::Some(rv) ==> ((depth >= 10 && !old(
                self,
            ).enable_memoization && old(self).src_i < old(self).src_content@.len()
                && flat_once_rule(rv)) ==> (match seq_consumes(
                old(self).src_content@,
                old(self).src_path@,
                old(self).track(),
                rv.group.sub_elems,
                old(self).loop_limit as int,
            ) {
                RepeatOutcome::Matched(cs, t2) => r matches Ok(Some(elem)) && elem@
                    == ChildView::Node(
                    NodeView { style: effective_rule_style(rv, rule_id@), children: cs },
                ) && final(self).track() == t2,
                RepeatOutcome::NoMatch => r matches Ok(None),
                RepeatOutcome::Overrun => (r matches Err(e)
                    && e matches SyntaxParsingLog::TooLongRepetition { loop_limit } && loop_limit
                    == old(self).loop_limit),
            })),
        decreases depth,
    {
        if depth == 0 {
            if rules.get_rule(rule_id).is_none() {
                return Err(
                    SyntaxParsingLog::UnknownRuleID {
                        pos: pos.deep_clone(),
                        rule_id: rule_id.clone(),
                    },
                );
            }
            return Err(
                SyntaxParsingLog::TooDeepNesting { depth_limit: MAX_NESTING_DEPTH as usize },
            );
        }
        let rule = match rules.get_rule(rule_id) {
            Some(rule) => rule,
            None => {
                return Err(
                    SyntaxParsingLog::UnknownRuleID {
                        pos: pos.deep_clone(),
                        rule_id: rule_id.clone(),
                    },
                );
            },
        };
        let rule_group = &rule.group;
        proof {
            if map_join_free(rules@) {
                lemma_lookup_rule_join_free(rules@, rule_id@);
            }
        }
        let frame = (self.get_char_position(), rule_id.clone());
        self.rule_stack.push(frame);
        let seq_order = RuleElementOrder::Sequential;
        let result = self.parse_group(rules, &seq_order, rule_group, None, depth - 1);
        match result {
            Err(e) => {
                self.rule_stack.pop();
                Err(e)
            },
            Ok(None) => {
                self.rule_stack.pop();
                proof {
                    assert(self.rule_stack@ =~= old(self).rule_stack@);
                }
                Ok(None)
            },
            Ok(Some(v)) => {
                let style0 = if rule_group.sub_elems.len() > 0 {
                    match &rule_group.sub_elems[0] {
                        RuleElement::Group(sub_choice) => sub_choice.ast_reflection_style.deep_clone(),
                        RuleElement::Expression(_) => rule_group.ast_reflection_style.deep_clone(),
                    }
                } else {
                    rule_group.ast_reflection_style.deep_clone()
                };
                let style = match style0 {
                    ASTReflectionStyle::Reflection(elem_name) => {
                        if elem_name.as_str().is_empty() {
                            ASTReflectionStyle::Reflection(rule_id.clone())
                        } else {
                            ASTReflectionStyle::Reflection(elem_name)
                        }
                    },
                    other => other,
                };
                proof {
                    lemma_elem_views_len(rule_group.sub_elems@);
                    assert(style@ == effective_rule_style(rule_view(*rule), rule_id@));
                }
                self.rule_stack.pop();
                proof {
                    assert(self.rule_stack@ =~= old(self).rule_stack@);
                }
                let node = SyntaxNodeChild::from_node_args(v, style);
                Ok(Some(node))
            },
        }
    }

    /// Matches a group at the cursor, consulting and filling the memo
    /// cache where it is sound to do so.
    fn parse_group(
        &mut self,
        rules: &RuleMap,
        parent_elem_order: &RuleElementOrder,
        group: &RuleGroup,
        loop_override: Option<&LoopRange>,
        depth: u64,
    ) -> (r: Result<Option<Vec<SyntaxNodeChild>>, SyntaxParsingLog>)
        requires
            old(self).wf(),
            old(self).memo_ok(rules@),
            map_join_free(rules@) ==> group_join_free(group_view(*group)),
            map_join_free(rules@) ==> old(self).arg_groups_join_free(),
        ensures
            final(self).wf(),
            final(self).memo_ok(rules@),
            final(self).sess(*old(self)),
            final(self).frames_len_kept(*old(self)),
            map_join_free(rules@) ==> final(self).arg_groups_join_free(),
            r is Ok ==> final(self).stacks_kept(*old(self)),
            r matches Ok(Some(v)) ==> old(self).src_i <= final(self).src_i && final(self).src_i
                <= final(self).src_content@.len(),
            r matches Ok(Some(v)) ==> (map_join_free(rules@) ==> vec_text(v@) == old(
                self,
            ).src_content@.subrange(old(self).src_i as int, final(self).src_i as int)),
            r matches Ok(None) ==> final(self).pos_restored(*old(self)),
            memo_lookup(old(self).memoized_map@, group.uuid, old(self).src_i) matches Option::Some(
                entry,
            ) ==> ((depth >= 1 && old(self).enable_memoization && old(self).arg_maps@.len() == 0
                && loop_override is None) ==> (final(self).src_i == old(self).src_i + entry.src_len
                && final(self).memoized_map@ == old(self).memoized_map@ && (r matches Ok(Some(v))
                && entry.result matches Option::Some(w) && children_views(v@) == children_views(
                w@,
            )))),
            r matches Ok(Some(v)) ==> ((depth >= 1 && old(self).enable_memoization
                && old(self).arg_maps@.len() == 0 && loop_override is None && memo_lookup(
                old(self).memoized_map@,
                group.uuid,
                old(self).src_i,
            ) is None && final(self).src_i != old(self).src_i) ==> memo_recorded(
                final(self).memoized_map@,
                group.uuid,
                old(self).src_i,
                final(self).src_i - old(self).src_i,
                v@,
            )),
            depth >= 9 && !old(self).enable_memoization && group.lookahead_kind is NoLookahead
                && loop_override is None && parent_elem_order is Sequential && old(
                self,
            ).src_i < old(self).src_content@.len() && flat_primitives(
                group_view(*group).sub_elems,
            ) && group_view(*group).sub_elems.len() > 0 && group.loop_range == (LoopRange {
                min: 1,
                max: Option::Some(1usize),
            }) ==> (match seq_consumes(
                old(self).src_content@,
                old(self).src_path@,
                old(self).track(),
                group_view(*group).sub_elems,
                old(self).loop_limit as int,
            ) {
                RepeatOutcome::Matched(cs, t2) => r matches Ok(Some(v)) && children_views(v@)
                    == cs && final(self).track() == t2,
                RepeatOutcome::NoMatch => r matches Ok(None),
                RepeatOutcome::Overrun => (r matches Err(e)
                    && e matches SyntaxParsingLog::TooLongRepetition { loop_limit } && loop_limit
                    == old(self).loop_limit),
            }),
            depth >= 14 && !old(self).enable_memoization && group.lookahead_kind is NoLookahead
                && loop_override is None && parent_elem_order is Sequential && old(
                self,
            ).src_i < old(self).src_content@.len() && single_flat_choice(group_view(*group))
                && group.loop_range == (LoopRange { min: 1, max: Option::Some(1usize) }) ==> (
            match choice_consumes(
                old(self).src_content@,
                old(self).src_path@,
                old(self).track(),
                choice_alts_of(group_view(*group).sub_elems),
                old(self).loop_limit as int,
            ) {
                RepeatOutcome::Matched(cs, t2) => r matches Ok(Some(v)) && children_views(v@)
                    == cs && final(self).track() == t2,
                RepeatOutcome::NoMatch => r matches Ok(None),
                RepeatOutcome::Overrun => (r matches Err(e)
                    && e matches SyntaxParsingLog::TooLongRepetition { loop_limit } && loop_limit
                    == old(self).loop_limit),
            }),
        decreases depth,
    {
        if depth == 0 {
            return Err(
                SyntaxParsingLog::TooDeepNesting { depth_limit: MAX_NESTING_DEPTH as usize },
            );
        }
        let use_memo = self.enable_memoization && self.arg_maps.len() == 0
            && loop_override.is_none();
        if use_memo {
            let total = self.src_content.len();
            let found = self.memoized_map.find(group.uuid, self.src_i);
            match found {
                Some((src_len, result)) => {
                    proof {
                        lemma_memo_lookup_found(self.memoized_map@, group.uuid, self.src_i);
                        match memo_lookup(self.memoized_map@, group.uuid, self.src_i) {
                            Option::Some(e) => {
                                let j = choose|j: int|
                                    0 <= j < self.memoized_map@.len() && self.memoized_map@[j]
                                        == e;
                                assert(memo_entry_ok(
                                    self.memoized_map@[j],
                                    self.src_content@,
                                    rules@,
                                ));
                            },
                            Option::None => {
                                assert(false);
                            },
                        }
                    }
                    let new_i = self.src_i + src_len;
                    self.src_i = new_i;
                    match result {
                        Some(v) => {
                            return Ok(Some(v));
                        },
                        None => {
                            proof {
                                assert(false);
                            }
                            return Ok(None);
                        },
                    }
                },
                None => {},
            }
        }
        let tmp_i = self.src_i;
        let result = self.parse_lookahead_group(
            rules,
            parent_elem_order,
            group,
            loop_override,
            depth - 1,
        )?;
        if use_memo && self.src_i != tmp_i {
            let cloned: Option<Vec<SyntaxNodeChild>> = match &result {
                Some(v) => Some(clone_children(v)),
                None => None,
            };
            let ghost pre_push = *self;
            self.memoized_map.push(group.uuid, tmp_i, self.src_i - tmp_i, cloned);
            proof {
                assert forall|k: int| 0 <= k < self.memoized_map@.len() implies memo_entry_ok(
                    #[trigger] self.memoized_map@[k],
                    self.src_content@,
                    rules@,
                ) by {
                    if k < pre_push.memoized_map@.len() {
                        assert(self.memoized_map@[k] == pre_push.memoized_map@[k]);
                    } else {
                        assert(self.memoized_map@[k] == self.memoized_map@.last());
                    }
                }
            }
        }
        Ok(result)
    }

    /// The lookahead wrapper: for a marked group the inner match is run
    /// and the cursor put back whatever happened; a positive mark
    /// succeeds exactly when the inner match did, a negative one exactly
    /// when it did not, and no children are kept.
    fn parse_lookahead_group(
        &mut self,
        rules: &RuleMap,
        parent_elem_order: &RuleElementOrder,
        group: &RuleGroup,
        loop_override: Option<&LoopRange>,
        depth: u64,
    ) -> (r: Result<Option<Vec<SyntaxNodeChild>>, SyntaxParsingLog>)
        requires
            old(self).wf(),
            old(self).memo_ok(rules@),
            map_join_free(rules@) ==> group_join_free(group_view(*group)),
            map_join_free(rules@) ==> old(self).arg_groups_join_free(),
        ensures
            final(self).wf(),
            final(self).memo_ok(rules@),
            final(self).sess(*old(self)),
            final(self).frames_len_kept(*old(self)),
            map_join_free(rules@) ==> final(self).arg_groups_join_free(),
            r is Ok ==> final(self).stacks_kept(*old(self)),
            r matches Ok(Some(v)) ==> old(self).src_i <= final(self).src_i && final(self).src_i
                <= final(self).src_content@.len(),
            r matches Ok(Some(v)) ==> (map_join_free(rules@) ==> vec_text(v@) == old(
                self,
            ).src_content@.subrange(old(self).src_i as int, final(self).src_i as int)),
            r matches Ok(None) ==> final(self).pos_restored(*old(self)),
            r is Ok && !(group.lookahead_kind is NoLookahead) ==> final(self).pos_restored(
                *old(self),
            ),
            r matches Ok(Some(v)) ==> (group.lookahead_kind is NoLookahead || v@.len() == 0),
            depth >= 8 && group.lookahead_kind is NoLookahead && loop_override is None
                && parent_elem_order is Sequential && old(self).src_i < old(
                self,
            ).src_content@.len() && flat_primitives(group_view(*group).sub_elems) && group_view(
                *group,
            ).sub_elems.len() > 0 && group.loop_range == (LoopRange {
                min: 1,
                max: Option::Some(1usize),
            }) ==> (match seq_consumes(
                old(self).src_content@,
                old(self).src_path@,
                old(self).track(),
                group_view(*group).sub_elems,
                old(self).loop_limit as int,
            ) {
                RepeatOutcome::Matched(cs, t2) => r matches Ok(Some(v)) && children_views(v@)
                    == cs && final(self).track() == t2,
                RepeatOutcome::NoMatch => r matches Ok(None),
                RepeatOutcome::Overrun => (r matches Err(e)
                    && e matches SyntaxParsingLog::TooLongRepetition { loop_limit } && loop_limit
                    == old(self).loop_limit),
            }),
            depth >= 13 && !old(self).enable_memoization && group.lookahead_kind is NoLookahead
                && loop_override is None && parent_elem_order is Sequential && old(
                self,
            ).src_i < old(self).src_content@.len() && single_flat_choice(group_view(*group))
                && group.loop_range == (LoopRange { min: 1, max: Option::Some(1usize) }) ==> (
            match choice_consumes(
                old(self).src_content@,
                old(self).src_path@,
                old(self).track(),
                choice_alts_of(group_view(*group).sub_elems),
                old(self).loop_limit as int,
            ) {
                RepeatOutcome::Matched(cs, t2) => r matches Ok(Some(v)) && children_views(v@)
                    == cs && final(self).track() == t2,
                RepeatOutcome::NoMatch => r matches Ok(None),
                RepeatOutcome::Overrun => (r matches Err(e)
                    && e matches SyntaxParsingLog::TooLongRepetition { loop_limit } && loop_limit
                    == old(self).loop_limit),
            }),
        decreases depth,
    {
        if depth == 0 {
            return Err(
                SyntaxParsingLog::TooDeepNesting { depth_limit: MAX_NESTING_DEPTH as usize },
            );
        }
        match group.lookahead_kind {
            RuleElementLookaheadKind::NoLookahead => {
                let (result, _count) = self.parse_loop_group(
                    rules,
                    parent_elem_order,
                    group,
                    loop_override,
                    depth - 1,
                );
                result
            },
            _ => {
                let start_src_i = self.src_i;
                let start_line = self.src_line;
                let start_latest = self.src_latest_line_i;
                let is_positive = matches!(
                    group.lookahead_kind,
                    RuleElementLookaheadKind::Positive
                );
                let (inner, _count) = self.parse_loop_group(
                    rules,
                    parent_elem_order,
                    group,
                    loop_override,
                    depth - 1,
                );
                let result = match inner {
                    Ok(v) => v,
                    Err(e) => {
                        return Err(e);
                    },
                };
                self.src_i = start_src_i;
                self.src_line = start_line;
                self.src_latest_line_i = start_latest;
                let matched = result.is_some();
                if matched == is_positive {
                    proof {
                        assert(children_views(Seq::<SyntaxNodeChild>::empty()) =~= Seq::<
                            ChildView,
                        >::empty());
                        assert(vec_text(Seq::<SyntaxNodeChild>::empty()) =~= Seq::<char>::empty());
                        assert(old(self).src_content@.subrange(
                            old(self).src_i as int,
                            old(self).src_i as int,
                        ) =~= Seq::<char>::empty());
                    }
                    Ok(Some(Vec::new()))
                } else {
                    Ok(None)
                }
            },
        }
    }

    /// The repetition wrapper: the element-order matcher is run again and
    /// again within the loop range, gathering children; an invalid range
    /// or a repetition beyond the limit is a hard error. The ghost part
    /// of the result reports the number of completed iterations, which
    /// the loop limit bounds.
    #[verifier::loop_isolation(false)]
    fn parse_loop_group(
        &mut self,
        rules: &RuleMap,
        parent_elem_order: &RuleElementOrder,
        group: &RuleGroup,
        loop_override: Option<&LoopRange>,
        depth: u64,
    ) -> (r: (Result<Option<Vec<SyntaxNodeChild>>, SyntaxParsingLog>, Ghost<int>))
        requires
            old(self).wf(),
            old(self).memo_ok(rules@),
            map_join_free(rules@) ==> group_join_free(group_view(*group)),
            map_join_free(rules@) ==> old(self).arg_groups_join_free(),
        ensures
            final(self).wf(),
            final(self).memo_ok(rules@),
            final(self).sess(*old(self)),
            final(self).frames_len_kept(*old(self)),
            map_join_free(rules@) ==> final(self).arg_groups_join_free(),
            r.0 is Ok ==> final(self).stacks_kept(*old(self)),
            r.0 matches Ok(Some(v)) ==> old(self).src_i <= final(self).src_i && final(self).src_i
                <= final(self).src_content@.len(),
            r.0 matches Ok(Some(v)) ==> (map_join_free(rules@) ==> vec_text(v@) == old(
                self,
            ).src_content@.subrange(old(self).src_i as int, final(self).src_i as int)),
            r.0 matches Ok(None) ==> final(self).pos_restored(*old(self)),
            r.1@ <= old(self).loop_limit as int + 1,
            r.0 matches Ok(Some(v)) ==> (match loop_override {
                Some(l) => l.min as int,
                None => group.loop_range.min as int,
            }) <= r.1@,
            depth >= 1 && !effective_loop_range(loop_override, group.loop_range).is_valid() ==> (
            r.0 matches Err(e) && is_invalid_loop_range_log(
                e,
                effective_loop_range(loop_override, group.loop_range),
            )),
            depth >= 7 && loop_override is None && parent_elem_order is Sequential
                && old(self).src_i < old(self).src_content@.len() && flat_primitives(
                group_view(*group).sub_elems,
            ) && group_view(*group).sub_elems.len() > 0 && group.loop_range == (LoopRange {
                min: 1,
                max: Option::Some(1usize),
            }) ==> (match seq_consumes(
                old(self).src_content@,
                old(self).src_path@,
                old(self).track(),
                group_view(*group).sub_elems,
                old(self).loop_limit as int,
            ) {
                RepeatOutcome::Matched(cs, t2) => r.0 matches Ok(Some(v)) && children_views(v@)
                    == cs && final(self).track() == t2,
                RepeatOutcome::NoMatch => r.0 matches Ok(None),
                RepeatOutcome::Overrun => (r.0 matches Err(e)
                    && e matches SyntaxParsingLog::TooLongRepetition { loop_limit } && loop_limit
                    == old(self).loop_limit),
            }),
            r.0 matches Ok(Some(v)) ==> no_empty_nodes(children_views(v@)),
            depth >= 12 && !old(self).enable_memoization && loop_override is None
                && parent_elem_order is Sequential && old(self).src_i < old(
                self,
            ).src_content@.len() && single_flat_choice(group_view(*group)) && group.loop_range == (
            LoopRange { min: 1, max: Option::Some(1usize) }) ==> (match choice_consumes(
                old(self).src_content@,
                old(self).src_path@,
                old(self).track(),
                choice_alts_of(group_view(*group).sub_elems),
                old(self).loop_limit as int,
            ) {
                RepeatOutcome::Matched(cs, t2) => r.0 matches Ok(Some(v)) && children_views(v@)
                    == cs && final(self).track() == t2,
                RepeatOutcome::NoMatch => r.0 matches Ok(None),
                RepeatOutcome::Overrun => (r.0 matches Err(e)
                    && e matches SyntaxParsingLog::TooLongRepetition { loop_limit } && loop_limit
                    == old(self).loop_limit),
            }),
        decreases depth,
    {
        if depth == 0 {
            return (
                Err(SyntaxParsingLog::TooDeepNesting { depth_limit: MAX_NESTING_DEPTH as usize }),
                Ghost(0int),
            );
        }
        let lr: LoopRange = match loop_override {
            Some(l) => *l,
            None => group.loop_range,
        };
        let min_count = lr.min;
        if let Some(m) = lr.max {
            if min_count > m {
                return (
                    Err(SyntaxParsingLog::InvalidLoopRange { min: min_count, max: m }),
                    Ghost(0int),
                );
            }
        }
        let entry_i = self.src_i;
        let entry_line = self.src_line;
        let entry_latest = self.src_latest_line_i;
        let mut children: Vec<SyntaxNodeChild> = Vec::new();
        let mut loop_count: usize = 0;
        proof {
            assert(children_views(Seq::<SyntaxNodeChild>::empty()) =~= Seq::<ChildView>::empty());
            assert(vec_text(children@) =~= Seq::<char>::empty());
            assert(self.src_content@.subrange(entry_i as int, entry_i as int) =~= Seq::<
                char,
            >::empty());
        }
        while self.src_i < self.src_content.len()
            invariant
                self.wf(),
                self.memo_ok(rules@),
                self.sess(*old(self)),
                self.stacks_kept(*old(self)),
                map_join_free(rules@) ==> self.arg_groups_join_free(),
                entry_i <= self.src_i <= self.src_content@.len(),
                map_join_free(rules@) ==> vec_text(children@) == self.src_content@.subrange(
                    entry_i as int,
                    self.src_i as int,
                ),
                loop_count as int <= self.loop_limit as int + 1,
                (loop_override is None && group.loop_range == (LoopRange {
                    min: 1,
                    max: Option::Some(1usize),
                })) ==> loop_count == 0,
                loop_count == 0 ==> self.src_i == entry_i && self.src_line == entry_line
                    && self.src_latest_line_i == entry_latest && children@.len() == 0,
                no_empty_nodes(children_views(children@)),
            decreases self.loop_limit as int + 2 - loop_count as int,
        {
            if loop_count > self.loop_limit {
                return (
                    Err(SyntaxParsingLog::TooLongRepetition { loop_limit: self.loop_limit }),
                    Ghost(loop_count as int),
                );
            }
            let ghost pre_iter = *self;
            let step = match self.parse_element_order_group(
                rules,
                parent_elem_order,
                group,
                depth - 1,
            ) {
                Ok(step) => step,
                Err(e) => {
                    proof {
                        if depth >= 7 && loop_override is None && parent_elem_order is Sequential
                            && old(self).src_i < old(self).src_content@.len() && flat_primitives(
                            group_view(*group).sub_elems,
                        ) && group_view(*group).sub_elems.len() > 0 && group.loop_range == (
                        LoopRange { min: 1, max: Option::Some(1usize) }) {
                            assert(seq_consumes(
                                old(self).src_content@,
                                old(self).src_path@,
                                pre_iter.track(),
                                group_view(*group).sub_elems,
                                old(self).loop_limit as int,
                            ) is Overrun);
                        }
                        if depth >= 12 && !old(self).enable_memoization && loop_override is None
                            && parent_elem_order is Sequential && old(self).src_i < old(
                            self,
                        ).src_content@.len() && single_flat_choice(group_view(*group))
                            && group.loop_range == (LoopRange {
                            min: 1,
                            max: Option::Some(1usize),
                        }) {
                            assert(choice_consumes(
                                old(self).src_content@,
                                old(self).src_path@,
                                pre_iter.track(),
                                choice_alts_of(group_view(*group).sub_elems),
                                old(self).loop_limit as int,
                            ) is Overrun);
                        }
                    }
                    return (Err(e), Ghost(loop_count as int));
                },
            };
            match step {
                Some(node_elems) => {
                    let ghost step_views = children_views(node_elems@);
                    proof {
                        if map_join_free(rules@) {
                            assert(self.src_content@.subrange(entry_i as int, pre_iter.src_i as int)
                                + self.src_content@.subrange(
                                pre_iter.src_i as int,
                                self.src_i as int,
                            ) =~= self.src_content@.subrange(entry_i as int, self.src_i as int));
                        }
                        if depth >= 7 && loop_override is None && parent_elem_order is Sequential
                            && flat_primitives(group_view(*group).sub_elems) && group_view(
                            *group,
                        ).sub_elems.len() > 0 && group.loop_range == (LoopRange {
                            min: 1,
                            max: Option::Some(1usize),
                        }) {
                            match seq_consumes(
                                old(self).src_content@,
                                old(self).src_path@,
                                pre_iter.track(),
                                group_view(*group).sub_elems,
                                old(self).loop_limit as int,
                            ) {
                                RepeatOutcome::Matched(cs, t2) => {
                                    lemma_seq_consumes_leaves(
                                        old(self).src_content@,
                                        old(self).src_path@,
                                        pre_iter.track(),
                                        group_view(*group).sub_elems,
                                        old(self).loop_limit as int,
                                    );
                                    lemma_drop_empty_nodes_leaves(step_views);
                                    assert(children_views(children@) =~= Seq::<
                                        ChildView,
                                    >::empty());
                                },
                                RepeatOutcome::NoMatch => {
                                    assert(false);
                                },
                                RepeatOutcome::Overrun => {
                                    assert(false);
                                },
                            }
                        }
                        if depth >= 12 && !old(self).enable_memoization && loop_override is None
                            && parent_elem_order is Sequential && old(self).src_i < old(
                            self,
                        ).src_content@.len() && single_flat_choice(group_view(*group))
                            && group.loop_range == (LoopRange {
                            min: 1,
                            max: Option::Some(1usize),
                        }) {
                            match choice_consumes(
                                old(self).src_content@,
                                old(self).src_path@,
                                pre_iter.track(),
                                choice_alts_of(group_view(*group).sub_elems),
                                old(self).loop_limit as int,
                            ) {
                                RepeatOutcome::Matched(cs, t2) => {
                                    lemma_choice_consumes_leaves(
                                        old(self).src_content@,
                                        old(self).src_path@,
                                        pre_iter.track(),
                                        choice_alts_of(group_view(*group).sub_elems),
                                        old(self).loop_limit as int,
                                    );
                                    lemma_drop_empty_nodes_leaves(step_views);
                                    assert(children_views(children@) =~= Seq::<
                                        ChildView,
                                    >::empty());
                                },
                                RepeatOutcome::NoMatch => {
                                    assert(false);
                                },
                                RepeatOutcome::Overrun => {
                                    assert(false);
                                },
                            }
                        }
                    }
                    let ghost views_before = children_views(children@);
                    append_filtered(&mut children, node_elems);
                    proof {
                        lemma_drop_empty_nodes_free(children_views(node_elems@));
                        lemma_no_empty_nodes_append(
                            views_before,
                            drop_empty_nodes(children_views(node_elems@)),
                        );
                    }
                    loop_count = loop_count + 1;
                    if let Some(m) = lr.max {
                        if loop_count == m {
                            proof {
                                if depth >= 7 && loop_override is None
                                    && parent_elem_order is Sequential && flat_primitives(
                                    group_view(*group).sub_elems,
                                ) && group_view(*group).sub_elems.len() > 0 && group.loop_range == (
                                LoopRange { min: 1, max: Option::Some(1usize) }) {
                                    assert(children_views(children@) =~= Seq::<
                                        ChildView,
                                    >::empty() + step_views);
                                    assert(children_views(children@) =~= step_views);
                                }
                                if depth >= 12 && !old(self).enable_memoization
                                    && loop_override is None && parent_elem_order is Sequential
                                    && old(self).src_i < old(self).src_content@.len()
                                    && single_flat_choice(group_view(*group)) && group.loop_range
                                    == (LoopRange { min: 1, max: Option::Some(1usize) }) {
                                    assert(children_views(children@) =~= Seq::<
                                        ChildView,
                                    >::empty() + step_views);
                                    assert(children_views(children@) =~= step_views);
                                }
                            }
                            return (Ok(Some(children)), Ghost(loop_count as int));
                        }
                    }
                },
                None => {
                    let in_range = loop_count >= min_count && (match lr.max {
                        None => true,
                        Some(m) => loop_count <= m,
                    });
                    if in_range {
                        return (Ok(Some(children)), Ghost(loop_count as int));
                    } else {
                        self.src_i = entry_i;
                        self.src_line = entry_line;
                        self.src_latest_line_i = entry_latest;
                        return (Ok(None), Ghost(loop_count as int));
                    }
                },
            }
        }
        let in_range = loop_count >= min_count && (match lr.max {
            None => true,
            Some(m) => loop_count <= m,
        });
        if in_range {
            (Ok(Some(children)), Ghost(loop_count as int))
        } else {
            self.src_i = entry_i;
            self.src_line = entry_line;
            self.src_latest_line_i = entry_latest;
            (Ok(None), Ghost(loop_count as int))
        }
    }

    /// Dispatches on the element order handed down by the caller: a
    /// sequential group is matched element by element, an unordered group
    /// matches each alternative exactly once, in any order.
    #[verifier::loop_isolation(false)]
    fn parse_element_order_group(
        &mut self,
        rules: &RuleMap,
        parent_elem_order: &RuleElementOrder,
        group: &RuleGroup,
        depth: u64,
    ) -> (r: Result<Option<Vec<SyntaxNodeChild>>, SyntaxParsingLog>)
        requires
            old(self).wf(),
            old(self).memo_ok(rules@),
            map_join_free(rules@) ==> group_join_free(group_view(*group)),
            map_join_free(rules@) ==> old(self).arg_groups_join_free(),
        ensures
            final(self).wf(),
            final(self).memo_ok(rules@),
            final(self).sess(*old(self)),
            final(self).frames_len_kept(*old(self)),
            map_join_free(rules@) ==> final(self).arg_groups_join_free(),
            r is Ok ==> final(self).stacks_kept(*old(self)),
            r matches Ok(Some(v)) ==> old(self).src_i <= final(self).src_i && final(self).src_i
                <= final(self).src_content@.len(),
            r matches Ok(Some(v)) ==> (map_join_free(rules@) ==> vec_text(v@) == old(
                self,
            ).src_content@.subrange(old(self).src_i as int, final(self).src_i as int)),
            r matches Ok(None) ==> final(self).pos_restored(*old(self)),
            depth >= 6 && parent_elem_order is Sequential && flat_primitives(
                group_view(*group).sub_elems,
            ) ==> (match seq_consumes(
                old(self).src_content@,
                old(self).src_path@,
                old(self).track(),
                group_view(*group).sub_elems,
                old(self).loop_limit as int,
            ) {
                RepeatOutcome::Matched(cs, t2) => r matches Ok(Some(v)) && children_views(v@)
                    == cs && final(self).track() == t2,
                RepeatOutcome::NoMatch => r matches Ok(None),
                RepeatOutcome::Overrun => (r matches Err(e)
                    && e matches SyntaxParsingLog::TooLongRepetition { loop_limit } && loop_limit
                    == old(self).loop_limit),
            }),
            depth >= 11 && parent_elem_order is Sequential && !old(self).enable_memoization
                && old(self).src_i < old(self).src_content@.len() && single_flat_choice(
                group_view(*group),
            ) ==> (match choice_consumes(
                old(self).src_content@,
                old(self).src_path@,
                old(self).track(),
                choice_alts_of(group_view(*group).sub_elems),
                old(self).loop_limit as int,
            ) {
                RepeatOutcome::Matched(cs, t2) => r matches Ok(Some(v)) && children_views(v@)
                    == cs && final(self).track() == t2,
                RepeatOutcome::NoMatch => r matches Ok(None),
                RepeatOutcome::Overrun => (r matches Err(e)
                    && e matches SyntaxParsingLog::TooLongRepetition { loop_limit } && loop_limit
                    == old(self).loop_limit),
            }),
            depth >= 1 && parent_elem_order is Random && group_view(*group).sub_elems.len() == 0
                ==> (r matches Err(e) && e matches SyntaxParsingLog::InvalidRuleElementStructure {
                uuid,
                ..
            } && uuid == group.uuid),
            depth >= 1 && parent_elem_order is Random && group_view(*group).sub_elems.len() > 0 && !(
            group_view(*group).sub_elems[0] is Group) ==> (r matches Err(e)
                && e matches SyntaxParsingLog::InvalidRuleElementStructure { uuid, .. } && uuid
                == group.uuid),
        decreases depth,
    {
        if depth == 0 {
            return Err(
                SyntaxParsingLog::TooDeepNesting { depth_limit: MAX_NESTING_DEPTH as usize },
            );
        }
        match parent_elem_order {
            RuleElementOrder::Random(random_order_loop_range) => {
                proof {
                    lemma_elem_views_len(group.sub_elems@);
                }
                if group.sub_elems.len() == 0 {
                    return Err(
                        SyntaxParsingLog::InvalidRuleElementStructure {
                            uuid: group.uuid,
                            msg: String::from_str("random order group must have a child group"),
                        },
                    );
                }
                let container = match &group.sub_elems[0] {
                    RuleElement::Group(tar_parent_group) => tar_parent_group,
                    RuleElement::Expression(_) => {
                        return Err(
                            SyntaxParsingLog::InvalidRuleElementStructure {
                                uuid: group.uuid,
                                msg: String::from_str(
                                    "child element of random order group must be a group",
                                ),
                            },
                        );
                    },
                };
                proof {
                    lemma_elem_views_len(group.sub_elems@);
                    lemma_elem_views_len(container.sub_elems@);
                    if map_join_free(rules@) {
                        lemma_elems_join_free_index(group_view(*group).sub_elems);
                        assert(group_view(*group).sub_elems[0] == crate::rule::elem_view(
                            group.sub_elems@[0],
                        ));
                        assert(group_join_free(group_view(**container)));
                        lemma_elems_join_free_index(group_view(**container).sub_elems);
                    }
                }
                let alt_n = container.sub_elems.len();
                let entry_i = self.src_i;
                let entry_line = self.src_line;
                let entry_latest = self.src_latest_line_i;
                let mut matched: Vec<bool> = Vec::new();
                let mut mi: usize = 0;
                while mi < alt_n
                    invariant
                        0 <= mi <= alt_n,
                        matched@.len() == mi,
                    decreases alt_n - mi,
                {
                    matched.push(false);
                    mi = mi + 1;
                }
                let mut children: Vec<SyntaxNodeChild> = Vec::new();
                let mut pass: usize = 0;
                proof {
                    assert(children_views(Seq::<SyntaxNodeChild>::empty()) =~= Seq::<
                        ChildView,
                    >::empty());
                    assert(vec_text(children@) =~= Seq::<char>::empty());
                    assert(self.src_content@.subrange(entry_i as int, entry_i as int) =~= Seq::<
                        char,
                    >::empty());
                }
                while pass < alt_n
                    invariant
                        0 <= pass <= alt_n,
                        matched@.len() == alt_n,
                        self.wf(),
                        self.memo_ok(rules@),
                        self.sess(*old(self)),
                        self.stacks_kept(*old(self)),
                        map_join_free(rules@) ==> self.arg_groups_join_free(),
                        entry_i <= self.src_i <= self.src_content@.len(),
                        map_join_free(rules@) ==> vec_text(children@) == self.src_content@.subrange(
                            entry_i as int,
                            self.src_i as int,
                        ),
                    decreases alt_n - pass,
                {
                    let mut sub_i: usize = 0;
                    let mut pass_matched = false;
                    while sub_i < alt_n && !pass_matched
                        invariant
                            0 <= sub_i <= alt_n,
                            matched@.len() == alt_n,
                            self.wf(),
                            self.memo_ok(rules@),
                            self.sess(*old(self)),
                            self.stacks_kept(*old(self)),
                            map_join_free(rules@) ==> self.arg_groups_join_free(),
                            entry_i <= self.src_i <= self.src_content@.len(),
                            map_join_free(rules@) ==> vec_text(children@)
                                == self.src_content@.subrange(entry_i as int, self.src_i as int),
                        decreases alt_n - sub_i,
                    {
                        if !matched[sub_i] {
                            match &container.sub_elems[sub_i] {
                                RuleElement::Group(subgroup) => {
                                    proof {
                                        if map_join_free(rules@) {
                                            assert(group_view(**container).sub_elems[sub_i as int]
                                                == crate::rule::elem_view(
                                                container.sub_elems@[sub_i as int],
                                            ));
                                            assert(crate::rule::elem_join_free(
                                                group_view(**container).sub_elems[sub_i as int],
                                            ));
                                        }
                                    }
                                    let seq_order = RuleElementOrder::Sequential;
                                    let ghost pre_attempt = *self;
                                    match self.parse_group(
                                        rules,
                                        &seq_order,
                                        subgroup,
                                        Some(random_order_loop_range),
                                        depth - 1,
                                    )? {
                                        Some(node_elems) => {
                                            proof {
                                                if map_join_free(rules@) {
                                                    assert(self.src_content@.subrange(
                                                        entry_i as int,
                                                        pre_attempt.src_i as int,
                                                    ) + self.src_content@.subrange(
                                                        pre_attempt.src_i as int,
                                                        self.src_i as int,
                                                    ) =~= self.src_content@.subrange(
                                                        entry_i as int,
                                                        self.src_i as int,
                                                    ));
                                                }
                                            }
                                            append_filtered(&mut children, node_elems);
                                            matched[sub_i] = true;
                                            pass_matched = true;
                                        },
                                        None => {},
                                    }
                                },
                                _ => {},
                            }
                        }
                        sub_i = sub_i + 1;
                    }
                    if all_true(&matched) {
                        return Ok(Some(children));
                    }
                    pass = pass + 1;
                }
                self.src_i = entry_i;
                self.src_line = entry_line;
                self.src_latest_line_i = entry_latest;
                Ok(None)
            },
            RuleElementOrder::Sequential => self.parse_raw_group(rules, group, depth - 1),
        }
    }

    /// Matches the children of a sequential group in declaration order:
    /// a choice child succeeds on its first matching alternative, a
    /// sequence child and an expression child must match where they
    /// stand, and any failure puts the cursor back to the group's entry.
    #[verifier::loop_isolation(false)]
    #[verifier::rlimit(60)]
    fn parse_raw_group(&mut self, rules: &RuleMap, group: &RuleGroup, depth: u64) -> (r: Result<
        Option<Vec<SyntaxNodeChild>>,
        SyntaxParsingLog,
    >)
        requires
            old(self).wf(),
            old(self).memo_ok(rules@),
            map_join_free(rules@) ==> group_join_free(group_view(*group)),
            map_join_free(rules@) ==> old(self).arg_groups_join_free(),
        ensures
            final(self).wf(),
            final(self).memo_ok(rules@),
            final(self).sess(*old(self)),
            final(self).frames_len_kept(*old(self)),
            map_join_free(rules@) ==> final(self).arg_groups_join_free(),
            r is Ok ==> final(self).stacks_kept(*old(self)),
            r matches Ok(Some(v)) ==> old(self).src_i <= final(self).src_i && final(self).src_i
                <= final(self).src_content@.len(),
            r matches Ok(Some(v)) ==> (map_join_free(rules@) ==> vec_text(v@) == old(
                self,
            ).src_content@.subrange(old(self).src_i as int, final(self).src_i as int)),
            r matches Ok(None) ==> final(self).pos_restored(*old(self)),
            depth >= 5 && flat_primitives(group_view(*group).sub_elems) ==> (match seq_consumes(
                old(self).src_content@,
                old(self).src_path@,
                old(self).track(),
                group_view(*group).sub_elems,
                old(self).loop_limit as int,
            ) {
                RepeatOutcome::Matched(cs, t2) => r matches Ok(Some(v)) && children_views(v@)
                    == cs && final(self).track() == t2,
                RepeatOutcome::NoMatch => r matches Ok(None),
                RepeatOutcome::Overrun => (r matches Err(e)
                    && e matches SyntaxParsingLog::TooLongRepetition { loop_limit } && loop_limit
                    == old(self).loop_limit),
            }),
            depth >= 10 && !old(self).enable_memoization && old(self).src_i < old(
                self,
            ).src_content@.len() && single_flat_choice(group_view(*group)) ==> (
            match choice_consumes(
                old(self).src_content@,
                old(self).src_path@,
                old(self).track(),
                choice_alts_of(group_view(*group).sub_elems),
                old(self).loop_limit as int,
            ) {
                RepeatOutcome::Matched(cs, t2) => r matches Ok(Some(v)) && children_views(v@)
                    == cs && final(self).track() == t2,
                RepeatOutcome::NoMatch => r matches Ok(None),
                RepeatOutcome::Overrun => (r matches Err(e)
                    && e matches SyntaxParsingLog::TooLongRepetition { loop_limit } && loop_limit
                    == old(self).loop_limit),
            }),
        decreases depth,
    {
        if depth == 0 {
            return Err(
                SyntaxParsingLog::TooDeepNesting { depth_limit: MAX_NESTING_DEPTH as usize },
            );
        }
        let entry_i = self.src_i;
        let entry_line = self.src_line;
        let entry_latest = self.src_latest_line_i;
        let mut children: Vec<SyntaxNodeChild> = Vec::new();
        let n = group.sub_elems.len();
        let mut idx: usize = 0;
        proof {
            lemma_elem_views_len(group.sub_elems@);
            if map_join_free(rules@) {
                lemma_elems_join_free_index(group_view(*group).sub_elems);
            }
            assert(children_views(Seq::<SyntaxNodeChild>::empty()) =~= Seq::<ChildView>::empty());
            assert(vec_text(children@) =~= Seq::<char>::empty());
            assert(self.src_content@.subrange(entry_i as int, entry_i as int) =~= Seq::<
                char,
            >::empty());
            if depth >= 5 && flat_primitives(group_view(*group).sub_elems) {
                let gvelems = group_view(*group).sub_elems;
                assert(gvelems.subrange(0, n as int) =~= gvelems);
                match seq_consumes(
                    self.src_content@,
                    self.src_path@,
                    self.track(),
                    gvelems,
                    self.loop_limit as int,
                ) {
                    RepeatOutcome::Matched(cs, t2) => {
                        assert(children_views(children@) + cs =~= cs);
                    },
                    RepeatOutcome::NoMatch => {},
                    RepeatOutcome::Overrun => {},
                }
            }
        }
        while idx < n
            invariant
                0 <= idx <= n,
                self.wf(),
                self.memo_ok(rules@),
                self.sess(*old(self)),
                self.stacks_kept(*old(self)),
                map_join_free(rules@) ==> self.arg_groups_join_free(),
                entry_i <= self.src_i <= self.src_content@.len(),
                map_join_free(rules@) ==> vec_text(children@) == self.src_content@.subrange(
                    entry_i as int,
                    self.src_i as int,
                ),
                idx == 0 ==> children@.len() == 0,
                idx == 0 ==> self.pos_restored(*old(self)),
                (depth >= 10 && !old(self).enable_memoization && old(self).src_i < old(
                    self,
                ).src_content@.len() && single_flat_choice(group_view(*group))) ==> (idx == 0
                    || choice_consumes(
                    old(self).src_content@,
                    old(self).src_path@,
                    old(self).track(),
                    choice_alts_of(group_view(*group).sub_elems),
                    old(self).loop_limit as int,
                ) == RepeatOutcome::Matched(children_views(children@), self.track())),
                depth >= 5 && flat_primitives(group_view(*group).sub_elems) ==> seq_consumes(
                    old(self).src_content@,
                    old(self).src_path@,
                    old(self).track(),
                    group_view(*group).sub_elems,
                    old(self).loop_limit as int,
                ) == (match seq_consumes(
                    self.src_content@,
                    self.src_path@,
                    self.track(),
                    group_view(*group).sub_elems.subrange(idx as int, n as int),
                    old(self).loop_limit as int,
                ) {
                    RepeatOutcome::Matched(cs, t2) => RepeatOutcome::Matched(
                        children_views(children@) + cs,
                        t2,
                    ),
                    RepeatOutcome::NoMatch => RepeatOutcome::NoMatch,
                    RepeatOutcome::Overrun => RepeatOutcome::Overrun,
                }),
            decreases n - idx,
        {
            proof {
                assert(group_view(*group).sub_elems[idx as int] == crate::rule::elem_view(
                    group.sub_elems@[idx as int],
                ));
                if map_join_free(rules@) {
                    assert(crate::rule::elem_join_free(group_view(*group).sub_elems[idx as int]));
                }
            }
            let ghost pre_elem = *self;
            match &group.sub_elems[idx] {
                RuleElement::Group(each_group) => {
                    match each_group.kind {
                        RuleGroupKind::Choice => {
                            let mut is_successful = false;
                            let ghost children0 = children@;
                            let ghost cv = group_view(**each_group);
                            let alt_n = each_group.sub_elems.len();
                            let mut alt_idx: usize = 0;
                            proof {
                                lemma_elem_views_len(each_group.sub_elems@);
                                if map_join_free(rules@) {
                                    lemma_elems_join_free_index(
                                        group_view(**each_group).sub_elems,
                                    );
                                }
                                if depth >= 10 && !old(self).enable_memoization && old(self).src_i
                                    < old(self).src_content@.len() && single_flat_choice(
                                    group_view(*group),
                                ) {
                                    assert(cv.sub_elems.subrange(0, alt_n as int)
                                        =~= cv.sub_elems);
                                    assert(choice_alts_of(group_view(*group).sub_elems)
                                        == cv.sub_elems);
                                }
                            }
                            while alt_idx < alt_n && !is_successful
                                invariant
                                    0 <= alt_idx <= alt_n,
                                    self.wf(),
                                    self.memo_ok(rules@),
                                    self.sess(*old(self)),
                                    self.stacks_kept(*old(self)),
                                    map_join_free(rules@) ==> self.arg_groups_join_free(),
                                    entry_i <= self.src_i <= self.src_content@.len(),
                                    !is_successful ==> self.pos_restored(pre_elem),
                                    !is_successful ==> children@ == children0,
                                    map_join_free(rules@) ==> vec_text(children@)
                                        == self.src_content@.subrange(
                                        entry_i as int,
                                        self.src_i as int,
                                    ),
                                    (depth >= 10 && !old(self).enable_memoization && old(
                                        self,
                                    ).src_i < old(self).src_content@.len() && single_flat_choice(
                                        group_view(*group),
                                    )) ==> (!is_successful ==> choice_consumes(
                                        old(self).src_content@,
                                        old(self).src_path@,
                                        old(self).track(),
                                        cv.sub_elems,
                                        old(self).loop_limit as int,
                                    ) == choice_consumes(
                                        old(self).src_content@,
                                        old(self).src_path@,
                                        self.track(),
                                        cv.sub_elems.subrange(alt_idx as int, alt_n as int),
                                        old(self).loop_limit as int,
                                    )),
                                    (depth >= 10 && !old(self).enable_memoization && old(
                                        self,
                                    ).src_i < old(self).src_content@.len() && single_flat_choice(
                                        group_view(*group),
                                    )) ==> (is_successful ==> choice_consumes(
                                        old(self).src_content@,
                                        old(self).src_path@,
                                        old(self).track(),
                                        cv.sub_elems,
                                        old(self).loop_limit as int,
                                    ) == RepeatOutcome::Matched(
                                        children_views(children@),
                                        self.track(),
                                    )),
                                decreases alt_n - alt_idx,
                            {
                                proof {
                                    assert(cv.sub_elems[alt_idx as int] == crate::rule::elem_view(
                                        each_group.sub_elems@[alt_idx as int],
                                    ));
                                    assert(cv.sub_elems.subrange(alt_idx as int, alt_n as int)[0]
                                        == cv.sub_elems[alt_idx as int]);
                                    assert(cv.sub_elems.subrange(alt_idx as int, alt_n as int)
                                        .subrange(1, (alt_n - alt_idx) as int) =~= cv.sub_elems
                                        .subrange(alt_idx as int + 1, alt_n as int));
                                }
                                match &each_group.sub_elems[alt_idx] {
                                    RuleElement::Group(each_sub_group) => {
                                        proof {
                                            if map_join_free(rules@) {
                                                assert(crate::rule::elem_join_free(
                                                    group_view(
                                                        **each_group,
                                                    ).sub_elems[alt_idx as int],
                                                ));
                                            }
                                        }
                                        let ghost pre_attempt = *self;
                                        let attempt = match self.parse_group(
                                            rules,
                                            &each_group.elem_order,
                                            each_sub_group,
                                            None,
                                            depth - 1,
                                        ) {
                                            Ok(attempt) => attempt,
                                            Err(e) => {
                                                proof {
                                                    if depth >= 10 && !old(
                                                        self,
                                                    ).enable_memoization && old(self).src_i < old(
                                                        self,
                                                    ).src_content@.len() && single_flat_choice(
                                                        group_view(*group),
                                                    ) {
                                                        assert(choice_consumes(
                                                            old(self).src_content@,
                                                            old(self).src_path@,
                                                            old(self).track(),
                                                            cv.sub_elems,
                                                            old(self).loop_limit as int,
                                                        ) == RepeatOutcome::Overrun);
                                                    }
                                                }
                                                return Err(e);
                                            },
                                        };
                                        match attempt {
                                            Some(v) => {
                                                if n != 1 {
                                                    proof {
                                                        if map_join_free(rules@) {
                                                            assert(self.src_content@.subrange(
                                                                entry_i as int,
                                                                pre_attempt.src_i as int,
                                                            ) + self.src_content@.subrange(
                                                                pre_attempt.src_i as int,
                                                                self.src_i as int,
                                                            ) =~= self.src_content@.subrange(
                                                                entry_i as int,
                                                                self.src_i as int,
                                                            ));
                                                        }
                                                    }
                                                    attach_group_result(
                                                        &mut children,
                                                        v,
                                                        &each_sub_group.ast_reflection_style,
                                                    );
                                                } else {
                                                    proof {
                                                        assert(children@ == children0);
                                                        assert(children@.len() == 0);
                                                        assert(children_views(children@) =~= Seq::<
                                                            ChildView,
                                                        >::empty());
                                                        if map_join_free(rules@) {
                                                            assert(vec_text(children@).len() == 0);
                                                            assert(pre_attempt.src_i == entry_i);
                                                        }
                                                    }
                                                    children = v;
                                                }
                                                is_successful = true;
                                                proof {
                                                    if depth >= 10 && !old(
                                                        self,
                                                    ).enable_memoization && old(self).src_i < old(
                                                        self,
                                                    ).src_content@.len() && single_flat_choice(
                                                        group_view(*group),
                                                    ) {
                                                        assert(choice_consumes(
                                                            old(self).src_content@,
                                                            old(self).src_path@,
                                                            old(self).track(),
                                                            cv.sub_elems,
                                                            old(self).loop_limit as int,
                                                        ) == RepeatOutcome::Matched(
                                                            children_views(children@),
                                                            self.track(),
                                                        ));
                                                    }
                                                }
                                            },
                                            None => {},
                                        }
                                    },
                                    _ => {},
                                }
                                alt_idx = alt_idx + 1;
                            }
                            if !is_successful {
                                proof {
                                    if depth >= 10 && !old(self).enable_memoization && old(
                                        self,
                                    ).src_i < old(self).src_content@.len() && single_flat_choice(
                                        group_view(*group),
                                    ) {
                                        assert(cv.sub_elems.subrange(alt_n as int, alt_n as int)
                                            =~= Seq::<ElemView>::empty());
                                        assert(choice_consumes(
                                            old(self).src_content@,
                                            old(self).src_path@,
                                            old(self).track(),
                                            cv.sub_elems,
                                            old(self).loop_limit as int,
                                        ) == RepeatOutcome::NoMatch);
                                    }
                                }
                                self.src_i = entry_i;
                                self.src_line = entry_line;
                                self.src_latest_line_i = entry_latest;
                                return Ok(None);
                            }
                        },
                        RuleGroupKind::Sequence => {
                            let ghost pre_attempt = *self;
                            match self.parse_group(
                                rules,
                                &each_group.elem_order,
                                each_group,
                                None,
                                depth - 1,
                            )? {
                                Some(v) => {
                                    if n != 1 {
                                        proof {
                                            if map_join_free(rules@) {
                                                assert(self.src_content@.subrange(
                                                    entry_i as int,
                                                    pre_attempt.src_i as int,
                                                ) + self.src_content@.subrange(
                                                    pre_attempt.src_i as int,
                                                    self.src_i as int,
                                                ) =~= self.src_content@.subrange(
                                                    entry_i as int,
                                                    self.src_i as int,
                                                ));
                                            }
                                        }
                                        attach_group_result(
                                            &mut children,
                                            v,
                                            &each_group.ast_reflection_style,
                                        );
                                    } else {
                                        proof {
                                            assert(children@.len() == 0);
                                            assert(children_views(children@) =~= Seq::<
                                                ChildView,
                                            >::empty());
                                            if map_join_free(rules@) {
                                                assert(vec_text(children@).len() == 0);
                                                assert(pre_attempt.src_i == entry_i);
                                            }
                                        }
                                        children = v;
                                    }
                                },
                                None => {
                                    self.src_i = entry_i;
                                    self.src_line = entry_line;
                                    self.src_latest_line_i = entry_latest;
                                    return Ok(None);
                                },
                            }
                        },
                    }
                },
                RuleElement::Expression(each_expr) => {
                    let ghost pre_attempt = *self;
                    let ghost gvelems = group_view(*group).sub_elems;
                    let ghost s0 = old(self).src_content@;
                    let ghost p0 = old(self).src_path@;
                    proof {
                        assert(gvelems[idx as int] == crate::rule::elem_view(
                            group.sub_elems@[idx as int],
                        ));
                        if depth >= 5 && flat_primitives(gvelems) {
                            assert(gvelems.subrange(idx as int, n as int)[0] == gvelems[idx as int]);
                            assert(gvelems.subrange(idx as int, n as int).subrange(
                                1,
                                (n - idx) as int,
                            ) =~= gvelems.subrange(idx as int + 1, n as int));
                        }
                    }
                    let step = match self.parse_expr(rules, each_expr, depth - 1) {
                        Ok(step) => step,
                        Err(e) => {
                            proof {
                                if depth >= 5 && flat_primitives(gvelems) {
                                    let x = crate::rule::expr_view(**each_expr);
                                    match prim_repeat(
                                        s0,
                                        p0,
                                        pre_attempt.track(),
                                        x,
                                        0,
                                        old(self).loop_limit as int,
                                    ) {
                                        RepeatOutcome::Matched(cs0, t0) => {
                                            if x.lookahead_kind is NoLookahead {
                                                assert(false);
                                            }
                                        },
                                        RepeatOutcome::NoMatch => {
                                            if x.lookahead_kind is NoLookahead {
                                                assert(false);
                                            }
                                        },
                                        RepeatOutcome::Overrun => {},
                                    }
                                    assert(seq_consumes(
                                        s0,
                                        p0,
                                        old(self).track(),
                                        gvelems,
                                        old(self).loop_limit as int,
                                    ) == RepeatOutcome::Overrun);
                                }
                            }
                            return Err(e);
                        },
                    };
                    match step {
                        Some(node_elems) => {
                            let ghost step_views = children_views(node_elems@);
                            let ghost views0 = children_views(children@);
                            proof {
                                if map_join_free(rules@) {
                                    assert(self.src_content@.subrange(
                                        entry_i as int,
                                        pre_attempt.src_i as int,
                                    ) + self.src_content@.subrange(
                                        pre_attempt.src_i as int,
                                        self.src_i as int,
                                    ) =~= self.src_content@.subrange(
                                        entry_i as int,
                                        self.src_i as int,
                                    ));
                                }
                                if depth >= 5 && flat_primitives(gvelems) {
                                    let x = crate::rule::expr_view(**each_expr);
                                    if x.lookahead_kind is NoLookahead {
                                        match prim_repeat(
                                            s0,
                                            p0,
                                            pre_attempt.track(),
                                            x,
                                            0,
                                            old(self).loop_limit as int,
                                        ) {
                                            RepeatOutcome::Matched(cs0, t0) => {
                                                lemma_prim_repeat_leaves(
                                                    s0,
                                                    p0,
                                                    pre_attempt.track(),
                                                    x,
                                                    0,
                                                    old(self).loop_limit as int,
                                                );
                                                lemma_drop_empty_nodes_leaves(step_views);
                                            },
                                            RepeatOutcome::NoMatch => {
                                                assert(false);
                                            },
                                            RepeatOutcome::Overrun => {
                                                assert(false);
                                            },
                                        }
                                    } else {
                                        assert(node_elems@.len() == 0);
                                        assert(step_views =~= Seq::<ChildView>::empty());
                                        assert(drop_empty_nodes(step_views) =~= Seq::<
                                            ChildView,
                                        >::empty());
                                        assert(self.track() == pre_attempt.track());
                                    }
                                }
                            }
                            append_filtered(&mut children, node_elems);
                            proof {
                                if depth >= 5 && flat_primitives(gvelems) {
                                    let x = crate::rule::expr_view(**each_expr);
                                    if x.lookahead_kind is NoLookahead {
                                        match seq_consumes(
                                            s0,
                                            p0,
                                            self.track(),
                                            gvelems.subrange(idx as int + 1, n as int),
                                            old(self).loop_limit as int,
                                        ) {
                                            RepeatOutcome::Matched(rem, t3) => {
                                                assert((views0 + step_views) + rem =~= views0 + (
                                                step_views + rem));
                                            },
                                            RepeatOutcome::NoMatch => {},
                                            RepeatOutcome::Overrun => {},
                                        }
                                    } else {
                                        assert(children_views(children@) =~= views0);
                                    }
                                    assert(seq_consumes(
                                        s0,
                                        p0,
                                        old(self).track(),
                                        gvelems,
                                        old(self).loop_limit as int,
                                    ) == (match seq_consumes(
                                        s0,
                                        p0,
                                        self.track(),
                                        gvelems.subrange(idx as int + 1, n as int),
                                        old(self).loop_limit as int,
                                    ) {
                                        RepeatOutcome::Matched(rem, t3) => RepeatOutcome::Matched(
                                            children_views(children@) + rem,
                                            t3,
                                        ),
                                        RepeatOutcome::NoMatch => RepeatOutcome::NoMatch,
                                        RepeatOutcome::Overrun => RepeatOutcome::Overrun,
                                    }));
                                }
                            }
                        },
                        None => {
                            proof {
                                if depth >= 5 && flat_primitives(gvelems) {
                                    let x = crate::rule::expr_view(**each_expr);
                                    match prim_repeat(
                                        s0,
                                        p0,
                                        pre_attempt.track(),
                                        x,
                                        0,
                                        old(self).loop_limit as int,
                                    ) {
                                        RepeatOutcome::Matched(cs0, t0) => {
                                            if x.lookahead_kind is NoLookahead {
                                                assert(false);
                                            }
                                        },
                                        RepeatOutcome::NoMatch => {
                                            if !(x.lookahead_kind is NoLookahead)
                                                && !(x.lookahead_kind is Positive) {
                                                assert(false);
                                            }
                                        },
                                        RepeatOutcome::Overrun => {
                                            assert(false);
                                        },
                                    }
                                    assert(seq_consumes(
                                        s0,
                                        p0,
                                        old(self).track(),
                                        gvelems,
                                        old(self).loop_limit as int,
                                    ) == RepeatOutcome::NoMatch);
                                }
                            }
                            self.src_i = entry_i;
                            self.src_line = entry_line;
                            self.src_latest_line_i = entry_latest;
                            return Ok(None);
                        },
                    }
                },
            }
            idx = idx + 1;
        }
        proof {
            if depth >= 5 && flat_primitives(group_view(*group).sub_elems) {
                let gvelems = group_view(*group).sub_elems;
                assert(gvelems.subrange(n as int, n as int) =~= Seq::<ElemView>::empty());
                assert(children_views(children@) + Seq::<ChildView>::empty() =~= children_views(
                    children@,
                ));
            }
        }
        Ok(Some(children))
    }

    /// Matches one expression, applying the lookahead and repetition
    /// wrappers around the core.
    fn parse_expr(&mut self, rules: &RuleMap, expr: &RuleExpression, depth: u64) -> (r: Result<
        Option<Vec<SyntaxNodeChild>>,
        SyntaxParsingLog,
    >)
        requires
            old(self).wf(),
            old(self).memo_ok(rules@),
            map_join_free(rules@) ==> crate::rule::elem_join_free(
                ElemView::Expression(crate::rule::expr_view(*expr)),
            ),
            map_join_free(rules@) ==> old(self).arg_groups_join_free(),
        ensures
            final(self).wf(),
            final(self).memo_ok(rules@),
            final(self).sess(*old(self)),
            final(self).frames_len_kept(*old(self)),
            map_join_free(rules@) ==> final(self).arg_groups_join_free(),
            r is Ok ==> final(self).stacks_kept(*old(self)),
            r matches Ok(Some(v)) ==> old(self).src_i <= final(self).src_i && final(self).src_i
                <= final(self).src_content@.len(),
            r matches Ok(Some(v)) ==> (map_join_free(rules@) ==> vec_text(v@) == old(
                self,
            ).src_content@.subrange(old(self).src_i as int, final(self).src_i as int)),
            r matches Ok(None) ==> final(self).pos_restored(*old(self)),
            r is Ok && !(expr.lookahead_kind is NoLookahead) ==> final(self).pos_restored(
                *old(self),
            ),
            r matches Ok(Some(v)) ==> (expr.lookahead_kind is NoLookahead || v@.len() == 0),
            depth >= 4 && expr.lookahead_kind is NoLookahead && primitive_defined(
                crate::rule::expr_kind_view(expr.kind),
                expr.value@,
            ) && expr.loop_range == (LoopRange { min: 1, max: Option::Some(1usize) }) ==> (
            match primitive_consumes(
                old(self).src_content@,
                old(self).src_i as int,
                crate::rule::expr_kind_view(expr.kind),
                expr.value@,
            ) {
                Option::Some(t) => r matches Ok(Some(out)) && single_leaf_output(
                    out@,
                    old(self).cursor_position(),
                    t,
                    expr.ast_reflection_style@,
                ) && final(self).track() == advanced_track(old(self).track(), t),
                Option::None => r matches Ok(None),
            }),
            depth >= 4 && !(expr.lookahead_kind is NoLookahead) && primitive_defined(
                crate::rule::expr_kind_view(expr.kind),
                expr.value@,
            ) && expr.loop_range == (LoopRange { min: 1, max: Option::Some(1usize) }) ==> (
            r matches Ok(res) && ((res is Some) <==> ((primitive_consumes(
                old(self).src_content@,
                old(self).src_i as int,
                crate::rule::expr_kind_view(expr.kind),
                expr.value@,
            ) is Some) == (expr.lookahead_kind is Positive)))),
            depth >= 4 && expr.lookahead_kind is NoLookahead && repeatable_primitive(
                crate::rule::expr_view(*expr),
            ) ==> (match prim_repeat(
                old(self).src_content@,
                old(self).src_path@,
                old(self).track(),
                crate::rule::expr_view(*expr),
                0,
                old(self).loop_limit as int,
            ) {
                RepeatOutcome::Matched(cs, t2) => r matches Ok(Some(v)) && children_views(v@)
                    == cs && final(self).track() == t2,
                RepeatOutcome::NoMatch => r matches Ok(None),
                RepeatOutcome::Overrun => (r matches Err(e)
                    && e matches SyntaxParsingLog::TooLongRepetition { loop_limit } && loop_limit
                    == old(self).loop_limit),
            }),
            depth >= 4 && !(expr.lookahead_kind is NoLookahead) && repeatable_primitive(
                crate::rule::expr_view(*expr),
            ) ==> (match prim_repeat(
                old(self).src_content@,
                old(self).src_path@,
                old(self).track(),
                crate::rule::expr_view(*expr),
                0,
                old(self).loop_limit as int,
            ) {
                RepeatOutcome::Matched(cs, t2) => r matches Ok(res) && ((res is Some)
                    <==> expr.lookahead_kind is Positive),
                RepeatOutcome::NoMatch => r matches Ok(res) && ((res is Some) <==> !(
                expr.lookahead_kind is Positive)),
                RepeatOutcome::Overrun => (r matches Err(e)
                    && e matches SyntaxParsingLog::TooLongRepetition { loop_limit } && loop_limit
                    == old(self).loop_limit),
            }),
        decreases depth,
    {
        if depth == 0 {
            return Err(
                SyntaxParsingLog::TooDeepNesting { depth_limit: MAX_NESTING_DEPTH as usize },
            );
        }
        self.parse_lookahead_expr(rules, expr, depth - 1)
    }

    /// The lookahead wrapper for expressions, as for groups.
    fn parse_lookahead_expr(&mut self, rules: &RuleMap, expr: &RuleExpression, depth: u64) -> (r:
        Result<Option<Vec<SyntaxNodeChild>>, SyntaxParsingLog>)
        requires
            old(self).wf(),
            old(self).memo_ok(rules@),
            map_join_free(rules@) ==> crate::rule::elem_join_free(
                ElemView::Expression(crate::rule::expr_view(*expr)),
            ),
            map_join_free(rules@) ==> old(self).arg_groups_join_free(),
        ensures
            final(self).wf(),
            final(self).memo_ok(rules@),
            final(self).sess(*old(self)),
            final(self).frames_len_kept(*old(self)),
            map_join_free(rules@) ==> final(self).arg_groups_join_free(),
            r is Ok ==> final(self).stacks_kept(*old(self)),
            r matches Ok(Some(v)) ==> old(self).src_i <= final(self).src_i && final(self).src_i
                <= final(self).src_content@.len(),
            r matches Ok(Some(v)) ==> (map_join_free(rules@) ==> vec_text(v@) == old(
                self,
            ).src_content@.subrange(old(self).src_i as int, final(self).src_i as int)),
            r matches Ok(None) ==> final(self).pos_restored(*old(self)),
            r is Ok && !(expr.lookahead_kind is NoLookahead) ==> final(self).pos_restored(
                *old(self),
            ),
            r matches Ok(Some(v)) ==> (expr.lookahead_kind is NoLookahead || v@.len() == 0),
            depth >= 3 && expr.lookahead_kind is NoLookahead && primitive_defined(
                crate::rule::expr_kind_view(expr.kind),
                expr.value@,
            ) && expr.loop_range == (LoopRange { min: 1, max: Option::Some(1usize) }) ==> (
            match primitive_consumes(
                old(self).src_content@,
                old(self).src_i as int,
                crate::rule::expr_kind_view(expr.kind),
                expr.value@,
            ) {
                Option::Some(t) => r matches Ok(Some(out)) && single_leaf_output(
                    out@,
                    old(self).cursor_position(),
                    t,
                    expr.ast_reflection_style@,
                ) && final(self).track() == advanced_track(old(self).track(), t),
                Option::None => r matches Ok(None),
            }),
            depth >= 3 && !(expr.lookahead_kind is NoLookahead) && primitive_defined(
                crate::rule::expr_kind_view(expr.kind),
                expr.value@,
            ) && expr.loop_range == (LoopRange { min: 1, max: Option::Some(1usize) }) ==> (
            r matches Ok(res) && ((res is Some) <==> ((primitive_consumes(
                old(self).src_content@,
                old(self).src_i as int,
                crate::rule::expr_kind_view(expr.kind),
                expr.value@,
            ) is Some) == (expr.lookahead_kind is Positive)))),
            depth >= 3 && expr.lookahead_kind is NoLookahead && repeatable_primitive(
                crate::rule::expr_view(*expr),
            ) ==> (match prim_repeat(
                old(self).src_content@,
                old(self).src_path@,
                old(self).track(),
                crate::rule::expr_view(*expr),
                0,
                old(self).loop_limit as int,
            ) {
                RepeatOutcome::Matched(cs, t2) => r matches Ok(Some(v)) && children_views(v@)
                    == cs && final(self).track() == t2,
                RepeatOutcome::NoMatch => r matches Ok(None),
                RepeatOutcome::Overrun => (r matches Err(e)
                    && e matches SyntaxParsingLog::TooLongRepetition { loop_limit } && loop_limit
                    == old(self).loop_limit),
            }),
            depth >= 3 && !(expr.lookahead_kind is NoLookahead) && repeatable_primitive(
                crate::rule::expr_view(*expr),
            ) ==> (match prim_repeat(
                old(self).src_content@,
                old(self).src_path@,
                old(self).track(),
                crate::rule::expr_view(*expr),
                0,
                old(self).loop_limit as int,
            ) {
                RepeatOutcome::Matched(cs, t2) => r matches Ok(res) && ((res is Some)
                    <==> expr.lookahead_kind is Positive),
                RepeatOutcome::NoMatch => r matches Ok(res) && ((res is Some) <==> !(
                expr.lookahead_kind is Positive)),
                RepeatOutcome::Overrun => (r matches Err(e)
                    && e matches SyntaxParsingLog::TooLongRepetition { loop_limit } && loop_limit
                    == old(self).loop_limit),
            }),
        decreases depth,
    {
        if depth == 0 {
            return Err(
                SyntaxParsingLog::TooDeepNesting { depth_limit: MAX_NESTING_DEPTH as usize },
            );
        }
        match expr.lookahead_kind {
            RuleElementLookaheadKind::NoLookahead => {
                let (result, _count) = self.parse_loop_expr(rules, expr, depth - 1);
                result
            },
            _ => {
                let start_src_i = self.src_i;
                let start_line = self.src_line;
                let start_latest = self.src_latest_line_i;
                let is_positive = matches!(expr.lookahead_kind, RuleElementLookaheadKind::Positive);
                let (inner, _count) = self.parse_loop_expr(rules, expr, depth - 1);
                let result = match inner {
                    Ok(v) => v,
                    Err(e) => {
                        return Err(e);
                    },
                };
                self.src_i = start_src_i;
                self.src_line = start_line;
                self.src_latest_line_i = start_latest;
                let matched = result.is_some();
                if matched == is_positive {
                    proof {
                        assert(children_views(Seq::<SyntaxNodeChild>::empty()) =~= Seq::<
                            ChildView,
                        >::empty());
                        assert(vec_text(Seq::<SyntaxNodeChild>::empty()) =~= Seq::<char>::empty());
                        assert(old(self).src_content@.subrange(
                            old(self).src_i as int,
                            old(self).src_i as int,
                        ) =~= Seq::<char>::empty());
                    }
                    Ok(Some(Vec::new()))
                } else {
                    Ok(None)
                }
            },
        }
    }

    /// The repetition wrapper for expressions, as for groups; the ghost
    /// part of the result reports the number of completed iterations,
    /// which the loop limit bounds.
    #[verifier::loop_isolation(false)]
    #[verifier::rlimit(100)]
    fn parse_loop_expr(&mut self, rules: &RuleMap, expr: &RuleExpression, depth: u64) -> (r: (
        Result<Option<Vec<SyntaxNodeChild>>, SyntaxParsingLog>,
        Ghost<int>,
    ))
        requires
            old(self).wf(),
            old(self).memo_ok(rules@),
            map_join_free(rules@) ==> crate::rule::elem_join_free(
                ElemView::Expression(crate::rule::expr_view(*expr)),
            ),
            map_join_free(rules@) ==> old(self).arg_groups_join_free(),
        ensures
            final(self).wf(),
            final(self).memo_ok(rules@),
            final(self).sess(*old(self)),
            final(self).frames_len_kept(*old(self)),
            map_join_free(rules@) ==> final(self).arg_groups_join_free(),
            r.0 is Ok ==> final(self).stacks_kept(*old(self)),
            r.0 matches Ok(Some(v)) ==> old(self).src_i <= final(self).src_i && final(self).src_i
                <= final(self).src_content@.len(),
            r.0 matches Ok(Some(v)) ==> (map_join_free(rules@) ==> vec_text(v@) == old(
                self,
            ).src_content@.subrange(old(self).src_i as int, final(self).src_i as int)),
            r.0 matches Ok(None) ==> final(self).pos_restored(*old(self)),
            r.1@ <= old(self).loop_limit as int + 1,
            r.0 matches Ok(Some(v)) ==> expr.loop_range.min as int <= r.1@,
            depth >= 1 && !expr.loop_range.is_valid() ==> (r.0 matches Err(e)
                && is_invalid_loop_range_log(e, expr.loop_range)),
            depth >= 2 && repeatable_primitive(crate::rule::expr_view(*expr)) ==> (
            match prim_repeat(
                old(self).src_content@,
                old(self).src_path@,
                old(self).track(),
                crate::rule::expr_view(*expr),
                0,
                old(self).loop_limit as int,
            ) {
                RepeatOutcome::Matched(cs, t2) => r.0 matches Ok(Some(v)) && children_views(v@)
                    == cs && final(self).track() == t2,
                RepeatOutcome::NoMatch => r.0 matches Ok(None),
                RepeatOutcome::Overrun => (r.0 matches Err(e)
                    && e matches SyntaxParsingLog::TooLongRepetition { loop_limit } && loop_limit
                    == old(self).loop_limit),
            }),
            depth >= 2 && primitive_defined(crate::rule::expr_kind_view(expr.kind), expr.value@)
                && expr.loop_range == (LoopRange { min: 1, max: Option::Some(1usize) }) ==> (
            match primitive_consumes(
                old(self).src_content@,
                old(self).src_i as int,
                crate::rule::expr_kind_view(expr.kind),
                expr.value@,
            ) {
                Option::Some(t) => r.0 matches Ok(Some(out)) && single_leaf_output(
                    out@,
                    old(self).cursor_position(),
                    t,
                    expr.ast_reflection_style@,
                ) && final(self).track() == advanced_track(old(self).track(), t),
                Option::None => r.0 matches Ok(None),
            }),
            r.0 matches Ok(Some(v)) ==> no_empty_nodes(children_views(v@)),
        decreases depth,
    {
        if depth == 0 {
            return (
                Err(SyntaxParsingLog::TooDeepNesting { depth_limit: MAX_NESTING_DEPTH as usize }),
                Ghost(0int),
            );
        }
        let lr: LoopRange = expr.loop_range;
        let min_count = lr.min;
        if let Some(m) = lr.max {
            if min_count > m {
                return (
                    Err(SyntaxParsingLog::InvalidLoopRange { min: min_count, max: m }),
                    Ghost(0int),
                );
            }
        }
        let entry_i = self.src_i;
        let entry_line = self.src_line;
        let entry_latest = self.src_latest_line_i;
        let mut children: Vec<SyntaxNodeChild> = Vec::new();
        let mut loop_count: usize = 0;
        proof {
            assert(children_views(Seq::<SyntaxNodeChild>::empty()) =~= Seq::<ChildView>::empty());
            assert(vec_text(children@) =~= Seq::<char>::empty());
            assert(self.src_content@.subrange(entry_i as int, entry_i as int) =~= Seq::<
                char,
            >::empty());
            if depth >= 2 && repeatable_primitive(crate::rule::expr_view(*expr)) {
                match prim_repeat(
                    self.src_content@,
                    self.src_path@,
                    self.track(),
                    crate::rule::expr_view(*expr),
                    0,
                    self.loop_limit as int,
                ) {
                    RepeatOutcome::Matched(cs, t2) => {
                        assert(children_views(children@) + cs =~= cs);
                    },
                    RepeatOutcome::NoMatch => {},
                    RepeatOutcome::Overrun => {},
                }
            }
        }
        while self.src_i < self.src_content.len()
            invariant
                self.wf(),
                self.memo_ok(rules@),
                self.sess(*old(self)),
                self.stacks_kept(*old(self)),
                map_join_free(rules@) ==> self.arg_groups_join_free(),
                entry_i <= self.src_i <= self.src_content@.len(),
                map_join_free(rules@) ==> vec_text(children@) == self.src_content@.subrange(
                    entry_i as int,
                    self.src_i as int,
                ),
                loop_count as int <= self.loop_limit as int + 1,
                expr.loop_range == (LoopRange { min: 1, max: Option::Some(1usize) })
                    ==> loop_count == 0,
                loop_count == 0 ==> self.src_i == entry_i && self.src_line == entry_line
                    && self.src_latest_line_i == entry_latest && children@.len() == 0,
                no_empty_nodes(children_views(children@)),
                depth >= 2 && repeatable_primitive(crate::rule::expr_view(*expr)) ==> prim_repeat(
                    old(self).src_content@,
                    old(self).src_path@,
                    old(self).track(),
                    crate::rule::expr_view(*expr),
                    0,
                    old(self).loop_limit as int,
                ) == (match prim_repeat(
                    old(self).src_content@,
                    old(self).src_path@,
                    self.track(),
                    crate::rule::expr_view(*expr),
                    loop_count as int,
                    old(self).loop_limit as int,
                ) {
                    RepeatOutcome::Matched(cs, t2) => RepeatOutcome::Matched(
                        children_views(children@) + cs,
                        t2,
                    ),
                    RepeatOutcome::NoMatch => RepeatOutcome::NoMatch,
                    RepeatOutcome::Overrun => RepeatOutcome::Overrun,
                }),
            decreases self.loop_limit as int + 2 - loop_count as int,
        {
            if loop_count > self.loop_limit {
                proof {
                    if depth >= 2 && repeatable_primitive(crate::rule::expr_view(*expr)) {
                        assert(prim_repeat(
                            old(self).src_content@,
                            old(self).src_path@,
                            self.track(),
                            crate::rule::expr_view(*expr),
                            loop_count as int,
                            old(self).loop_limit as int,
                        ) == RepeatOutcome::Overrun);
                    }
                }
                return (
                    Err(SyntaxParsingLog::TooLongRepetition { loop_limit: self.loop_limit }),
                    Ghost(loop_count as int),
                );
            }
            let ghost pre_iter = *self;
            let step = match self.parse_raw_expr(rules, expr, depth - 1) {
                Ok(step) => step,
                Err(e) => {
                    return (Err(e), Ghost(loop_count as int));
                },
            };
            match step {
                Some(node_elems) => {
                    proof {
                        if map_join_free(rules@) {
                            assert(self.src_content@.subrange(entry_i as int, pre_iter.src_i as int)
                                + self.src_content@.subrange(
                                pre_iter.src_i as int,
                                self.src_i as int,
                            ) =~= self.src_content@.subrange(entry_i as int, self.src_i as int));
                        }
                    }
                    let ghost step_views = children_views(node_elems@);
                    proof {
                        if depth >= 2 && repeatable_primitive(crate::rule::expr_view(*expr)) {
                            let s = pre_iter.src_content@;
                            let at = pre_iter.src_i as int;
                            match &expr.kind {
                                RuleExpressionKind::LiteralString => {
                                    if !literal_matches_at(s, at, expr.value@) {
                                        assert(false);
                                    }
                                },
                                RuleExpressionKind::CharClass => {
                                    if !(at < s.len() && regex_hit(expr.value@, seq![s[at]])) {
                                        assert(false);
                                    }
                                },
                                RuleExpressionKind::Wildcard => {
                                    if at >= s.len() {
                                        assert(false);
                                    }
                                },
                                _ => {
                                    assert(false);
                                },
                            }
                            assert(step_views.len() == 1 && step_views[0] is Leaf);
                            reveal_with_fuel(drop_empty_nodes, 2);
                            assert(step_views =~= seq![step_views[0]]);
                            assert(seq![step_views[0]].subrange(1, 1) =~= Seq::<
                                ChildView,
                            >::empty());
                            assert(drop_empty_nodes(step_views) =~= step_views);
                            assert(pre_iter.cursor_position() == position_at(
                                pre_iter.src_path@,
                                pre_iter.track(),
                            ));
                        }
                    }
                    let ghost views_before = children_views(children@);
                    append_filtered(&mut children, node_elems);
                    proof {
                        lemma_drop_empty_nodes_free(children_views(node_elems@));
                        lemma_no_empty_nodes_append(
                            views_before,
                            drop_empty_nodes(children_views(node_elems@)),
                        );
                    }
                    let ghost views1 = children_views(children@);
                    proof {
                        if depth >= 2 && repeatable_primitive(crate::rule::expr_view(*expr)) {
                            assert(views1 =~= views_before + step_views);
                        }
                    }
                    loop_count = loop_count + 1;
                    if let Some(m) = lr.max {
                        if loop_count == m {
                            proof {
                                if depth >= 2 && primitive_defined(
                                    crate::rule::expr_kind_view(expr.kind),
                                    expr.value@,
                                ) && expr.loop_range == (LoopRange {
                                    min: 1,
                                    max: Option::Some(1usize),
                                }) {
                                    assert(pre_iter.cursor_position() == old(
                                        self,
                                    ).cursor_position());
                                    assert(children_views(children@) =~= Seq::<
                                        ChildView,
                                    >::empty() + drop_empty_nodes(step_views));
                                    assert(children_views(children@) =~= step_views);
                                }
                                if depth >= 2 && repeatable_primitive(
                                    crate::rule::expr_view(*expr),
                                ) {
                                    assert(prim_repeat(
                                        old(self).src_content@,
                                        old(self).src_path@,
                                        pre_iter.track(),
                                        crate::rule::expr_view(*expr),
                                        loop_count as int - 1,
                                        old(self).loop_limit as int,
                                    ) == RepeatOutcome::Matched(step_views, self.track()));
                                }
                            }
                            return (Ok(Some(children)), Ghost(loop_count as int));
                        }
                    }
                    proof {
                        if depth >= 2 && repeatable_primitive(crate::rule::expr_view(*expr)) {
                            match prim_repeat(
                                old(self).src_content@,
                                old(self).src_path@,
                                self.track(),
                                crate::rule::expr_view(*expr),
                                loop_count as int,
                                old(self).loop_limit as int,
                            ) {
                                RepeatOutcome::Matched(cs, t2) => {
                                    assert((views_before + step_views) + cs =~= views_before + (
                                    step_views + cs));
                                },
                                RepeatOutcome::NoMatch => {},
                                RepeatOutcome::Overrun => {},
                            }
                        }
                    }
                },
                None => {
                    proof {
                        if depth >= 2 && repeatable_primitive(crate::rule::expr_view(*expr)) {
                            let s = pre_iter.src_content@;
                            let at = pre_iter.src_i as int;
                            match &expr.kind {
                                RuleExpressionKind::LiteralString => {
                                    if literal_matches_at(s, at, expr.value@) {
                                        assert(false);
                                    }
                                },
                                RuleExpressionKind::CharClass => {
                                    if at < s.len() && regex_hit(expr.value@, seq![s[at]]) {
                                        assert(false);
                                    }
                                },
                                RuleExpressionKind::Wildcard => {
                                    if at < s.len() {
                                        assert(false);
                                    }
                                },
                                _ => {
                                    assert(false);
                                },
                            }
                            assert(primitive_consumes(
                                s,
                                at,
                                crate::rule::expr_view(*expr).kind,
                                expr.value@,
                            ) is None);
                            assert(children_views(children@) + Seq::<ChildView>::empty()
                                =~= children_views(children@));
                        }
                    }
                    let in_range = loop_count >= min_count && (match lr.max {
                        None => true,
                        Some(m) => loop_count <= m,
                    });
                    if in_range {
                        return (Ok(Some(children)), Ghost(loop_count as int));
                    } else {
                        self.src_i = entry_i;
                        self.src_line = entry_line;
                        self.src_latest_line_i = entry_latest;
                        return (Ok(None), Ghost(loop_count as int));
                    }
                },
            }
        }
        proof {
            if depth >= 2 && repeatable_primitive(crate::rule::expr_view(*expr)) {
                assert(children_views(children@) + Seq::<ChildView>::empty() =~= children_views(
                    children@,
                ));
            }
        }
        let in_range = loop_count >= min_count && (match lr.max {
            None => true,
            Some(m) => loop_count <= m,
        });
        if in_range {
            (Ok(Some(children)), Ghost(loop_count as int))
        } else {
            self.src_i = entry_i;
            self.src_line = entry_line;
            self.src_latest_line_i = entry_latest;
            (Ok(None), Ghost(loop_count as int))
        }
    }

    /// The expression core: literal, character class, wildcard, rule
    /// reference, parameterized reference or argument reference, at the
    /// cursor; fails cleanly at the end of input.
    #[verifier::loop_isolation(false)]
    #[verifier::rlimit(80)]
    fn parse_raw_expr(&mut self, rules: &RuleMap, expr: &RuleExpression, depth: u64) -> (r: Result<
        Option<Vec<SyntaxNodeChild>>,
        SyntaxParsingLog,
    >)
        requires
            old(self).wf(),
            old(self).memo_ok(rules@),
            map_join_free(rules@) ==> crate::rule::elem_join_free(
                ElemView::Expression(crate::rule::expr_view(*expr)),
            ),
            map_join_free(rules@) ==> old(self).arg_groups_join_free(),
        ensures
            final(self).wf(),
            final(self).memo_ok(rules@),
            final(self).sess(*old(self)),
            final(self).frames_len_kept(*old(self)),
            map_join_free(rules@) ==> final(self).arg_groups_join_free(),
            r is Ok ==> final(self).stacks_kept(*old(self)),
            r matches Ok(Some(v)) ==> old(self).src_i <= final(self).src_i && final(self).src_i
                <= final(self).src_content@.len(),
            r matches Ok(Some(v)) ==> (map_join_free(rules@) ==> vec_text(v@) == old(
                self,
            ).src_content@.subrange(old(self).src_i as int, final(self).src_i as int)),
            r matches Ok(None) ==> final(self).pos_restored(*old(self)),
            depth >= 1 && expr.kind is CharClass && old(self).src_i < old(
                self,
            ).src_content@.len() && !regex_ok(expr.value@) ==> (r matches Err(e)
                && is_char_class_log(e, expr.value@)),
            depth >= 1 && expr.kind is ArgId && old(self).src_i < old(self).src_content@.len()
                && !stack_has_generics(old(self).arg_maps@, expr.value@) ==> (r matches Err(e)
                && is_unknown_generics_arg_log(e, expr.value@)),
            depth >= 1 && old(self).src_i >= old(self).src_content@.len() ==> r matches Ok(None),
            depth >= 1 && expr.kind is LiteralString && literal_matches_at(
                old(self).src_content@,
                old(self).src_i as int,
                expr.value@,
            ) ==> (r matches Ok(Some(out)) && single_leaf_output(
                out@,
                old(self).cursor_position(),
                expr.value@,
                expr.ast_reflection_style@,
            ) && final(self).track() == advanced_track(old(self).track(), expr.value@)),
            depth >= 1 && expr.kind is LiteralString && !literal_matches_at(
                old(self).src_content@,
                old(self).src_i as int,
                expr.value@,
            ) ==> r matches Ok(None),
            depth >= 1 && expr.kind is Wildcard && old(self).src_i < old(
                self,
            ).src_content@.len() ==> (r matches Ok(Some(out)) && single_leaf_output(
                out@,
                old(self).cursor_position(),
                seq![old(self).src_content@[old(self).src_i as int]],
                expr.ast_reflection_style@,
            ) && final(self).track() == advanced_track(
                old(self).track(),
                seq![old(self).src_content@[old(self).src_i as int]],
            )),
            depth >= 1 && expr.kind is CharClass && old(self).src_i < old(self).src_content@.len()
                && regex_ok(expr.value@) && regex_hit(
                expr.value@,
                seq![old(self).src_content@[old(self).src_i as int]],
            ) ==> (r matches Ok(Some(out)) && single_leaf_output(
                out@,
                old(self).cursor_position(),
                seq![old(self).src_content@[old(self).src_i as int]],
                expr.ast_reflection_style@,
            ) && final(self).track() == advanced_track(
                old(self).track(),
                seq![old(self).src_content@[old(self).src_i as int]],
            )),
            depth >= 1 && expr.kind is CharClass && old(self).src_i < old(self).src_content@.len()
                && regex_ok(expr.value@) && !regex_hit(
                expr.value@,
                seq![old(self).src_content@[old(self).src_i as int]],
            ) ==> r matches Ok(None),
            depth >= 1 && expr.kind is IdWithArgs && old(self).src_i < old(
                self,
            ).src_content@.len() && spec_primitive_rule_name(expr.value@) && generics_args_of(
                crate::rule::expr_kind_view(expr.kind),
            ).len() != 1 ==> (r matches Err(e)
                && e matches SyntaxParsingLog::InvalidGenericsArgumentLength {
                pos,
                expected_arg_len,
            } && pos@ == expr.pos@ && expected_arg_len == 1),
            depth >= 1 && expr.kind is IdWithArgs && old(self).src_i < old(
                self,
            ).src_content@.len() && spec_primitive_rule_name(expr.value@) && generics_args_of(
                crate::rule::expr_kind_view(expr.kind),
            ).len() == 1 && template_args_of(crate::rule::expr_kind_view(expr.kind)).len() != 0
                ==> (r matches Err(e)
                && e matches SyntaxParsingLog::InvalidTemplateArgumentLength {
                pos,
                expected_arg_len,
            } && pos@ == expr.pos@ && expected_arg_len == 0),
            depth >= 1 && expr.kind is IdWithArgs && old(self).src_i < old(
                self,
            ).src_content@.len() && spec_primitive_rule_name(expr.value@) ==> (r matches Ok(
                Some(v),
            ) ==> (children_views(v@)[0] matches ChildView::Leaf(lv) && children_views(v@).len()
                == 1 && lv.style == expr.ast_reflection_style@ && lv.pos == position_at(
                old(self).src_path@,
                final(self).track(),
            ))),
            depth >= 1 && expr.kind is IdWithArgs && old(self).src_i < old(
                self,
            ).src_content@.len() && !spec_primitive_rule_name(expr.value@) && lookup_rule(
                rules@,
                expr.value@,
            ) is None ==> (r matches Err(e) && is_unknown_rule_id_log(e, expr.value@, expr.pos@)),
            lookup_rule(rules@, expr.value@) matches Option::Some(rv) ==> ((depth >= 1
                && expr.kind is IdWithArgs && old(self).src_i < old(self).src_content@.len()
                && !spec_primitive_rule_name(expr.value@) && generics_args_of(
                crate::rule::expr_kind_view(expr.kind),
            ).len() != rv.generics_arg_ids.len()) ==> (r matches Err(e)
                && e matches SyntaxParsingLog::InvalidGenericsArgumentLength {
                pos,
                expected_arg_len,
            } && pos@ == expr.pos@ && expected_arg_len as int == rv.generics_arg_ids.len() as int)),
            lookup_rule(rules@, expr.value@) matches Option::Some(rv) ==> ((depth >= 1
                && expr.kind is IdWithArgs && old(self).src_i < old(self).src_content@.len()
                && !spec_primitive_rule_name(expr.value@) && generics_args_of(
                crate::rule::expr_kind_view(expr.kind),
            ).len() == rv.generics_arg_ids.len() && template_args_of(
                crate::rule::expr_kind_view(expr.kind),
            ).len() != rv.template_arg_ids.len()) ==> (r matches Err(e)
                && e matches SyntaxParsingLog::InvalidTemplateArgumentLength {
                pos,
                expected_arg_len,
            } && pos@ == expr.pos@ && expected_arg_len as int == rv.template_arg_ids.len() as int)),
        decreases depth,
    {
        if depth == 0 {
            return Err(
                SyntaxParsingLog::TooDeepNesting { depth_limit: MAX_NESTING_DEPTH as usize },
            );
        }
        let total = self.src_content.len();
        if self.src_i >= total {
            return Ok(None);
        }
        match &expr.kind {
            RuleExpressionKind::ArgId => {
                let mut found: Option<RuleGroup> = None;
                let maps_len = self.arg_maps.len();
                let mut k: usize = maps_len;
                while k > 0 && found.is_none()
                    invariant
                        0 <= k <= maps_len,
                        maps_len == self.arg_maps@.len(),
                        found matches Some(g) ==> (map_join_free(rules@) ==> group_join_free(
                            group_view(g),
                        )),
                        found is None ==> forall|mi: int|
                            k <= mi < maps_len ==> arg_lookup(
                                (#[trigger] self.arg_maps@[mi]).generics(),
                                expr.value@,
                            ) is None,
                        found is Some ==> stack_has_generics(self.arg_maps@, expr.value@),
                    decreases k,
                {
                    k = k - 1;
                    let hit = self.arg_maps[k].get_generics_group(&expr.value);
                    match hit {
                        Some(g) => {
                            proof {
                                assert(arg_lookup(
                                    self.arg_maps@[k as int].generics(),
                                    expr.value@,
                                ) is Some);
                                assert(stack_has_generics(self.arg_maps@, expr.value@));
                                if map_join_free(rules@) {
                                    lemma_arg_lookup_found(
                                        self.arg_maps@[k as int].generics(),
                                        expr.value@,
                                    );
                                    match arg_lookup(
                                        self.arg_maps@[k as int].generics(),
                                        expr.value@,
                                    ) {
                                        Option::Some(b) => {
                                            let j = choose|j: int|
                                                0 <= j < self.arg_maps@[k as int].generics().len()
                                                    && self.arg_maps@[k as int].generics()[j] == b;
                                            assert(group_join_free(
                                                group_view(
                                                    self.arg_maps@[k as int].generics()[j].group,
                                                ),
                                            ));
                                        },
                                        Option::None => {
                                            assert(false);
                                        },
                                    }
                                }
                            }
                            found = Some(g.deep_clone());
                        },
                        None => {},
                    }
                }
                match found {
                    Some(g) => {
                        let seq_order = RuleElementOrder::Sequential;
                        match self.parse_group(rules, &seq_order, &g, None, depth - 1)? {
                            Some(node_elems) => {
                                let mut elems = node_elems;
                                if !expr.ast_reflection_style.is_reflectable() {
                                    if elems.len() > 0 {
                                        let ghost before = elems@;
                                        let mut first = elems.remove(0);
                                        let ghost first0 = first;
                                        first.set_ast_reflection_style(
                                            expr.ast_reflection_style.deep_clone(),
                                        );
                                        proof {
                                            assert(child_view(first).text() == child_view(
                                                first0,
                                            ).text());
                                        }
                                        let ghost tail = elems@;
                                        elems.insert(0, first);
                                        proof {
                                            assert(tail =~= before.subrange(
                                                1,
                                                before.len() as int,
                                            ));
                                            assert(before[0] == first0);
                                            let cvs0 = children_views(before);
                                            assert(cvs0 == seq![child_view(before[0])]
                                                + children_views(
                                                before.subrange(1, before.len() as int),
                                            ));
                                            assert(cvs0[0] == child_view(first0));
                                            assert(cvs0.subrange(1, cvs0.len() as int)
                                                =~= children_views(tail));
                                            assert(children_text(cvs0) == cvs0[0].text()
                                                + children_text(
                                                cvs0.subrange(1, cvs0.len() as int),
                                            ));
                                            assert(elems@[0] == first);
                                            assert(elems@.subrange(1, elems@.len() as int)
                                                =~= tail);
                                            let cvs1 = children_views(elems@);
                                            assert(cvs1 == seq![child_view(elems@[0])]
                                                + children_views(
                                                elems@.subrange(1, elems@.len() as int),
                                            ));
                                            assert(children_views(
                                                elems@.subrange(1, elems@.len() as int),
                                            ) == children_views(tail));
                                            assert(cvs1[0] == child_view(first));
                                            assert(cvs1.subrange(1, cvs1.len() as int)
                                                =~= children_views(tail));
                                            assert(children_text(cvs1) == cvs1[0].text()
                                                + children_text(
                                                cvs1.subrange(1, cvs1.len() as int),
                                            ));
                                            assert(vec_text(elems@) == vec_text(before));
                                        }
                                    }
                                }
                                Ok(Some(elems))
                            },
                            None => Ok(None),
                        }
                    },
                    None => Err(
                        SyntaxParsingLog::UnknownGenericsArgumentID {
                            arg_id: expr.value.clone(),
                        },
                    ),
                }
            },
            RuleExpressionKind::CharClass => {
                let mut cached: Option<usize> = None;
                let rm_len = self.regex_map.len();
                let mut ci: usize = 0;
                while ci < rm_len && cached.is_none()
                    invariant
                        0 <= ci <= rm_len,
                        rm_len == self.regex_map@.len(),
                        cached matches Some(idx) ==> idx < rm_len && self.regex_map@[
                            idx as int
                        ].pattern_chars() == expr.value@,
                    decreases rm_len - ci,
                {
                    if self.regex_map[ci].pattern_is(&expr.value) {
                        cached = Some(ci);
                    }
                    ci = ci + 1;
                }
                let idx = match cached {
                    Some(idx) => idx,
                    None => {
                        match compile_char_class(expr.value.clone()) {
                            Some(m) => {
                                self.regex_map.push(m);
                                self.regex_map.len() - 1
                            },
                            None => {
                                return Err(
                                    SyntaxParsingLog::InvalidCharClassFormat {
                                        value: expr.value.clone(),
                                    },
                                );
                            },
                        }
                    },
                };
                proof {
                    assert(regex_ok(expr.value@));
                }
                let tar_vec = self.substring_src_content(self.src_i, 1);
                let tar_str = chars_to_string(&tar_vec);
                let hit = char_class_is_match(&self.regex_map[idx], &tar_str);
                proof {
                    assert(tar_vec@ =~= seq![self.src_content@[self.src_i as int]]);
                }
                if hit {
                    let pos = self.get_char_position();
                    let leaf = SyntaxNodeChild::from_leaf_args(
                        pos,
                        tar_str,
                        expr.ast_reflection_style.deep_clone(),
                    );
                    self.add_source_index_by_string(&tar_vec);
                    let mut out: Vec<SyntaxNodeChild> = Vec::new();
                    proof {
                        lemma_vec_text_singleton(leaf);
                        lemma_children_views_push(Seq::empty(), leaf);
                    }
                    out.push(leaf);
                    proof {
                        assert(out@ =~= seq![leaf]);
                        assert(out@ =~= Seq::<SyntaxNodeChild>::empty().push(leaf));
                    }
                    Ok(Some(out))
                } else {
                    Ok(None)
                }
            },
            RuleExpressionKind::Id => self.parse_id_expr(rules, expr, depth - 1),
            RuleExpressionKind::IdWithArgs { generics_args, template_args } => {
                let rule_id = &expr.value;
                proof {
                    lemma_group_views_len(generics_args@);
                    lemma_group_views_len(template_args@);
                    assert(generics_args_of(crate::rule::expr_kind_view(expr.kind)) == group_views(
                        generics_args@,
                    ));
                    assert(template_args_of(crate::rule::expr_kind_view(expr.kind)) == group_views(
                        template_args@,
                    ));
                }
                let join_kw: String = String::from_str("JOIN");
                if rule_id.eq(&join_kw) {
                    proof {
                        if map_join_free(rules@) {
                            assert(spec_primitive_rule_name(expr.value@));
                            assert(false);
                        }
                    }
                    if generics_args.len() != 1 {
                        return Err(
                            SyntaxParsingLog::InvalidGenericsArgumentLength {
                                pos: expr.pos.deep_clone(),
                                expected_arg_len: 1,
                            },
                        );
                    }
                    if template_args.len() != 0 {
                        return Err(
                            SyntaxParsingLog::InvalidTemplateArgumentLength {
                                pos: expr.pos.deep_clone(),
                                expected_arg_len: 0,
                            },
                        );
                    }
                    let tar_arg = &generics_args[0];
                    let seq_order = RuleElementOrder::Sequential;
                    match self.parse_group(rules, &seq_order, tar_arg, None, depth - 1)? {
                        Some(result_elems) => {
                            let joined = join_elements(&result_elems);
                            let pos = self.get_char_position();
                            let leaf = SyntaxNodeChild::from_leaf_args(
                                pos,
                                joined,
                                expr.ast_reflection_style.deep_clone(),
                            );
                            let mut out: Vec<SyntaxNodeChild> = Vec::new();
                            proof {
                                lemma_children_views_push(Seq::empty(), leaf);
                            }
                            out.push(leaf);
                            proof {
                                assert(out@ =~= Seq::<SyntaxNodeChild>::empty().push(leaf));
                            }
                            Ok(Some(out))
                        },
                        None => Ok(None),
                    }
                } else {
                    if is_primitive_rule_name(rule_id) {
                        return Err(
                            SyntaxParsingLog::UncoveredPrimitiveRule {
                                pos: expr.pos.deep_clone(),
                                rule_name: rule_id.clone(),
                            },
                        );
                    }
                    let the_rule = match rules.get_rule(rule_id) {
                        Some(found_rule) => found_rule,
                        None => {
                            return Err(
                                SyntaxParsingLog::UnknownRuleID {
                                    pos: expr.pos.deep_clone(),
                                    rule_id: rule_id.clone(),
                                },
                            );
                        },
                    };
                    if generics_args.len() != the_rule.generics_arg_ids.len() {
                        return Err(
                            SyntaxParsingLog::InvalidGenericsArgumentLength {
                                pos: expr.pos.deep_clone(),
                                expected_arg_len: the_rule.generics_arg_ids.len(),
                            },
                        );
                    }
                    if template_args.len() != the_rule.template_arg_ids.len() {
                        return Err(
                            SyntaxParsingLog::InvalidTemplateArgumentLength {
                                pos: expr.pos.deep_clone(),
                                expected_arg_len: the_rule.template_arg_ids.len(),
                            },
                        );
                    }
                    proof {
                        if map_join_free(rules@) {
                            lemma_group_views_len(generics_args@);
                            lemma_groups_join_free_index(group_views(generics_args@));
                        }
                    }
                    let mut gen_bindings: Vec<ArgBinding> = Vec::new();
                    let glen = generics_args.len();
                    let mut gi: usize = 0;
                    while gi < glen
                        invariant
                            0 <= gi <= glen,
                            glen == generics_args@.len(),
                            glen == the_rule.generics_arg_ids@.len(),
                            gen_bindings@.len() == gi,
                            map_join_free(rules@) ==> forall|j: int|
                                0 <= j < gi ==> group_join_free(
                                    group_view(#[trigger] gen_bindings@[j].group),
                                ),
                        decreases glen - gi,
                    {
                        proof {
                            if map_join_free(rules@) {
                                assert(crate::rule::elem_join_free(
                                    ElemView::Expression(crate::rule::expr_view(*expr)),
                                ));
                                assert(groups_join_free(group_views(generics_args@)));
                                assert(group_views(generics_args@)[gi as int] == group_view(
                                    generics_args@[gi as int],
                                ));
                                assert(group_join_free(group_view(generics_args@[gi as int])));
                            }
                        }
                        gen_bindings.push(
                            ArgBinding {
                                id: the_rule.generics_arg_ids[gi].clone(),
                                group: generics_args[gi].deep_clone(),
                            },
                        );
                        gi = gi + 1;
                    }
                    let mut tmpl_bindings: Vec<ArgBinding> = Vec::new();
                    let tlen = template_args.len();
                    let mut ti: usize = 0;
                    while ti < tlen
                        invariant
                            0 <= ti <= tlen,
                            tlen == template_args@.len(),
                            tlen == the_rule.template_arg_ids@.len(),
                        decreases tlen - ti,
                    {
                        tmpl_bindings.push(
                            ArgBinding {
                                id: the_rule.template_arg_ids[ti].clone(),
                                group: template_args[ti].deep_clone(),
                            },
                        );
                        ti = ti + 1;
                    }
                    let new_arg_map = ArgumentMap {
                        generics_group: gen_bindings,
                        template_group: tmpl_bindings,
                    };
                    let ghost nm = new_arg_map;
                    let ghost pre_push = *self;
                    self.arg_maps.push(new_arg_map);
                    proof {
                        if map_join_free(rules@) {
                            assert forall|i: int, j: int|
                                #![trigger self.arg_maps@[i].generics()[j]]
                                (0 <= i < self.arg_maps@.len() && 0 <= j < self.arg_maps@[
                                    i
                                ].generics().len()) implies group_join_free(
                                group_view(self.arg_maps@[i].generics()[j].group),
                            ) by {
                                if i < pre_push.arg_maps@.len() {
                                    assert(self.arg_maps@[i] == pre_push.arg_maps@[i]);
                                    assert(group_join_free(
                                        group_view(pre_push.arg_maps@[i].generics()[j].group),
                                    ));
                                } else {
                                    assert(self.arg_maps@[i] == nm);
                                }
                            }
                        }
                    }
                    let result = self.parse_id_expr(rules, expr, depth - 1);
                    let ghost post_call = *self;
                    self.arg_maps.pop();
                    proof {
                        assert(self.arg_maps@ =~= post_call.arg_maps@.drop_last());
                        match &result {
                            Ok(_) => {
                                assert(post_call.arg_maps@ == pre_push.arg_maps@.push(nm));
                                assert(self.arg_maps@ =~= pre_push.arg_maps@);
                            },
                            Err(_) => {},
                        }
                        if map_join_free(rules@) {
                            assert forall|i: int, j: int|
                                #![trigger self.arg_maps@[i].generics()[j]]
                                (0 <= i < self.arg_maps@.len() && 0 <= j < self.arg_maps@[
                                    i
                                ].generics().len()) implies group_join_free(
                                group_view(self.arg_maps@[i].generics()[j].group),
                            ) by {
                                assert(self.arg_maps@[i] == post_call.arg_maps@[i]);
                                assert(group_join_free(
                                    group_view(post_call.arg_maps@[i].generics()[j].group),
                                ));
                            }
                        }
                    }
                    result
                }
            },
            RuleExpressionKind::LiteralString => {
                let value_chars = string_to_chars(&expr.value);
                let vlen = value_chars.len();
                if vlen > total - self.src_i {
                    return Ok(None);
                }
                let mut k: usize = 0;
                while k < vlen
                    invariant
                        0 <= k <= vlen,
                        vlen == value_chars@.len(),
                        forall|j: int|
                            0 <= j < k ==> value_chars@[j] == self.src_content@[
                                self.src_i as int + j
                            ],
                    decreases vlen - k,
                {
                    if self.src_content[self.src_i + k] != value_chars[k] {
                        proof {
                            if literal_matches_at(
                                self.src_content@,
                                self.src_i as int,
                                expr.value@,
                            ) {
                                assert(self.src_content@.subrange(
                                    self.src_i as int,
                                    self.src_i as int + vlen as int,
                                )[k as int] == self.src_content@[self.src_i as int + k as int]);
                                assert(false);
                            }
                        }
                        return Ok(None);
                    }
                    k = k + 1;
                }
                proof {
                    assert(value_chars@ =~= self.src_content@.subrange(
                        self.src_i as int,
                        self.src_i as int + vlen as int,
                    ));
                }
                let pos = self.get_char_position();
                let leaf = SyntaxNodeChild::from_leaf_args(
                    pos,
                    expr.value.clone(),
                    expr.ast_reflection_style.deep_clone(),
                );
                self.add_source_index_by_string(&value_chars);
                let mut out: Vec<SyntaxNodeChild> = Vec::new();
                proof {
                    lemma_vec_text_singleton(leaf);
                    lemma_children_views_push(Seq::empty(), leaf);
                }
                out.push(leaf);
                proof {
                    assert(out@ =~= seq![leaf]);
                    assert(out@ =~= Seq::<SyntaxNodeChild>::empty().push(leaf));
                }
                Ok(Some(out))
            },
            RuleExpressionKind::Wildcard => {
                let tar_vec = self.substring_src_content(self.src_i, 1);
                proof {
                    assert(tar_vec@ =~= seq![self.src_content@[self.src_i as int]]);
                }
                let expr_value = chars_to_string(&tar_vec);
                let pos = self.get_char_position();
                let leaf = SyntaxNodeChild::from_leaf_args(
                    pos,
                    expr_value,
                    expr.ast_reflection_style.deep_clone(),
                );
                self.add_source_index_by_string(&tar_vec);
                let mut out: Vec<SyntaxNodeChild> = Vec::new();
                proof {
                    lemma_vec_text_singleton(leaf);
                    lemma_children_views_push(Seq::empty(), leaf);
                }
                out.push(leaf);
                proof {
                    assert(out@ =~= seq![leaf]);
                    assert(out@ =~= Seq::<SyntaxNodeChild>::empty().push(leaf));
                }
                Ok(Some(out))
            },
        }
    }

    /// Matches a rule reference and applies the id-reflection shaping: an
    /// unnamed reflection takes the rule id as its name, and an expansion
    /// hands back the node's children in its place.
    fn parse_id_expr(&mut self, rules: &RuleMap, expr: &RuleExpression, depth: u64) -> (r: Result<
        Option<Vec<SyntaxNodeChild>>,
        SyntaxParsingLog,
    >)
        requires
            old(self).wf(),
            old(self).memo_ok(rules@),
            map_join_free(rules@) ==> old(self).arg_groups_join_free(),
        ensures
            final(self).wf(),
            final(self).memo_ok(rules@),
            final(self).sess(*old(self)),
            final(self).frames_len_kept(*old(self)),
            map_join_free(rules@) ==> final(self).arg_groups_join_free(),
            r is Ok ==> final(self).stacks_kept(*old(self)),
            r matches Ok(Some(v)) ==> old(self).src_i <= final(self).src_i && final(self).src_i
                <= final(self).src_content@.len(),
            r matches Ok(Some(v)) ==> (map_join_free(rules@) ==> vec_text(v@) == old(
                self,
            ).src_content@.subrange(old(self).src_i as int, final(self).src_i as int)),
            r matches Ok(None) ==> final(self).pos_restored(*old(self)),
            depth >= 1 && lookup_rule(rules@, expr.value@) is None ==> (r matches Err(e)
                && is_unknown_rule_id_log(e, expr.value@, expr.pos@)),
            lookup_rule(rules@, expr.value@) matches Option::Some(rv) ==> ((depth >= 11 && !old(
                self,
            ).enable_memoization && old(self).src_i < old(self).src_content@.len()
                && flat_once_rule(rv)) ==> (match seq_consumes(
                old(self).src_content@,
                old(self).src_path@,
                old(self).track(),
                rv.group.sub_elems,
                old(self).loop_limit as int,
            ) {
                RepeatOutcome::Matched(cs, t2) => r matches Ok(Some(v)) && children_views(v@)
                    == id_shaped_output(cs, expr.ast_reflection_style@, expr.value@)
                    && final(self).track() == t2,
                RepeatOutcome::NoMatch => r matches Ok(None),
                RepeatOutcome::Overrun => (r matches Err(e)
                    && e matches SyntaxParsingLog::TooLongRepetition { loop_limit } && loop_limit
                    == old(self).loop_limit),
            })),
        decreases depth,
    {
        if depth == 0 {
            return Err(
                SyntaxParsingLog::TooDeepNesting { depth_limit: MAX_NESTING_DEPTH as usize },
            );
        }
        match self.parse_rule(rules, &expr.value, &expr.pos, depth - 1)? {
            Some(node_elem) => {
                match node_elem {
                    SyntaxNodeChild::Node(bx) => {
                        let node = *bx;
                        let sub_style = match &expr.ast_reflection_style {
                            ASTReflectionStyle::Reflection(elem_name) => {
                                if elem_name.as_str().is_empty() {
                                    ASTReflectionStyle::Reflection(expr.value.clone())
                                } else {
                                    ASTReflectionStyle::Reflection(elem_name.clone())
                                }
                            },
                            other => other.deep_clone(),
                        };
                        proof {
                            assert(sub_style@ == id_shaped_style(
                                expr.ast_reflection_style@,
                                expr.value@,
                            ));
                        }
                        if expr.ast_reflection_style.is_expandable() {
                            Ok(Some(node.subelems))
                        } else {
                            let new_node = SyntaxNodeChild::from_node_args(node.subelems, sub_style);
                            let mut out: Vec<SyntaxNodeChild> = Vec::new();
                            proof {
                                lemma_vec_text_singleton(new_node);
                                lemma_children_views_push(Seq::empty(), new_node);
                            }
                            out.push(new_node);
                            proof {
                                assert(out@ =~= seq![new_node]);
                                assert(out@ =~= Seq::<SyntaxNodeChild>::empty().push(new_node));
                            }
                            Ok(Some(out))
                        }
                    },
                    SyntaxNodeChild::Leaf(_) => {
                        proof {
                            assert(false);
                        }
                        Ok(None)
                    },
                }
            },
            None => Ok(None),
        }
    }
}

} // verus!
