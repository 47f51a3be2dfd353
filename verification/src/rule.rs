//! The immutable rule graph that the evaluator interprets: groups,
//! expressions, loop ranges, lookahead marks and the map from rule ids to
//! their groups.

use vstd::prelude::*;
use vstd::string::StringExecFns;
use crate::tree::{ASTReflectionStyle, CharacterPosition, PositionView, StyleView};

verus! {

/// Whether a group combines its children as an ordered choice or as a
/// sequence.
#[derive(Clone, Copy)]
pub enum RuleGroupKind {
    Choice,
    Sequence,
}

/// A lookahead mark on a group or an expression.
#[derive(Clone, Copy)]
pub enum RuleElementLookaheadKind {
    NoLookahead,
    Positive,
    Negative,
}

/// Repetition bounds: at least `min` matches, at most `max` (`None`
/// standing for no upper bound).
#[derive(Clone, Copy)]
pub struct LoopRange {
    pub min: usize,
    pub max: Option<usize>,
}

impl LoopRange {
    /// A bounded range must not have its minimum above its maximum.
    pub open spec fn is_valid(self) -> bool {
        match self.max {
            Option::Some(m) => self.min <= m,
            Option::None => true,
        }
    }

    pub fn new(min: usize, max: Option<usize>) -> (r: LoopRange)
        ensures
            r == (LoopRange { min, max }),
    {
        LoopRange { min, max }
    }

    /// The range matching exactly one repetition.
    pub fn get_single_loop() -> (r: LoopRange)
        ensures
            r == (LoopRange { min: 1, max: Option::Some(1usize) }),
    {
        LoopRange { min: 1, max: Option::Some(1) }
    }
}

/// Whether the children of a group are matched in declaration order or as
/// an unordered group, each alternative exactly once per the given range.
#[derive(Clone, Copy)]
pub enum RuleElementOrder {
    Sequential,
    Random(LoopRange),
}

/// What an expression matches.
pub enum RuleExpressionKind {
    LiteralString,
    CharClass,
    Wildcard,
    Id,
    IdWithArgs { generics_args: Vec<RuleGroup>, template_args: Vec<RuleGroup> },
    ArgId,
}

/// An atomic rule element: a literal, a character class, a wildcard, a
/// rule reference (possibly with arguments) or a generics-argument
/// reference.
pub struct RuleExpression {
    pub pos: CharacterPosition,
    pub kind: RuleExpressionKind,
    pub value: String,
    pub ast_reflection_style: ASTReflectionStyle,
    pub lookahead_kind: RuleElementLookaheadKind,
    pub loop_range: LoopRange,
}

/// A group of rule elements.
pub struct RuleGroup {
    pub uuid: u128,
    pub kind: RuleGroupKind,
    pub sub_elems: Vec<RuleElement>,
    pub ast_reflection_style: ASTReflectionStyle,
    pub elem_order: RuleElementOrder,
    pub lookahead_kind: RuleElementLookaheadKind,
    pub loop_range: LoopRange,
}

/// One child of a group.
pub enum RuleElement {
    Group(Box<RuleGroup>),
    Expression(Box<RuleExpression>),
}

/// A named rule: its group and its formal argument ids.
pub struct Rule {
    pub group: RuleGroup,
    pub generics_arg_ids: Vec<String>,
    pub template_arg_ids: Vec<String>,
}

/// One entry of the rule map.
pub struct RuleMapEntry {
    pub id: String,
    pub rule: Rule,
}

/// The compiled grammar: rules by id, and the start rule.
pub struct RuleMap {
    pub rules: Vec<RuleMapEntry>,
    pub start_rule_id: String,
    pub start_rule_pos: CharacterPosition,
}

/// Mathematical image of an expression kind.
pub ghost enum ExprKindView {
    LiteralString,
    CharClass,
    Wildcard,
    Id,
    IdWithArgs { generics_args: Seq<GroupView>, template_args: Seq<GroupView> },
    ArgId,
}

/// Mathematical image of an expression.
pub ghost struct ExprView {
    pub pos: PositionView,
    pub kind: ExprKindView,
    pub value: Seq<char>,
    pub style: StyleView,
    pub lookahead_kind: RuleElementLookaheadKind,
    pub loop_range: LoopRange,
}

/// Mathematical image of a group.
pub ghost struct GroupView {
    pub uuid: u128,
    pub kind: RuleGroupKind,
    pub sub_elems: Seq<ElemView>,
    pub style: StyleView,
    pub elem_order: RuleElementOrder,
    pub lookahead_kind: RuleElementLookaheadKind,
    pub loop_range: LoopRange,
}

/// Mathematical image of a group child.
pub ghost enum ElemView {
    Group(GroupView),
    Expression(ExprView),
}

/// Mathematical image of a rule.
pub ghost struct RuleView {
    pub group: GroupView,
    pub generics_arg_ids: Seq<Seq<char>>,
    pub template_arg_ids: Seq<Seq<char>>,
}

pub open spec fn group_view(g: RuleGroup) -> GroupView
    decreases g,
{
    GroupView {
        uuid: g.uuid,
        kind: g.kind,
        sub_elems: elem_views(g.sub_elems@),
        style: g.ast_reflection_style@,
        elem_order: g.elem_order,
        lookahead_kind: g.lookahead_kind,
        loop_range: g.loop_range,
    }
}

pub open spec fn elem_views(s: Seq<RuleElement>) -> Seq<ElemView>
    decreases s,
{
    if s.len() == 0 {
        Seq::empty()
    } else {
        seq![elem_view(s[0])] + elem_views(s.subrange(1, s.len() as int))
    }
}

pub open spec fn elem_view(e: RuleElement) -> ElemView
    decreases e,
{
    match e {
        RuleElement::Group(g) => ElemView::Group(group_view(*g)),
        RuleElement::Expression(x) => ElemView::Expression(expr_view(*x)),
    }
}

pub open spec fn expr_view(x: RuleExpression) -> ExprView
    decreases x,
{
    ExprView {
        pos: x.pos@,
        kind: expr_kind_view(x.kind),
        value: x.value@,
        style: x.ast_reflection_style@,
        lookahead_kind: x.lookahead_kind,
        loop_range: x.loop_range,
    }
}

pub open spec fn expr_kind_view(k: RuleExpressionKind) -> ExprKindView
    decreases k,
{
    match k {
        RuleExpressionKind::LiteralString => ExprKindView::LiteralString,
        RuleExpressionKind::CharClass => ExprKindView::CharClass,
        RuleExpressionKind::Wildcard => ExprKindView::Wildcard,
        RuleExpressionKind::Id => ExprKindView::Id,
        RuleExpressionKind::IdWithArgs { generics_args, template_args } => ExprKindView::IdWithArgs {
            generics_args: group_views(generics_args@),
            template_args: group_views(template_args@),
        },
        RuleExpressionKind::ArgId => ExprKindView::ArgId,
    }
}

pub open spec fn group_views(s: Seq<RuleGroup>) -> Seq<GroupView>
    decreases s,
{
    if s.len() == 0 {
        Seq::empty()
    } else {
        seq![group_view(s[0])] + group_views(s.subrange(1, s.len() as int))
    }
}

pub open spec fn rule_view(r: Rule) -> RuleView {
    RuleView {
        group: group_view(r.group),
        generics_arg_ids: r.generics_arg_ids@.map_values(|id: String| id@),
        template_arg_ids: r.template_arg_ids@.map_values(|id: String| id@),
    }
}

impl View for RuleMap {
    type V = Seq<(Seq<char>, RuleView)>;

    open spec fn view(&self) -> Seq<(Seq<char>, RuleView)> {
        self.rules@.map_values(|e: RuleMapEntry| (e.id@, rule_view(e.rule)))
    }
}

/// The rule bound to `id`, if any; the first entry wins.
pub open spec fn lookup_rule(entries: Seq<(Seq<char>, RuleView)>, id: Seq<char>) -> Option<RuleView>
    decreases entries,
{
    if entries.len() == 0 {
        Option::None
    } else if entries[0].0 == id {
        Option::Some(entries[0].1)
    } else {
        lookup_rule(entries.subrange(1, entries.len() as int), id)
    }
}

proof fn lemma_lookup_rule_step(entries: Seq<(Seq<char>, RuleView)>, id: Seq<char>, i: int)
    requires
        0 <= i < entries.len(),
        entries[i].0 != id,
    ensures
        lookup_rule(entries.subrange(i, entries.len() as int), id) == lookup_rule(
            entries.subrange(i + 1, entries.len() as int),
            id,
        ),
{
    let tail = entries.subrange(i, entries.len() as int);
    assert(tail[0] == entries[i]);
    assert(tail.subrange(1, tail.len() as int) =~= entries.subrange(i + 1, entries.len() as int));
}

impl RuleMap {
    /// Looks the rule up by id.
    pub fn get_rule(&self, id: &String) -> (r: Option<&Rule>)
        ensures
            r is Some <==> lookup_rule(self@, id@) is Some,
            r matches Some(rule) ==> lookup_rule(self@, id@) == Option::Some(rule_view(*rule)),
    {
        let n = self.rules.len();
        let mut i: usize = 0;
        proof {
            assert(self@.subrange(0, n as int) =~= self@);
        }
        while i < n
            invariant
                0 <= i <= n,
                n == self.rules.len(),
                lookup_rule(self@, id@) == lookup_rule(self@.subrange(i as int, n as int), id@),
            decreases n - i,
        {
            proof {
                assert(self@.subrange(i as int, n as int)[0] == self@[i as int]);
                assert(self@[i as int] == (self.rules@[i as int].id@, rule_view(
                    self.rules@[i as int].rule,
                )));
            }
            if self.rules[i].id.eq(id) {
                proof {
                    let tail = self@.subrange(i as int, n as int);
                    assert(tail.len() > 0 && tail[0].0 == id@);
                    assert(lookup_rule(tail, id@) == Option::Some(tail[0].1));
                }
                return Some(&self.rules[i].rule);
            }
            proof {
                lemma_lookup_rule_step(self@, id@, i as int);
            }
            i = i + 1;
        }
        proof {
            assert(self@.subrange(n as int, n as int).len() == 0);
        }
        None
    }
}

/// The built-in rule names. `JOIN` is the only one.
pub open spec fn spec_primitive_rule_name(name: Seq<char>) -> bool {
    name == "JOIN"@
}

/// Whether `name` is one of the built-in primitive rule names.
pub fn is_primitive_rule_name(name: &String) -> (r: bool)
    ensures
        r == spec_primitive_rule_name(name@),
{
    let keyword: String = String::from_str("JOIN");
    name.eq(&keyword)
}

/// No expression anywhere below the group invokes the `JOIN` primitive.
pub open spec fn group_join_free(g: GroupView) -> bool
    decreases g,
{
    elems_join_free(g.sub_elems)
}

pub open spec fn elems_join_free(s: Seq<ElemView>) -> bool
    decreases s,
{
    if s.len() == 0 {
        true
    } else {
        elem_join_free(s[0]) && elems_join_free(s.subrange(1, s.len() as int))
    }
}

pub open spec fn elem_join_free(e: ElemView) -> bool
    decreases e,
{
    match e {
        ElemView::Group(g) => group_join_free(g),
        ElemView::Expression(x) => match x.kind {
            ExprKindView::IdWithArgs { generics_args, template_args } => !spec_primitive_rule_name(
                x.value,
            ) && groups_join_free(generics_args) && groups_join_free(template_args),
            _ => true,
        },
    }
}

pub open spec fn groups_join_free(s: Seq<GroupView>) -> bool
    decreases s,
{
    if s.len() == 0 {
        true
    } else {
        group_join_free(s[0]) && groups_join_free(s.subrange(1, s.len() as int))
    }
}

/// No rule of the map invokes the `JOIN` primitive anywhere.
pub open spec fn map_join_free(entries: Seq<(Seq<char>, RuleView)>) -> bool {
    forall|i: int| 0 <= i < entries.len() ==> group_join_free(#[trigger] entries[i].1.group)
}

pub proof fn lemma_elem_views_len(s: Seq<RuleElement>)
    ensures
        elem_views(s).len() == s.len(),
        forall|i: int| 0 <= i < s.len() ==> elem_views(s)[i] == elem_view(s[i]),
    decreases s,
{
    if s.len() > 0 {
        let tail = s.subrange(1, s.len() as int);
        lemma_elem_views_len(tail);
        assert forall|i: int| 0 <= i < s.len() implies elem_views(s)[i] == elem_view(s[i]) by {
            if i > 0 {
                assert(tail[i - 1] == s[i]);
            }
        }
    }
}

pub proof fn lemma_elem_views_push(s: Seq<RuleElement>, x: RuleElement)
    ensures
        elem_views(s.push(x)) == elem_views(s).push(elem_view(x)),
    decreases s,
{
    if s.len() == 0 {
        reveal_with_fuel(elem_views, 2);
        assert(s.push(x)[0] == x);
        assert(s.push(x).subrange(1, 1) =~= Seq::<RuleElement>::empty());
        assert(elem_views(s.push(x)) =~= elem_views(s).push(elem_view(x)));
    } else {
        assert(s.push(x)[0] == s[0]);
        assert(s.push(x).subrange(1, s.len() as int + 1) =~= s.subrange(1, s.len() as int).push(x));
        lemma_elem_views_push(s.subrange(1, s.len() as int), x);
        assert(elem_views(s.push(x)) =~= elem_views(s).push(elem_view(x)));
    }
}

pub proof fn lemma_group_views_len(s: Seq<RuleGroup>)
    ensures
        group_views(s).len() == s.len(),
        forall|i: int| 0 <= i < s.len() ==> group_views(s)[i] == group_view(s[i]),
    decreases s,
{
    if s.len() > 0 {
        let tail = s.subrange(1, s.len() as int);
        lemma_group_views_len(tail);
        assert forall|i: int| 0 <= i < s.len() implies group_views(s)[i] == group_view(s[i]) by {
            if i > 0 {
                assert(tail[i - 1] == s[i]);
            }
        }
    }
}

pub proof fn lemma_group_views_push(s: Seq<RuleGroup>, x: RuleGroup)
    ensures
        group_views(s.push(x)) == group_views(s).push(group_view(x)),
    decreases s,
{
    if s.len() == 0 {
        reveal_with_fuel(group_views, 2);
        assert(s.push(x)[0] == x);
        assert(s.push(x).subrange(1, 1) =~= Seq::<RuleGroup>::empty());
        assert(group_views(s.push(x)) =~= group_views(s).push(group_view(x)));
    } else {
        assert(s.push(x)[0] == s[0]);
        assert(s.push(x).subrange(1, s.len() as int + 1) =~= s.subrange(1, s.len() as int).push(x));
        lemma_group_views_push(s.subrange(1, s.len() as int), x);
        assert(group_views(s.push(x)) =~= group_views(s).push(group_view(x)));
    }
}

pub proof fn lemma_elems_join_free_index(s: Seq<ElemView>)
    ensures
        elems_join_free(s) ==> forall|i: int| 0 <= i < s.len() ==> elem_join_free(#[trigger] s[i]),
    decreases s,
{
    if s.len() > 0 {
        let tail = s.subrange(1, s.len() as int);
        lemma_elems_join_free_index(tail);
        if elems_join_free(s) {
            assert forall|i: int| 0 <= i < s.len() implies elem_join_free(#[trigger] s[i]) by {
                if i > 0 {
                    assert(tail[i - 1] == s[i]);
                }
            }
        }
    }
}

pub proof fn lemma_groups_join_free_index(s: Seq<GroupView>)
    ensures
        groups_join_free(s) ==> forall|i: int|
            0 <= i < s.len() ==> group_join_free(#[trigger] s[i]),
    decreases s,
{
    if s.len() > 0 {
        let tail = s.subrange(1, s.len() as int);
        lemma_groups_join_free_index(tail);
        if groups_join_free(s) {
            assert forall|i: int| 0 <= i < s.len() implies group_join_free(#[trigger] s[i]) by {
                if i > 0 {
                    assert(tail[i - 1] == s[i]);
                }
            }
        }
    }
}

/// In a map free of `JOIN`, any rule that a lookup finds has a
/// `JOIN`-free group.
pub proof fn lemma_lookup_rule_join_free(entries: Seq<(Seq<char>, RuleView)>, id: Seq<char>)
    requires
        map_join_free(entries),
    ensures
        lookup_rule(entries, id) matches Option::Some(rv) ==> group_join_free(rv.group),
    decreases entries,
{
    if entries.len() > 0 {
        let tail = entries.subrange(1, entries.len() as int);
        assert(group_join_free(entries[0].1.group));
        assert forall|i: int| 0 <= i < tail.len() implies group_join_free(
            #[trigger] tail[i].1.group,
        ) by {
            assert(tail[i] == entries[i + 1]);
        }
        lemma_lookup_rule_join_free(tail, id);
    }
}

/// Structural copies of a run of rule elements.
pub fn clone_elems(v: &Vec<RuleElement>) -> (r: Vec<RuleElement>)
    ensures
        elem_views(r@) == elem_views(v@),
    decreases *v,
{
    let mut out: Vec<RuleElement> = Vec::new();
    let n = v.len();
    let mut i: usize = 0;
    proof {
        assert(v@.subrange(0, 0) =~= Seq::<RuleElement>::empty());
    }
    while i < n
        invariant
            0 <= i <= n,
            n == v@.len(),
            elem_views(out@) == elem_views(v@.subrange(0, i as int)),
        decreases n - i,
    {
        let e = v[i].deep_clone();
        proof {
            lemma_elem_views_push(out@, e);
            lemma_elem_views_push(v@.subrange(0, i as int), v@[i as int]);
            assert(v@.subrange(0, i as int + 1) =~= v@.subrange(0, i as int).push(v@[i as int]));
        }
        out.push(e);
        i = i + 1;
    }
    proof {
        assert(v@.subrange(0, n as int) =~= v@);
    }
    out
}

/// Structural copies of a run of groups.
pub fn clone_groups(v: &Vec<RuleGroup>) -> (r: Vec<RuleGroup>)
    ensures
        group_views(r@) == group_views(v@),
    decreases *v,
{
    let mut out: Vec<RuleGroup> = Vec::new();
    let n = v.len();
    let mut i: usize = 0;
    proof {
        assert(v@.subrange(0, 0) =~= Seq::<RuleGroup>::empty());
    }
    while i < n
        invariant
            0 <= i <= n,
            n == v@.len(),
            group_views(out@) == group_views(v@.subrange(0, i as int)),
        decreases n - i,
    {
        let g = v[i].deep_clone();
        proof {
            lemma_group_views_push(out@, g);
            lemma_group_views_push(v@.subrange(0, i as int), v@[i as int]);
            assert(v@.subrange(0, i as int + 1) =~= v@.subrange(0, i as int).push(v@[i as int]));
        }
        out.push(g);
        i = i + 1;
    }
    proof {
        assert(v@.subrange(0, n as int) =~= v@);
    }
    out
}

impl RuleGroup {
    /// A structural copy of this group.
    pub fn deep_clone(&self) -> (r: RuleGroup)
        ensures
            group_view(r) == group_view(*self),
        decreases *self,
    {
        RuleGroup {
            uuid: self.uuid,
            kind: self.kind,
            sub_elems: clone_elems(&self.sub_elems),
            ast_reflection_style: self.ast_reflection_style.deep_clone(),
            elem_order: self.elem_order,
            lookahead_kind: self.lookahead_kind,
            loop_range: self.loop_range,
        }
    }
}

impl RuleElement {
    /// A structural copy of this element.
    pub fn deep_clone(&self) -> (r: RuleElement)
        ensures
            elem_view(r) == elem_view(*self),
        decreases *self,
    {
        match self {
            RuleElement::Group(g) => RuleElement::Group(Box::new(g.deep_clone())),
            RuleElement::Expression(x) => RuleElement::Expression(Box::new(x.deep_clone())),
        }
    }
}

impl RuleExpression {
    /// A structural copy of this expression.
    pub fn deep_clone(&self) -> (r: RuleExpression)
        ensures
            expr_view(r) == expr_view(*self),
        decreases *self,
    {
        RuleExpression {
            pos: self.pos.deep_clone(),
            kind: match &self.kind {
                RuleExpressionKind::LiteralString => RuleExpressionKind::LiteralString,
                RuleExpressionKind::CharClass => RuleExpressionKind::CharClass,
                RuleExpressionKind::Wildcard => RuleExpressionKind::Wildcard,
                RuleExpressionKind::Id => RuleExpressionKind::Id,
                RuleExpressionKind::IdWithArgs { generics_args, template_args } => RuleExpressionKind::IdWithArgs {
                    generics_args: clone_groups(generics_args),
                    template_args: clone_groups(template_args),
                },
                RuleExpressionKind::ArgId => RuleExpressionKind::ArgId,
            },
            value: self.value.clone(),
            ast_reflection_style: self.ast_reflection_style.deep_clone(),
            lookahead_kind: self.lookahead_kind,
            loop_range: self.loop_range,
        }
    }
}

} // verus!
