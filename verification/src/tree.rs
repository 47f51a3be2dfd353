//! Concrete syntax tree produced by the parser: nodes, leaves, and the
//! AST-reflection tag that controls how each element shows up in the
//! abstract view of the tree.

use vstd::prelude::*;
use vstd::string::StringExecFns;
use crate::ext::fresh_uuid;

verus! {

/// Structured report of a failed tree access.
pub enum TreeLog {
    Unknown {},
    CharacterPositionNotFound { uuid: u128 },
    ElementNotNode { uuid: u128 },
    ElementNotLeaf { uuid: u128 },
    NodeChildNotFound { parent_uuid: u128, index: usize },
    ReflectableChildNotFound { parent_uuid: u128, index: usize },
}

/// A position in the source text: code-point index, zero-based line and
/// column, with an optional file label.
pub struct CharacterPosition {
    pub file_path: Option<String>,
    pub index: usize,
    pub line: usize,
    pub column: usize,
}

/// Mathematical image of a `CharacterPosition`.
pub ghost struct PositionView {
    pub file_path: Option<Seq<char>>,
    pub index: int,
    pub line: int,
    pub column: int,
}

impl View for CharacterPosition {
    type V = PositionView;

    open spec fn view(&self) -> PositionView {
        PositionView {
            file_path: match self.file_path {
                Option::Some(p) => Option::Some(p@),
                Option::None => Option::None,
            },
            index: self.index as int,
            line: self.line as int,
            column: self.column as int,
        }
    }
}

impl CharacterPosition {
    pub fn new(file_path: Option<String>, index: usize, line: usize, column: usize) -> (r:
        CharacterPosition)
        ensures
            r == (CharacterPosition { file_path, index, line, column }),
    {
        CharacterPosition { file_path, index, line, column }
    }

    /// A structural copy of this position.
    pub fn deep_clone(&self) -> (r: CharacterPosition)
        ensures
            r == *self,
    {
        CharacterPosition {
            file_path: match &self.file_path {
                Option::Some(p) => Option::Some(p.clone()),
                Option::None => Option::None,
            },
            index: self.index,
            line: self.line,
            column: self.column,
        }
    }

    /// The all-zero sentinel position without a file label.
    pub fn get_empty() -> (r: CharacterPosition)
        ensures
            r.file_path is None,
            r.index == 0,
            r.line == 0,
            r.column == 0,
    {
        CharacterPosition { file_path: Option::None, index: 0, line: 0, column: 0 }
    }
}

/// How an element is reflected into the abstract syntax view: visible
/// under a name, hidden, or replaced by its children on attachment.
pub enum ASTReflectionStyle {
    Reflection(String),
    NoReflection,
    Expansion,
}

/// Mathematical image of an `ASTReflectionStyle`.
pub ghost enum StyleView {
    Reflection(Seq<char>),
    NoReflection,
    Expansion,
}

impl StyleView {
    pub open spec fn is_reflectable(self) -> bool {
        !(self is NoReflection)
    }

    pub open spec fn is_expandable(self) -> bool {
        self is Expansion
    }
}

impl View for ASTReflectionStyle {
    type V = StyleView;

    open spec fn view(&self) -> StyleView {
        match self {
            ASTReflectionStyle::Reflection(name) => StyleView::Reflection(name@),
            ASTReflectionStyle::NoReflection => StyleView::NoReflection,
            ASTReflectionStyle::Expansion => StyleView::Expansion,
        }
    }
}

impl ASTReflectionStyle {
    /// Combines the configured reversal flag with an element's
    /// reflectability into a concrete style.
    pub fn from_config(reverse_ast_reflection: bool, is_reflectable: bool, elem_name: String) -> (r:
        ASTReflectionStyle)
        ensures
            r@ == (if is_reflectable == reverse_ast_reflection {
                StyleView::Reflection(elem_name@)
            } else {
                StyleView::NoReflection
            }),
    {
        if is_reflectable {
            if reverse_ast_reflection {
                ASTReflectionStyle::Reflection(elem_name)
            } else {
                ASTReflectionStyle::NoReflection
            }
        } else {
            if reverse_ast_reflection {
                ASTReflectionStyle::NoReflection
            } else {
                ASTReflectionStyle::Reflection(elem_name)
            }
        }
    }

    pub fn is_reflectable(&self) -> (r: bool)
        ensures
            r == self@.is_reflectable(),
    {
        match self {
            ASTReflectionStyle::NoReflection => false,
            _ => true,
        }
    }

    pub fn is_expandable(&self) -> (r: bool)
        ensures
            r == self@.is_expandable(),
    {
        match self {
            ASTReflectionStyle::Expansion => true,
            _ => false,
        }
    }

    /// A structural copy of this style.
    pub fn deep_clone(&self) -> (r: ASTReflectionStyle)
        ensures
            r == *self,
    {
        match self {
            ASTReflectionStyle::Reflection(name) => ASTReflectionStyle::Reflection(name.clone()),
            ASTReflectionStyle::NoReflection => ASTReflectionStyle::NoReflection,
            ASTReflectionStyle::Expansion => ASTReflectionStyle::Expansion,
        }
    }
}

/// An inner node of the concrete syntax tree.
pub struct SyntaxNode {
    pub uuid: u128,
    pub subelems: Vec<SyntaxNodeChild>,
    pub ast_reflection_style: ASTReflectionStyle,
}

/// A leaf of the concrete syntax tree: a matched span of source text.
pub struct SyntaxLeaf {
    pub uuid: u128,
    pub pos: CharacterPosition,
    pub value: String,
    pub ast_reflection_style: ASTReflectionStyle,
}

/// One child of a node: either a nested node or a leaf.
pub enum SyntaxNodeChild {
    Node(Box<SyntaxNode>),
    Leaf(Box<SyntaxLeaf>),
}

/// The tree handed back by a successful parse.
pub struct SyntaxTree {
    child: SyntaxNodeChild,
}

/// Mathematical image of a tree element. Identifiers are left out: they
/// are fresh random values, identity for diagnostics only.
pub ghost enum ChildView {
    Node(NodeView),
    Leaf(LeafView),
}

/// Mathematical image of a node.
pub ghost struct NodeView {
    pub style: StyleView,
    pub children: Seq<ChildView>,
}

/// Mathematical image of a leaf.
pub ghost struct LeafView {
    pub pos: PositionView,
    pub value: Seq<char>,
    pub style: StyleView,
}

pub open spec fn leaf_view(l: SyntaxLeaf) -> LeafView {
    LeafView { pos: l.pos@, value: l.value@, style: l.ast_reflection_style@ }
}

pub open spec fn child_view(c: SyntaxNodeChild) -> ChildView
    decreases c,
{
    match c {
        SyntaxNodeChild::Node(n) => ChildView::Node(node_view(*n)),
        SyntaxNodeChild::Leaf(l) => ChildView::Leaf(leaf_view(*l)),
    }
}

pub open spec fn node_view(n: SyntaxNode) -> NodeView
    decreases n,
{
    NodeView { style: n.ast_reflection_style@, children: children_views(n.subelems@) }
}

pub open spec fn children_views(s: Seq<SyntaxNodeChild>) -> Seq<ChildView>
    decreases s,
{
    if s.len() == 0 {
        Seq::empty()
    } else {
        seq![child_view(s[0])] + children_views(s.subrange(1, s.len() as int))
    }
}

impl View for SyntaxNodeChild {
    type V = ChildView;

    open spec fn view(&self) -> ChildView {
        child_view(*self)
    }
}

impl View for SyntaxNode {
    type V = NodeView;

    open spec fn view(&self) -> NodeView {
        node_view(*self)
    }
}

impl View for SyntaxLeaf {
    type V = LeafView;

    open spec fn view(&self) -> LeafView {
        leaf_view(*self)
    }
}

impl View for SyntaxTree {
    type V = ChildView;

    closed spec fn view(&self) -> ChildView {
        child_view(self.child)
    }
}

impl ChildView {
    /// Whether this element is visible in the abstract syntax view.
    pub open spec fn style(self) -> StyleView {
        match self {
            ChildView::Node(n) => n.style,
            ChildView::Leaf(l) => l.style,
        }
    }

    pub open spec fn is_reflectable(self) -> bool {
        self.style().is_reflectable()
    }

    /// The source text below this element: the values of all its leaves,
    /// visible or hidden, in depth-first order.
    pub open spec fn text(self) -> Seq<char>
        decreases self,
    {
        match self {
            ChildView::Node(n) => children_text(n.children),
            ChildView::Leaf(l) => l.value,
        }
    }

    /// The source text below this element that the abstract view keeps: a
    /// hidden node or leaf contributes nothing, at any depth.
    pub open spec fn ast_text(self) -> Seq<char>
        decreases self,
    {
        match self {
            ChildView::Node(n) => if n.style.is_reflectable() {
                children_ast_text(n.children)
            } else {
                Seq::empty()
            },
            ChildView::Leaf(l) => if l.style.is_reflectable() {
                l.value
            } else {
                Seq::empty()
            },
        }
    }
}

/// The concatenated text of a sequence of elements, in order.
pub open spec fn children_text(s: Seq<ChildView>) -> Seq<char>
    decreases s,
{
    if s.len() == 0 {
        Seq::empty()
    } else {
        s[0].text() + children_text(s.subrange(1, s.len() as int))
    }
}

/// The concatenated reflectable text of a sequence of elements, in order.
pub open spec fn children_ast_text(s: Seq<ChildView>) -> Seq<char>
    decreases s,
{
    if s.len() == 0 {
        Seq::empty()
    } else {
        s[0].ast_text() + children_ast_text(s.subrange(1, s.len() as int))
    }
}

pub proof fn lemma_children_views_push(s: Seq<SyntaxNodeChild>, x: SyntaxNodeChild)
    ensures
        children_views(s.push(x)) == children_views(s).push(child_view(x)),
    decreases s,
{
    if s.len() == 0 {
        reveal_with_fuel(children_views, 2);
        assert(s.push(x)[0] == x);
        assert(s.push(x).subrange(1, 1) =~= Seq::<SyntaxNodeChild>::empty());
        assert(children_views(s.push(x)) =~= children_views(s).push(child_view(x)));
    } else {
        assert(s.push(x)[0] == s[0]);
        assert(s.push(x).subrange(1, s.len() as int + 1) =~= s.subrange(1, s.len() as int).push(x));
        lemma_children_views_push(s.subrange(1, s.len() as int), x);
        assert(children_views(s.push(x)) =~= children_views(s).push(child_view(x)));
    }
}

pub proof fn lemma_children_views_len(s: Seq<SyntaxNodeChild>)
    ensures
        children_views(s).len() == s.len(),
        forall|i: int| 0 <= i < s.len() ==> children_views(s)[i] == child_view(s[i]),
    decreases s,
{
    if s.len() > 0 {
        let tail = s.subrange(1, s.len() as int);
        lemma_children_views_len(tail);
        assert forall|i: int| 0 <= i < s.len() implies children_views(s)[i] == child_view(s[i]) by {
            if i > 0 {
                assert(tail[i - 1] == s[i]);
            }
        }
    }
}

pub proof fn lemma_children_text_push(t: Seq<ChildView>, c: ChildView)
    ensures
        children_text(t.push(c)) == children_text(t) + c.text(),
    decreases t,
{
    if t.len() == 0 {
        reveal_with_fuel(children_text, 2);
        assert(t.push(c)[0] == c);
        assert(t.push(c).subrange(1, 1) =~= Seq::<ChildView>::empty());
        assert(children_text(t.push(c)) =~= children_text(t) + c.text());
    } else {
        assert(t.push(c)[0] == t[0]);
        assert(t.push(c).subrange(1, t.len() as int + 1) =~= t.subrange(1, t.len() as int).push(c));
        lemma_children_text_push(t.subrange(1, t.len() as int), c);
        assert(children_text(t.push(c)) =~= children_text(t) + c.text());
    }
}

pub proof fn lemma_children_text_append(t1: Seq<ChildView>, t2: Seq<ChildView>)
    ensures
        children_text(t1 + t2) == children_text(t1) + children_text(t2),
    decreases t1,
{
    if t1.len() == 0 {
        assert(t1 + t2 =~= t2);
        assert(children_text(t1) + children_text(t2) =~= children_text(t2));
    } else {
        assert((t1 + t2)[0] == t1[0]);
        assert((t1 + t2).subrange(1, (t1 + t2).len() as int) =~= t1.subrange(1, t1.len() as int)
            + t2);
        lemma_children_text_append(t1.subrange(1, t1.len() as int), t2);
        assert(children_text(t1 + t2) =~= children_text(t1) + children_text(t2));
    }
}

pub proof fn lemma_children_ast_text_push(t: Seq<ChildView>, c: ChildView)
    ensures
        children_ast_text(t.push(c)) == children_ast_text(t) + c.ast_text(),
    decreases t,
{
    if t.len() == 0 {
        reveal_with_fuel(children_ast_text, 2);
        assert(t.push(c)[0] == c);
        assert(t.push(c).subrange(1, 1) =~= Seq::<ChildView>::empty());
        assert(children_ast_text(t.push(c)) =~= children_ast_text(t) + c.ast_text());
    } else {
        assert(t.push(c)[0] == t[0]);
        assert(t.push(c).subrange(1, t.len() as int + 1) =~= t.subrange(1, t.len() as int).push(c));
        lemma_children_ast_text_push(t.subrange(1, t.len() as int), c);
        assert(children_ast_text(t.push(c)) =~= children_ast_text(t) + c.ast_text());
    }
}

impl SyntaxTree {
    pub fn from_node(node: SyntaxNodeChild) -> (r: SyntaxTree)
        ensures
            r@ == node@,
    {
        SyntaxTree { child: node }
    }

    /// Wraps fresh children in a new root node with the given style.
    pub fn from_node_args(subelems: Vec<SyntaxNodeChild>, ast_reflection_style: ASTReflectionStyle)
        -> (r: SyntaxTree)
        ensures
            r@ == ChildView::Node(
                NodeView { style: ast_reflection_style@, children: children_views(subelems@) },
            ),
    {
        SyntaxTree {
            child: SyntaxNodeChild::from_node_args(subelems, ast_reflection_style),
        }
    }

    pub fn get_child_ref(&self) -> (r: &SyntaxNodeChild)
        ensures
            r@ == self@,
    {
        &self.child
    }
}

/// The identifier of an element, identity for diagnostics only.
pub open spec fn uuid_of(c: SyntaxNodeChild) -> u128 {
    match c {
        SyntaxNodeChild::Node(n) => n.uuid,
        SyntaxNodeChild::Leaf(l) => l.uuid,
    }
}

impl SyntaxNodeChild {
    /// Builds a node element with a fresh identifier.
    pub fn from_node_args(subelems: Vec<SyntaxNodeChild>, ast_reflection_style: ASTReflectionStyle)
        -> (r: SyntaxNodeChild)
        ensures
            r@ == ChildView::Node(
                NodeView { style: ast_reflection_style@, children: children_views(subelems@) },
            ),
    {
        let uuid = fresh_uuid();
        SyntaxNodeChild::Node(Box::new(SyntaxNode { uuid, subelems, ast_reflection_style }))
    }

    /// Builds a leaf element with a fresh identifier.
    pub fn from_leaf_args(pos: CharacterPosition, value: String, ast_reflection: ASTReflectionStyle)
        -> (r: SyntaxNodeChild)
        ensures
            r@ == ChildView::Leaf(LeafView { pos: pos@, value: value@, style: ast_reflection@ }),
    {
        let uuid = fresh_uuid();
        SyntaxNodeChild::Leaf(Box::new(SyntaxLeaf { uuid, pos, value, ast_reflection_style: ast_reflection }))
    }

    pub fn get_node(&self) -> (r: Result<&SyntaxNode, TreeLog>)
        ensures
            self@ is Node <==> r is Ok,
            r matches Ok(n) ==> self@ == ChildView::Node(n@),
            r matches Err(e) ==> e == (TreeLog::ElementNotNode { uuid: uuid_of(*self) }),
    {
        match self {
            SyntaxNodeChild::Node(node) => Ok(node),
            SyntaxNodeChild::Leaf(leaf) => Err(TreeLog::ElementNotNode { uuid: leaf.uuid }),
        }
    }

    pub fn get_leaf(&self) -> (r: Result<&SyntaxLeaf, TreeLog>)
        ensures
            self@ is Leaf <==> r is Ok,
            r matches Ok(l) ==> self@ == ChildView::Leaf(l@),
            r matches Err(e) ==> e == (TreeLog::ElementNotLeaf { uuid: uuid_of(*self) }),
    {
        match self {
            SyntaxNodeChild::Node(node) => Err(TreeLog::ElementNotLeaf { uuid: node.uuid }),
            SyntaxNodeChild::Leaf(leaf) => Ok(leaf),
        }
    }

    pub fn is_node(&self) -> (r: bool)
        ensures
            r == (self@ is Node),
    {
        match self {
            SyntaxNodeChild::Node(_) => true,
            _ => false,
        }
    }

    pub fn is_reflectable(&self) -> (r: bool)
        ensures
            r == self@.is_reflectable(),
    {
        match self {
            SyntaxNodeChild::Node(node) => node.is_reflectable(),
            SyntaxNodeChild::Leaf(leaf) => leaf.is_reflectable(),
        }
    }

    pub fn get_ast_reflection_style(&self) -> (r: &ASTReflectionStyle)
        ensures
            r@ == self@.style(),
    {
        match self {
            SyntaxNodeChild::Node(node) => &node.ast_reflection_style,
            SyntaxNodeChild::Leaf(leaf) => &leaf.ast_reflection_style,
        }
    }

    /// Replaces the reflection style; everything else, the identifier
    /// included, is kept.
    pub fn set_ast_reflection_style(&mut self, ast_reflection_style: ASTReflectionStyle)
        ensures
            uuid_of(*final(self)) == uuid_of(*old(self)),
            final(self)@ == (match old(self)@ {
                ChildView::Node(nv) => ChildView::Node(
                    NodeView { style: ast_reflection_style@, children: nv.children },
                ),
                ChildView::Leaf(lv) => ChildView::Leaf(
                    LeafView { pos: lv.pos, value: lv.value, style: ast_reflection_style@ },
                ),
            }),
    {
        match self {
            SyntaxNodeChild::Node(node) => node.ast_reflection_style = ast_reflection_style,
            SyntaxNodeChild::Leaf(leaf) => leaf.ast_reflection_style = ast_reflection_style,
        }
    }
}

/// Structural copies of a run of elements, in order.
pub fn clone_children(v: &Vec<SyntaxNodeChild>) -> (r: Vec<SyntaxNodeChild>)
    ensures
        children_views(r@) == children_views(v@),
    decreases *v,
{
    let mut out: Vec<SyntaxNodeChild> = Vec::new();
    let n = v.len();
    let mut i: usize = 0;
    proof {
        assert(v@.subrange(0, 0) =~= Seq::<SyntaxNodeChild>::empty());
    }
    while i < n
        invariant
            0 <= i <= n,
            n == v@.len(),
            children_views(out@) == children_views(v@.subrange(0, i as int)),
        decreases n - i,
    {
        let c = v[i].deep_clone();
        proof {
            lemma_children_views_push(out@, c);
            lemma_children_views_push(v@.subrange(0, i as int), v@[i as int]);
            assert(v@.subrange(0, i as int + 1) =~= v@.subrange(0, i as int).push(v@[i as int]));
        }
        out.push(c);
        i = i + 1;
    }
    proof {
        assert(v@.subrange(0, n as int) =~= v@);
    }
    out
}

impl SyntaxNodeChild {
    /// A structural copy of this element; the identifiers are kept.
    pub fn deep_clone(&self) -> (r: SyntaxNodeChild)
        ensures
            r@ == self@,
        decreases *self,
    {
        match self {
            SyntaxNodeChild::Node(node) => SyntaxNodeChild::Node(
                Box::new(
                    SyntaxNode {
                        uuid: node.uuid,
                        subelems: clone_children(&node.subelems),
                        ast_reflection_style: node.ast_reflection_style.deep_clone(),
                    },
                ),
            ),
            SyntaxNodeChild::Leaf(leaf) => SyntaxNodeChild::Leaf(
                Box::new(
                    SyntaxLeaf {
                        uuid: leaf.uuid,
                        pos: leaf.pos.deep_clone(),
                        value: leaf.value.clone(),
                        ast_reflection_style: leaf.ast_reflection_style.deep_clone(),
                    },
                ),
            ),
        }
    }
}

impl SyntaxNode {
    pub fn new(uuid: u128, subelems: Vec<SyntaxNodeChild>, ast_reflection_style: ASTReflectionStyle)
        -> (r: SyntaxNode)
        ensures
            r@ == (NodeView {
                style: ast_reflection_style@,
                children: children_views(subelems@),
            }),
            r.uuid == uuid,
    {
        SyntaxNode { uuid, subelems, ast_reflection_style }
    }

    pub fn get_children(&self) -> (r: &Vec<SyntaxNodeChild>)
        ensures
            children_views(r@) == self@.children,
    {
        &self.subelems
    }

    pub fn is_reflectable(&self) -> (r: bool)
        ensures
            r == self@.style.is_reflectable(),
    {
        self.ast_reflection_style.is_reflectable()
    }

    /// Whether some direct child node carries one of the given
    /// reflection names.
    pub fn exists_child_node(&self, patterns: Vec<&str>) -> (r: bool)
        ensures
            r == (first_matching_node(self@.children, pattern_views(patterns@)) is Some),
    {
        self.find_first_child_node(patterns).is_some()
    }

    /// The children the given test accepts, in order: there are
    /// selection flags, one per child and each reported by the test,
    /// such that the result holds exactly the selected children.
    pub fn filter_children<F: Fn(&SyntaxNodeChild) -> bool>(&self, f: F) -> (r: Vec<
        &SyntaxNodeChild,
    >)
        requires
            forall|i: int|
                0 <= i < self.subelems@.len() ==> f.requires((&self.subelems@[i],)),
        ensures
            forall|j: int|
                0 <= j < r@.len() ==> self.subelems@.contains(*(#[trigger] r@[j])),
            exists|sel: Seq<bool>|
                #![trigger selected_views(self.subelems@, sel)]
                sel.len() == self.subelems@.len() && (forall|i: int|
                    0 <= i < sel.len() ==> f.ensures((&self.subelems@[i],), sel[i]))
                    && r@.map_values(|c: &SyntaxNodeChild| c@) == selected_views(
                    self.subelems@,
                    sel,
                ),
    {
        let mut elems: Vec<&SyntaxNodeChild> = Vec::new();
        let ghost mut sel: Seq<bool> = Seq::empty();
        let n = self.subelems.len();
        let mut i: usize = 0;
        proof {
            assert(self.subelems@.subrange(0, 0) =~= Seq::<SyntaxNodeChild>::empty());
            assert(elems@.map_values(|c: &SyntaxNodeChild| c@) =~= selected_views(
                self.subelems@.subrange(0, 0),
                sel,
            ));
        }
        while i < n
            invariant
                0 <= i <= n,
                n == self.subelems@.len(),
                sel.len() == i,
                forall|k: int|
                    0 <= k < self.subelems@.len() ==> f.requires((&self.subelems@[k],)),
                forall|j: int|
                    0 <= j < elems@.len() ==> self.subelems@.contains(*(#[trigger] elems@[j])),
                forall|q: int| 0 <= q < i ==> f.ensures((&self.subelems@[q],), sel[q]),
                elems@.map_values(|c: &SyntaxNodeChild| c@) == selected_views(
                    self.subelems@.subrange(0, i as int),
                    sel,
                ),
            decreases n - i,
        {
            let keep = f(&self.subelems[i]);
            proof {
                lemma_selected_views_push(
                    self.subelems@.subrange(0, i as int),
                    sel,
                    self.subelems@[i as int],
                    keep,
                );
                assert(self.subelems@.subrange(0, i as int + 1) =~= self.subelems@.subrange(
                    0,
                    i as int,
                ).push(self.subelems@[i as int]));
            }
            let ghost pre = elems@;
            if keep {
                elems.push(&self.subelems[i]);
                proof {
                    assert(*elems@[elems@.len() - 1] == self.subelems@[i as int]);
                    assert(self.subelems@.contains(self.subelems@[i as int]));
                    assert(elems@.map_values(|c: &SyntaxNodeChild| c@) =~= pre.map_values(
                        |c: &SyntaxNodeChild| c@,
                    ).push(child_view(self.subelems@[i as int])));
                }
            } else {
                proof {
                    assert(elems@.map_values(|c: &SyntaxNodeChild| c@) =~= pre.map_values(
                        |c: &SyntaxNodeChild| c@,
                    ));
                }
            }
            proof {
                sel = sel.push(keep);
            }
            i = i + 1;
        }
        proof {
            assert(self.subelems@.subrange(0, n as int) =~= self.subelems@);
        }
        elems
    }

    /// The reflectable children, in order.
    pub fn get_reflectable_children(&self) -> (r: Vec<&SyntaxNodeChild>)
        ensures
            r@.map_values(|c: &SyntaxNodeChild| c@) == reflectable_views(self@.children),
    {
        let mut elems: Vec<&SyntaxNodeChild> = Vec::new();
        let n = self.subelems.len();
        let mut i: usize = 0;
        proof {
            lemma_children_views_len(self.subelems@);
            assert(self.subelems@.subrange(0, 0) =~= Seq::<SyntaxNodeChild>::empty());
            assert(elems@.map_values(|c: &SyntaxNodeChild| c@) =~= reflectable_views(
                children_views(self.subelems@.subrange(0, 0)),
            ));
        }
        while i < n
            invariant
                0 <= i <= n,
                n == self.subelems@.len(),
                elems@.map_values(|c: &SyntaxNodeChild| c@) == reflectable_views(
                    children_views(self.subelems@.subrange(0, i as int)),
                ),
            decreases n - i,
        {
            proof {
                lemma_children_views_len(self.subelems@);
                lemma_children_views_push(
                    self.subelems@.subrange(0, i as int),
                    self.subelems@[i as int],
                );
                lemma_reflectable_views_push(
                    children_views(self.subelems@.subrange(0, i as int)),
                    child_view(self.subelems@[i as int]),
                );
                assert(self.subelems@.subrange(0, i as int + 1) =~= self.subelems@.subrange(
                    0,
                    i as int,
                ).push(self.subelems@[i as int]));
            }
            let ghost pre = elems@;
            if self.subelems[i].is_reflectable() {
                elems.push(&self.subelems[i]);
                proof {
                    assert(elems@.map_values(|c: &SyntaxNodeChild| c@) =~= pre.map_values(
                        |c: &SyntaxNodeChild| c@,
                    ).push(child_view(self.subelems@[i as int])));
                }
            } else {
                proof {
                    assert(elems@.map_values(|c: &SyntaxNodeChild| c@) =~= pre.map_values(
                        |c: &SyntaxNodeChild| c@,
                    ));
                }
            }
            i = i + 1;
        }
        proof {
            assert(self.subelems@.subrange(0, n as int) =~= self.subelems@);
        }
        elems
    }

    /// The first direct child node carrying one of the given reflection
    /// names, if any.
    pub fn find_first_child_node(&self, patterns: Vec<&str>) -> (r: Option<&SyntaxNode>)
        ensures
            r is Some <==> first_matching_node(self@.children, pattern_views(patterns@)) is Some,
            r matches Some(node) ==> first_matching_node(self@.children, pattern_views(patterns@))
                == Option::Some(node@),
    {
        let ghost pats = pattern_views(patterns@);
        let ghost cvs = children_views(self.subelems@);
        let n = self.subelems.len();
        let mut i: usize = 0;
        proof {
            lemma_children_views_len(self.subelems@);
            assert(cvs.subrange(0, cvs.len() as int) =~= cvs);
        }
        while i < n
            invariant
                0 <= i <= n,
                n == self.subelems@.len(),
                cvs == children_views(self.subelems@),
                pats == pattern_views(patterns@),
                cvs.len() == n,
                forall|k: int| 0 <= k < n ==> cvs[k] == child_view(self.subelems@[k]),
                first_matching_node(cvs, pats) == first_matching_node(
                    cvs.subrange(i as int, n as int),
                    pats,
                ),
            decreases n - i,
        {
            proof {
                assert(cvs.subrange(i as int, n as int)[0] == cvs[i as int]);
                assert(cvs.subrange(i as int, n as int).subrange(
                    1,
                    (n - i) as int,
                ) =~= cvs.subrange(i as int + 1, n as int));
            }
            match &self.subelems[i] {
                SyntaxNodeChild::Node(node) => {
                    match &node.ast_reflection_style {
                        ASTReflectionStyle::Reflection(name) => {
                            if name_matches_any(name, &patterns) {
                                return Some(node);
                            }
                        },
                        _ => {},
                    }
                },
                _ => {},
            }
            i = i + 1;
        }
        None
    }

    /// All direct child nodes carrying one of the given reflection
    /// names, in order.
    pub fn find_child_nodes(&self, patterns: Vec<&str>) -> (r: Vec<&SyntaxNode>)
        ensures
            r@.map_values(|n: &SyntaxNode| n@) == matching_nodes(
                self@.children,
                pattern_views(patterns@),
            ),
    {
        let ghost pats = pattern_views(patterns@);
        let mut nodes: Vec<&SyntaxNode> = Vec::new();
        let n = self.subelems.len();
        let mut i: usize = 0;
        proof {
            lemma_children_views_len(self.subelems@);
            assert(self.subelems@.subrange(0, 0) =~= Seq::<SyntaxNodeChild>::empty());
            assert(nodes@.map_values(|nd: &SyntaxNode| nd@) =~= matching_nodes(
                children_views(self.subelems@.subrange(0, 0)),
                pats,
            ));
        }
        while i < n
            invariant
                0 <= i <= n,
                n == self.subelems@.len(),
                pats == pattern_views(patterns@),
                nodes@.map_values(|nd: &SyntaxNode| nd@) == matching_nodes(
                    children_views(self.subelems@.subrange(0, i as int)),
                    pats,
                ),
            decreases n - i,
        {
            proof {
                lemma_children_views_len(self.subelems@);
                lemma_children_views_push(
                    self.subelems@.subrange(0, i as int),
                    self.subelems@[i as int],
                );
                lemma_matching_nodes_push(
                    children_views(self.subelems@.subrange(0, i as int)),
                    child_view(self.subelems@[i as int]),
                    pats,
                );
                assert(self.subelems@.subrange(0, i as int + 1) =~= self.subelems@.subrange(
                    0,
                    i as int,
                ).push(self.subelems@[i as int]));
            }
            let ghost pre = nodes@;
            let ghost cv = child_view(self.subelems@[i as int]);
            proof {
                reveal_with_fuel(matching_nodes, 2);
                assert(seq![cv].subrange(1, 1) =~= Seq::<ChildView>::empty());
            }
            match &self.subelems[i] {
                SyntaxNodeChild::Node(node) => {
                    let matched = match &node.ast_reflection_style {
                        ASTReflectionStyle::Reflection(name) => name_matches_any(name, &patterns),
                        _ => false,
                    };
                    proof {
                        assert(cv == ChildView::Node(node_view(**node)));
                        if matched {
                            assert(matching_nodes(seq![cv], pats) =~= seq![node_view(**node)]);
                        } else {
                            assert(matching_nodes(seq![cv], pats) =~= Seq::<NodeView>::empty());
                        }
                    }
                    if matched {
                        nodes.push(node);
                        proof {
                            assert(nodes@.map_values(|nd: &SyntaxNode| nd@) =~= pre.map_values(
                                |nd: &SyntaxNode| nd@,
                            ) + matching_nodes(seq![cv], pats));
                        }
                    } else {
                        proof {
                            assert(nodes@.map_values(|nd: &SyntaxNode| nd@) =~= pre.map_values(
                                |nd: &SyntaxNode| nd@,
                            ) + matching_nodes(seq![cv], pats));
                        }
                    }
                },
                SyntaxNodeChild::Leaf(_) => {
                    proof {
                        assert(matching_nodes(seq![cv], pats) =~= Seq::<NodeView>::empty());
                        assert(nodes@.map_values(|nd: &SyntaxNode| nd@) =~= pre.map_values(
                            |nd: &SyntaxNode| nd@,
                        ) + matching_nodes(seq![cv], pats));
                    }
                },
            }
            i = i + 1;
        }
        proof {
            assert(self.subelems@.subrange(0, n as int) =~= self.subelems@);
        }
        nodes
    }

    /// The position of the first direct leaf child; without one the
    /// position is not determined.
    pub fn get_position(&self) -> (r: Result<CharacterPosition, TreeLog>)
        ensures
            r is Ok <==> first_leaf_position(self@.children) is Some,
            r matches Ok(cp) ==> first_leaf_position(self@.children) == Option::Some(cp@),
            r matches Err(e) ==> e == (TreeLog::CharacterPositionNotFound { uuid: self.uuid }),
    {
        let ghost cvs = children_views(self.subelems@);
        let n = self.subelems.len();
        let mut i: usize = 0;
        proof {
            lemma_children_views_len(self.subelems@);
            assert(cvs.subrange(0, cvs.len() as int) =~= cvs);
        }
        while i < n
            invariant
                0 <= i <= n,
                n == self.subelems@.len(),
                cvs == children_views(self.subelems@),
                cvs.len() == n,
                forall|k: int| 0 <= k < n ==> cvs[k] == child_view(self.subelems@[k]),
                first_leaf_position(cvs) == first_leaf_position(
                    cvs.subrange(i as int, n as int),
                ),
            decreases n - i,
        {
            proof {
                assert(cvs.subrange(i as int, n as int)[0] == cvs[i as int]);
                assert(cvs.subrange(i as int, n as int).subrange(
                    1,
                    (n - i) as int,
                ) =~= cvs.subrange(i as int + 1, n as int));
            }
            match &self.subelems[i] {
                SyntaxNodeChild::Leaf(each_leaf) => {
                    return Ok(each_leaf.pos.deep_clone());
                },
                _ => {},
            }
            i = i + 1;
        }
        Err(TreeLog::CharacterPositionNotFound { uuid: self.uuid })
    }

    /// The reflectable child at the given index among the reflectable
    /// children alone.
    pub fn get_child_at(&self, index: usize) -> (r: Result<&SyntaxNodeChild, TreeLog>)
        ensures
            r is Ok <==> index < reflectable_views(self@.children).len(),
            r matches Ok(c) ==> c@ == reflectable_views(self@.children)[index as int],
            r matches Err(e) ==> e == (TreeLog::ReflectableChildNotFound {
                parent_uuid: self.uuid,
                index,
            }),
    {
        let ghost cvs = children_views(self.subelems@);
        let n = self.subelems.len();
        let mut elem_i: usize = 0;
        let mut reflectable_elem_i: usize = 0;
        proof {
            lemma_children_views_len(self.subelems@);
            assert(self.subelems@.subrange(0, 0) =~= Seq::<SyntaxNodeChild>::empty());
        }
        while elem_i < n
            invariant
                0 <= elem_i <= n,
                n == self.subelems@.len(),
                cvs == children_views(self.subelems@),
                cvs.len() == n,
                forall|k: int| 0 <= k < n ==> cvs[k] == child_view(self.subelems@[k]),
                reflectable_elem_i as int == reflectable_views(
                    cvs.subrange(0, elem_i as int),
                ).len(),
                reflectable_elem_i <= index,
            decreases n - elem_i,
        {
            proof {
                lemma_reflectable_views_push(cvs.subrange(0, elem_i as int), cvs[elem_i as int]);
                assert(cvs.subrange(0, elem_i as int + 1) =~= cvs.subrange(0, elem_i as int).push(
                    cvs[elem_i as int],
                ));
                assert(cvs =~= cvs.subrange(0, elem_i as int + 1) + cvs.subrange(
                    elem_i as int + 1,
                    n as int,
                ));
                lemma_reflectable_views_append(
                    cvs.subrange(0, elem_i as int + 1),
                    cvs.subrange(elem_i as int + 1, n as int),
                );
            }
            if self.subelems[elem_i].is_reflectable() {
                if reflectable_elem_i == index {
                    return Ok(&self.subelems[elem_i]);
                }
                reflectable_elem_i = reflectable_elem_i + 1;
            }
            elem_i = elem_i + 1;
        }
        proof {
            assert(cvs.subrange(0, n as int) =~= cvs);
        }
        Err(TreeLog::ReflectableChildNotFound { parent_uuid: self.uuid, index })
    }

    /// The reflectable child at the given index, which must be a node.
    pub fn get_node_child_at(&self, index: usize) -> (r: Result<&SyntaxNode, TreeLog>)
        ensures
            r is Ok <==> index < reflectable_views(self@.children).len()
                && reflectable_views(self@.children)[index as int] is Node,
            r matches Ok(node) ==> reflectable_views(self@.children)[index as int]
                == ChildView::Node(node@),
            index >= reflectable_views(self@.children).len() ==> (r matches Err(e) && e == (
            TreeLog::ReflectableChildNotFound { parent_uuid: self.uuid, index })),
            index < reflectable_views(self@.children).len() && !(reflectable_views(
                self@.children,
            )[index as int] is Node) ==> (r matches Err(e) && e is ElementNotNode),
    {
        match self.get_child_at(index) {
            Ok(child) => child.get_node(),
            Err(e) => Err(e),
        }
    }

    /// The reflectable child at the given index, which must be a leaf.
    pub fn get_leaf_child_at(&self, index: usize) -> (r: Result<&SyntaxLeaf, TreeLog>)
        ensures
            r is Ok <==> index < reflectable_views(self@.children).len()
                && reflectable_views(self@.children)[index as int] is Leaf,
            r matches Ok(leaf) ==> reflectable_views(self@.children)[index as int]
                == ChildView::Leaf(leaf@),
            index >= reflectable_views(self@.children).len() ==> (r matches Err(e) && e == (
            TreeLog::ReflectableChildNotFound { parent_uuid: self.uuid, index })),
            index < reflectable_views(self@.children).len() && !(reflectable_views(
                self@.children,
            )[index as int] is Leaf) ==> (r matches Err(e) && e is ElementNotLeaf),
    {
        match self.get_child_at(index) {
            Ok(child) => child.get_leaf(),
            Err(e) => Err(e),
        }
    }

    /// The reflectable text below this node: the values of its visible
    /// leaves, in order, skipping hidden nodes and leaves at any depth.
    pub fn join_child_leaf_values(&self) -> (r: String)
        ensures
            r@ == children_ast_text(self@.children),
        decreases *self,
    {
        let mut s = String::new();
        let n = self.subelems.len();
        let mut i: usize = 0;
        proof {
            assert(self.subelems@.subrange(0, 0) =~= Seq::<SyntaxNodeChild>::empty());
        }
        while i < n
            invariant
                0 <= i <= n,
                n == self.subelems@.len(),
                s@ == children_ast_text(children_views(self.subelems@.subrange(0, i as int))),
            decreases n - i,
        {
            proof {
                lemma_children_views_push(
                    self.subelems@.subrange(0, i as int),
                    self.subelems@[i as int],
                );
                lemma_children_ast_text_push(
                    children_views(self.subelems@.subrange(0, i as int)),
                    child_view(self.subelems@[i as int]),
                );
                assert(self.subelems@.subrange(0, i as int + 1) =~= self.subelems@.subrange(
                    0,
                    i as int,
                ).push(self.subelems@[i as int]));
            }
            match &self.subelems[i] {
                SyntaxNodeChild::Node(node) => {
                    if node.ast_reflection_style.is_reflectable() {
                        let sub = node.join_child_leaf_values();
                        s.append(sub.as_str());
                    }
                },
                SyntaxNodeChild::Leaf(leaf) => {
                    if leaf.ast_reflection_style.is_reflectable() {
                        s.append(leaf.value.as_str());
                    }
                },
            }
            i = i + 1;
        }
        proof {
            assert(self.subelems@.subrange(0, n as int) =~= self.subelems@);
        }
        s
    }
}

impl SyntaxLeaf {
    pub fn new(uuid: u128, pos: CharacterPosition, value: String, ast_reflection_style: ASTReflectionStyle)
        -> (r: SyntaxLeaf)
        ensures
            r@ == (LeafView { pos: pos@, value: value@, style: ast_reflection_style@ }),
            r.uuid == uuid,
    {
        SyntaxLeaf { pos, value, ast_reflection_style, uuid }
    }

    pub fn is_reflectable(&self) -> (r: bool)
        ensures
            r == self@.style.is_reflectable(),
    {
        self.ast_reflection_style.is_reflectable()
    }
}

/// The values of all leaves below one element, in depth-first order.
pub open spec fn leaf_values(c: ChildView) -> Seq<Seq<char>>
    decreases c,
{
    match c {
        ChildView::Node(n) => leaf_values_of(n.children),
        ChildView::Leaf(l) => seq![l.value],
    }
}

/// The values of all leaves below a run of elements, in depth-first
/// order.
pub open spec fn leaf_values_of(s: Seq<ChildView>) -> Seq<Seq<char>>
    decreases s,
{
    if s.len() == 0 {
        Seq::empty()
    } else {
        leaf_values(s[0]) + leaf_values_of(s.subrange(1, s.len() as int))
    }
}

/// The concatenation of a run of texts.
pub open spec fn concat_texts(l: Seq<Seq<char>>) -> Seq<char>
    decreases l,
{
    if l.len() == 0 {
        Seq::empty()
    } else {
        l[0] + concat_texts(l.subrange(1, l.len() as int))
    }
}

/// The total length of the first `k` texts.
pub open spec fn prefix_len(l: Seq<Seq<char>>, k: int) -> int
    decreases k,
{
    if k <= 0 {
        0
    } else {
        prefix_len(l, k - 1) + l[k - 1].len()
    }
}

proof fn lemma_concat_texts_append(a: Seq<Seq<char>>, b: Seq<Seq<char>>)
    ensures
        concat_texts(a + b) == concat_texts(a) + concat_texts(b),
    decreases a,
{
    if a.len() == 0 {
        assert(a + b =~= b);
        assert(concat_texts(a) + concat_texts(b) =~= concat_texts(b));
    } else {
        assert((a + b)[0] == a[0]);
        assert((a + b).subrange(1, (a + b).len() as int) =~= a.subrange(1, a.len() as int) + b);
        lemma_concat_texts_append(a.subrange(1, a.len() as int), b);
        assert(concat_texts(a + b) =~= concat_texts(a) + concat_texts(b));
    }
}

/// Flattening the depth-first leaf values of one element gives back its
/// text.
pub proof fn lemma_leaves_flatten(c: ChildView)
    ensures
        concat_texts(leaf_values(c)) == c.text(),
    decreases c,
{
    match c {
        ChildView::Node(n) => {
            lemma_leaves_flatten_seq(n.children);
        },
        ChildView::Leaf(l) => {
            reveal_with_fuel(concat_texts, 2);
            assert(seq![l.value][0] == l.value);
            assert(seq![l.value].subrange(1, 1) =~= Seq::<Seq<char>>::empty());
            assert(concat_texts(leaf_values(c)) =~= l.value);
        },
    }
}

/// Flattening the depth-first leaf values of a run of elements gives
/// back their concatenated text.
pub proof fn lemma_leaves_flatten_seq(s: Seq<ChildView>)
    ensures
        concat_texts(leaf_values_of(s)) == children_text(s),
    decreases s,
{
    if s.len() > 0 {
        let tail = s.subrange(1, s.len() as int);
        lemma_leaves_flatten(s[0]);
        lemma_leaves_flatten_seq(tail);
        lemma_concat_texts_append(leaf_values(s[0]), leaf_values_of(tail));
    }
}

proof fn lemma_prefix_len_tail(l: Seq<Seq<char>>, k: int)
    requires
        1 <= k <= l.len(),
    ensures
        prefix_len(l, k) == l[0].len() + prefix_len(l.subrange(1, l.len() as int), k - 1),
    decreases k,
{
    let t = l.subrange(1, l.len() as int);
    if k == 1 {
        reveal_with_fuel(prefix_len, 2);
        assert(prefix_len(l, 1) == prefix_len(l, 0) + l[0].len());
    } else {
        lemma_prefix_len_tail(l, k - 1);
        assert(t[k - 2] == l[k - 1]);
    }
}

/// Each text of the run occupies exactly the segment of the
/// concatenation between the total length before it and through it.
pub proof fn lemma_texts_partition(l: Seq<Seq<char>>, k: int)
    requires
        0 <= k < l.len(),
    ensures
        0 <= prefix_len(l, k),
        prefix_len(l, k) + l[k].len() == prefix_len(l, k + 1),
        prefix_len(l, k + 1) <= concat_texts(l).len(),
        l[k] == concat_texts(l).subrange(prefix_len(l, k), prefix_len(l, k + 1)),
    decreases l,
{
    let t = l.subrange(1, l.len() as int);
    if k == 0 {
        reveal_with_fuel(prefix_len, 2);
        assert(prefix_len(l, 1) == l[0].len());
        assert(concat_texts(l) == l[0] + concat_texts(t));
        assert(l[0] =~= concat_texts(l).subrange(0, l[0].len() as int));
    } else {
        lemma_texts_partition(t, k - 1);
        lemma_prefix_len_tail(l, k);
        lemma_prefix_len_tail(l, k + 1);
        assert(t[k - 1] == l[k]);
        assert(concat_texts(l) == l[0] + concat_texts(t));
        let p = prefix_len(t, k - 1);
        let q = prefix_len(t, k);
        assert(l[k] =~= concat_texts(l).subrange(l[0].len() + p, l[0].len() + q)) by {
            assert(t[k - 1] == concat_texts(t).subrange(p, q));
            assert forall|i: int| 0 <= i < q - p implies #[trigger] t[k - 1][i] == concat_texts(
                l,
            )[l[0].len() + p + i] by {
                assert(concat_texts(l)[l[0].len() + p + i] == concat_texts(t)[p + i]);
                assert(concat_texts(t)[p + i] == concat_texts(t).subrange(p, q)[i]);
            }
        }
    }
}

/// The law of emission order: when a run of elements spells a segment of
/// input, its depth-first leaf values flatten back to that segment, and
/// the k-th leaf value is exactly the slice of the segment between the
/// total leaf length before it and through it. Leaves are therefore
/// emitted left to right exactly as the input was consumed; any
/// subsequence of the leaves, such as the reflectable ones, keeps that
/// order.
pub proof fn lemma_leaf_emission_order(s: Seq<ChildView>, text: Seq<char>, k: int)
    requires
        children_text(s) == text,
        0 <= k < leaf_values_of(s).len(),
    ensures
        concat_texts(leaf_values_of(s)) == text,
        0 <= prefix_len(leaf_values_of(s), k),
        prefix_len(leaf_values_of(s), k) + leaf_values_of(s)[k].len() == prefix_len(
            leaf_values_of(s),
            k + 1,
        ),
        prefix_len(leaf_values_of(s), k + 1) <= text.len(),
        leaf_values_of(s)[k] == text.subrange(
            prefix_len(leaf_values_of(s), k),
            prefix_len(leaf_values_of(s), k + 1),
        ),
{
    lemma_leaves_flatten_seq(s);
    lemma_texts_partition(leaf_values_of(s), k);
}

/// A run of elements with the empty nodes dropped, as attachment asks.
pub open spec fn drop_empty_nodes(s: Seq<ChildView>) -> Seq<ChildView>
    decreases s,
{
    if s.len() == 0 {
        Seq::empty()
    } else {
        (match s[0] {
            ChildView::Node(nv) => if nv.children.len() == 0 {
                Seq::<ChildView>::empty()
            } else {
                seq![s[0]]
            },
            ChildView::Leaf(_) => seq![s[0]],
        }) + drop_empty_nodes(s.subrange(1, s.len() as int))
    }
}

pub proof fn lemma_drop_empty_nodes_push(s: Seq<ChildView>, x: ChildView)
    ensures
        drop_empty_nodes(s.push(x)) == drop_empty_nodes(s) + (match x {
            ChildView::Node(nv) => if nv.children.len() == 0 {
                Seq::<ChildView>::empty()
            } else {
                seq![x]
            },
            ChildView::Leaf(_) => seq![x],
        }),
    decreases s,
{
    if s.len() == 0 {
        reveal_with_fuel(drop_empty_nodes, 2);
        assert(s.push(x)[0] == x);
        assert(s.push(x).subrange(1, 1) =~= Seq::<ChildView>::empty());
        assert(drop_empty_nodes(s.push(x)) =~= drop_empty_nodes(s) + (match x {
            ChildView::Node(nv) => if nv.children.len() == 0 {
                Seq::<ChildView>::empty()
            } else {
                seq![x]
            },
            ChildView::Leaf(_) => seq![x],
        }));
    } else {
        assert(s.push(x)[0] == s[0]);
        assert(s.push(x).subrange(1, s.len() as int + 1) =~= s.subrange(1, s.len() as int).push(x));
        lemma_drop_empty_nodes_push(s.subrange(1, s.len() as int), x);
        assert(drop_empty_nodes(s.push(x)) =~= drop_empty_nodes(s) + (match x {
            ChildView::Node(nv) => if nv.children.len() == 0 {
                Seq::<ChildView>::empty()
            } else {
                seq![x]
            },
            ChildView::Leaf(_) => seq![x],
        }));
    }
}

/// No element of the run is a node without children.
pub open spec fn no_empty_nodes(s: Seq<ChildView>) -> bool {
    forall|k: int|
        0 <= k < s.len() ==> !((#[trigger] s[k]) matches ChildView::Node(nv) && nv.children.len()
            == 0)
}

/// Dropping the empty nodes leaves none behind.
pub proof fn lemma_drop_empty_nodes_free(s: Seq<ChildView>)
    ensures
        no_empty_nodes(drop_empty_nodes(s)),
    decreases s,
{
    if s.len() > 0 {
        let tail = s.subrange(1, s.len() as int);
        lemma_drop_empty_nodes_free(tail);
        let head = (match s[0] {
            ChildView::Node(nv) => if nv.children.len() == 0 {
                Seq::<ChildView>::empty()
            } else {
                seq![s[0]]
            },
            ChildView::Leaf(_) => seq![s[0]],
        });
        assert forall|k: int| 0 <= k < drop_empty_nodes(s).len() implies !((#[trigger]
        drop_empty_nodes(s)[k]) matches ChildView::Node(nv) && nv.children.len() == 0) by {
            if k < head.len() {
                assert(drop_empty_nodes(s)[k] == head[k]);
            } else {
                assert(drop_empty_nodes(s)[k] == drop_empty_nodes(tail)[k - head.len()]);
            }
        }
    }
}

/// Empty-node-free runs concatenate to an empty-node-free run.
pub proof fn lemma_no_empty_nodes_append(a: Seq<ChildView>, b: Seq<ChildView>)
    requires
        no_empty_nodes(a),
        no_empty_nodes(b),
    ensures
        no_empty_nodes(a + b),
{
    assert forall|k: int| 0 <= k < (a + b).len() implies !((#[trigger] (a + b)[k])
        matches ChildView::Node(nv) && nv.children.len() == 0) by {
        if k < a.len() {
            assert((a + b)[k] == a[k]);
        } else {
            assert((a + b)[k] == b[k - a.len()]);
        }
    }
}

pub proof fn lemma_children_views_append(a: Seq<SyntaxNodeChild>, b: Seq<SyntaxNodeChild>)
    ensures
        children_views(a + b) == children_views(a) + children_views(b),
    decreases a,
{
    if a.len() == 0 {
        assert(a + b =~= b);
        assert(children_views(a) + children_views(b) =~= children_views(b));
    } else {
        assert((a + b)[0] == a[0]);
        assert((a + b).subrange(1, (a + b).len() as int) =~= a.subrange(1, a.len() as int) + b);
        lemma_children_views_append(a.subrange(1, a.len() as int), b);
        assert(children_views(a + b) =~= children_views(a) + children_views(b));
    }
}

/// The reflectable elements of a run, in order.
pub open spec fn reflectable_views(s: Seq<ChildView>) -> Seq<ChildView>
    decreases s,
{
    if s.len() == 0 {
        Seq::empty()
    } else {
        (if s[0].is_reflectable() {
            seq![s[0]]
        } else {
            Seq::<ChildView>::empty()
        }) + reflectable_views(s.subrange(1, s.len() as int))
    }
}

pub proof fn lemma_reflectable_views_push(s: Seq<ChildView>, x: ChildView)
    ensures
        reflectable_views(s.push(x)) == reflectable_views(s) + (if x.is_reflectable() {
            seq![x]
        } else {
            Seq::<ChildView>::empty()
        }),
    decreases s,
{
    if s.len() == 0 {
        reveal_with_fuel(reflectable_views, 2);
        assert(s.push(x)[0] == x);
        assert(s.push(x).subrange(1, 1) =~= Seq::<ChildView>::empty());
        assert(reflectable_views(s.push(x)) =~= reflectable_views(s) + (if x.is_reflectable() {
            seq![x]
        } else {
            Seq::<ChildView>::empty()
        }));
    } else {
        assert(s.push(x)[0] == s[0]);
        assert(s.push(x).subrange(1, s.len() as int + 1) =~= s.subrange(1, s.len() as int).push(x));
        lemma_reflectable_views_push(s.subrange(1, s.len() as int), x);
        assert(reflectable_views(s.push(x)) =~= reflectable_views(s) + (if x.is_reflectable() {
            seq![x]
        } else {
            Seq::<ChildView>::empty()
        }));
    }
}

pub proof fn lemma_reflectable_views_append(a: Seq<ChildView>, b: Seq<ChildView>)
    ensures
        reflectable_views(a + b) == reflectable_views(a) + reflectable_views(b),
    decreases a,
{
    if a.len() == 0 {
        assert(a + b =~= b);
        assert(reflectable_views(a) + reflectable_views(b) =~= reflectable_views(b));
    } else {
        assert((a + b)[0] == a[0]);
        assert((a + b).subrange(1, (a + b).len() as int) =~= a.subrange(1, a.len() as int) + b);
        lemma_reflectable_views_append(a.subrange(1, a.len() as int), b);
        assert(reflectable_views(a + b) =~= reflectable_views(a) + reflectable_views(b));
    }
}

/// The views of the elements that the selection flags keep, in order.
pub open spec fn selected_views(s: Seq<SyntaxNodeChild>, sel: Seq<bool>) -> Seq<ChildView>
    decreases s,
{
    if s.len() == 0 {
        Seq::empty()
    } else {
        (if sel.len() > 0 && sel[0] {
            seq![child_view(s[0])]
        } else {
            Seq::<ChildView>::empty()
        }) + selected_views(s.subrange(1, s.len() as int), sel.subrange(1, sel.len() as int))
    }
}

pub proof fn lemma_selected_views_push(s: Seq<SyntaxNodeChild>, sel: Seq<bool>, x: SyntaxNodeChild, b: bool)
    requires
        s.len() == sel.len(),
    ensures
        selected_views(s.push(x), sel.push(b)) == selected_views(s, sel) + (if b {
            seq![child_view(x)]
        } else {
            Seq::<ChildView>::empty()
        }),
    decreases s,
{
    if s.len() == 0 {
        reveal_with_fuel(selected_views, 2);
        assert(s.push(x)[0] == x);
        assert(sel.push(b)[0] == b);
        assert(s.push(x).subrange(1, 1) =~= Seq::<SyntaxNodeChild>::empty());
        assert(sel.push(b).subrange(1, 1) =~= Seq::<bool>::empty());
        assert(selected_views(s.push(x), sel.push(b)) =~= selected_views(s, sel) + (if b {
            seq![child_view(x)]
        } else {
            Seq::<ChildView>::empty()
        }));
    } else {
        assert(s.push(x)[0] == s[0]);
        assert(sel.push(b)[0] == sel[0]);
        assert(s.push(x).subrange(1, s.len() as int + 1) =~= s.subrange(1, s.len() as int).push(x));
        assert(sel.push(b).subrange(1, sel.len() as int + 1) =~= sel.subrange(
            1,
            sel.len() as int,
        ).push(b));
        lemma_selected_views_push(
            s.subrange(1, s.len() as int),
            sel.subrange(1, sel.len() as int),
            x,
            b,
        );
        assert(selected_views(s.push(x), sel.push(b)) =~= selected_views(s, sel) + (if b {
            seq![child_view(x)]
        } else {
            Seq::<ChildView>::empty()
        }));
    }
}

/// The position of the first direct leaf child, if any.
pub open spec fn first_leaf_position(s: Seq<ChildView>) -> Option<PositionView>
    decreases s,
{
    if s.len() == 0 {
        Option::None
    } else {
        match s[0] {
            ChildView::Leaf(lv) => Option::Some(lv.pos),
            ChildView::Node(_) => first_leaf_position(s.subrange(1, s.len() as int)),
        }
    }
}

/// The first direct child node whose reflection name is one of the
/// patterns, if any.
pub open spec fn first_matching_node(s: Seq<ChildView>, patterns: Seq<Seq<char>>) -> Option<
    NodeView,
>
    decreases s,
{
    if s.len() == 0 {
        Option::None
    } else {
        match s[0] {
            ChildView::Node(nv) => if nv.style matches StyleView::Reflection(name)
                && patterns.contains(name) {
                Option::Some(nv)
            } else {
                first_matching_node(s.subrange(1, s.len() as int), patterns)
            },
            ChildView::Leaf(_) => first_matching_node(s.subrange(1, s.len() as int), patterns),
        }
    }
}

/// All direct child nodes whose reflection name is one of the patterns,
/// in order.
pub open spec fn matching_nodes(s: Seq<ChildView>, patterns: Seq<Seq<char>>) -> Seq<NodeView>
    decreases s,
{
    if s.len() == 0 {
        Seq::empty()
    } else {
        (match s[0] {
            ChildView::Node(nv) => if nv.style matches StyleView::Reflection(name)
                && patterns.contains(name) {
                seq![nv]
            } else {
                Seq::<NodeView>::empty()
            },
            ChildView::Leaf(_) => Seq::<NodeView>::empty(),
        }) + matching_nodes(s.subrange(1, s.len() as int), patterns)
    }
}

/// Whether the node's reflection name is one of the patterns.
pub open spec fn node_name_matches(nv: NodeView, patterns: Seq<Seq<char>>) -> bool {
    nv.style matches StyleView::Reflection(name) && patterns.contains(name)
}

/// The pattern texts of a pattern list.
pub open spec fn pattern_views(patterns: Seq<&str>) -> Seq<Seq<char>> {
    patterns.map_values(|p: &str| p@)
}

pub proof fn lemma_matching_nodes_push(s: Seq<ChildView>, x: ChildView, patterns: Seq<Seq<char>>)
    ensures
        matching_nodes(s.push(x), patterns) == matching_nodes(s, patterns) + matching_nodes(
            seq![x],
            patterns,
        ),
    decreases s,
{
    if s.len() == 0 {
        reveal_with_fuel(matching_nodes, 2);
        assert(s.push(x) =~= seq![x]);
        assert(matching_nodes(s, patterns) + matching_nodes(seq![x], patterns) =~= matching_nodes(
            seq![x],
            patterns,
        ));
    } else {
        assert(s.push(x)[0] == s[0]);
        assert(s.push(x).subrange(1, s.len() as int + 1) =~= s.subrange(1, s.len() as int).push(x));
        lemma_matching_nodes_push(s.subrange(1, s.len() as int), x, patterns);
        assert(matching_nodes(s.push(x), patterns) =~= matching_nodes(s, patterns)
            + matching_nodes(seq![x], patterns));
    }
}

/// Whether the name equals one of the patterns.
fn name_matches_any(name: &String, patterns: &Vec<&str>) -> (r: bool)
    ensures
        r == pattern_views(patterns@).contains(name@),
{
    let n = patterns.len();
    let mut i: usize = 0;
    while i < n
        invariant
            0 <= i <= n,
            n == patterns@.len(),
            forall|j: int| 0 <= j < i ==> pattern_views(patterns@)[j] != name@,
        decreases n - i,
    {
        let p: String = patterns[i].to_owned();
        if name.eq(&p) {
            proof {
                assert(pattern_views(patterns@)[i as int] == name@);
            }
            return true;
        }
        i = i + 1;
    }
    proof {
        if pattern_views(patterns@).contains(name@) {
            let j = choose|j: int|
                0 <= j < pattern_views(patterns@).len() && pattern_views(patterns@)[j] == name@;
            assert(false);
        }
    }
    false
}

} // verus!
