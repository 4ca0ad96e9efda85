use vstd::prelude::*;
use crate::token::{Operator, OperatorView, Token, TokenKind, TokenView, tokens_view};
use crate::varnum::chars_of;

verus! {

/// Makes a value from the text of a literal.
pub trait StrMake<T> {
    fn from_str(str: &str) -> T;
}

/// Makes the additive identity.
pub trait ZeroMake<T> {
    fn from_zero() -> T;
}

/// Makes the multiplicative identity.
pub trait UnityMake<T> {
    fn from_unity() -> T;
}

/// What a value type provides for the leaves of an expression graph.
pub trait LeafMake<T>: StrMake<T> + ZeroMake<T> + UnityMake<T> {
}

/// The arithmetic a value type of an expression graph provides.
pub trait ExprType<T>: core::ops::Add<T> + core::ops::Sub<T> + core::ops::Mul<T> + core::ops::Div<T> + Pow<T> + core::ops::Neg + LeafMake<T> + core::fmt::Debug {
}

/// Raising to a power.
pub trait Pow<Rhs = Self> {
    type Output;

    fn pow(self, rhs: Rhs) -> Self::Output;
}

/// The kinds of node of an expression graph.
#[derive(Debug, Clone, Copy, PartialEq, Eq, Structural)]
pub enum NodeType {
    LeafNode,
    UnaryOperator,
    BinaryOperator,
    Function,
}

/// Whether the inputs of a group may be reordered.
#[derive(Debug, Clone, Copy, PartialEq, Eq, Structural)]
pub enum CommutativityType {
    Commutative,
    AntiCommutative,
}

/// A group of input positions of a node, and whether they may be reordered.
pub type InputGroup = (CommutativityType, Vec<usize>);

/// An input group as plain values.
pub type GroupView = (CommutativityType, Seq<usize>);

pub open spec fn groups_view(g: Seq<InputGroup>) -> Seq<GroupView> {
    g.map_values(|x: InputGroup| (x.0, x.1@))
}

/// `a` comes before `b` in the lexicographic order of characters, looking
/// from position `i` on, where the two agree before `i`.
pub open spec fn name_lt_from(a: Seq<char>, b: Seq<char>, i: int) -> bool
    decreases a.len() - i,
{
    if i < 0 || i >= a.len() {
        0 <= i < b.len()
    } else if i >= b.len() {
        false
    } else if a[i] != b[i] {
        (a[i] as u32) < (b[i] as u32)
    } else {
        name_lt_from(a, b, i + 1)
    }
}

/// `a` comes before `b` in the lexicographic order of characters.
pub open spec fn name_lt(a: Seq<char>, b: Seq<char>) -> bool {
    name_lt_from(a, b, 0)
}

/// The first position from `j` on whose name comes after `x`, or the length.
pub open spec fn first_greater(x: Seq<char>, s: Seq<Seq<char>>, j: int) -> int
    decreases s.len() - j,
{
    if j < 0 || j >= s.len() {
        s.len() as int
    } else if name_lt(x, s[j]) {
        j
    } else {
        first_greater(x, s, j + 1)
    }
}

/// `x` inserted into `s` before the first name that comes after it.
pub open spec fn insert_sorted(x: Seq<char>, s: Seq<Seq<char>>) -> Seq<Seq<char>> {
    s.insert(first_greater(x, s, 0), x)
}

/// The names of `s`, sorted by insertion; names that compare equal keep
/// their order.
pub open spec fn sort_names(s: Seq<Seq<char>>) -> Seq<Seq<char>>
    decreases s.len(),
{
    if s.len() == 0 {
        s
    } else {
        insert_sorted(s.last(), sort_names(s.drop_last()))
    }
}

/// `names` with `vals[k]` written at `positions[k]`, for `k` from `i` on.
pub open spec fn write_back(names: Seq<Seq<char>>, positions: Seq<usize>, vals: Seq<Seq<char>>, i: int) -> Seq<Seq<char>>
    decreases positions.len() - i,
{
    if i < 0 || i >= positions.len() {
        names
    } else {
        write_back(names.update(positions[i] as int, vals[i]), positions, vals, i + 1)
    }
}

/// Every position of the group is an input of a node of `n` inputs.
pub open spec fn group_in_range(group: Seq<usize>, n: nat) -> bool {
    forall|k: int| 0 <= k < group.len() ==> #[trigger] group[k] < n
}

/// No position occurs twice in the group.
pub open spec fn group_distinct(group: Seq<usize>) -> bool {
    forall|i: int, j: int| 0 <= i < j < group.len() ==> #[trigger] group[i] != #[trigger] group[j]
}

/// The input names after one group: a commutative group of distinct
/// positions that are all inputs has its names sorted into those positions;
/// any other group leaves them as they are.
pub open spec fn regroup(names: Seq<Seq<char>>, group: GroupView) -> Seq<Seq<char>> {
    if group.0 == CommutativityType::Commutative && group_in_range(group.1, names.len()) && group_distinct(group.1) {
        write_back(names, group.1, sort_names(group.1.map_values(|k: usize| names[k as int])), 0)
    } else {
        names
    }
}

/// The input names after the groups from `i` on, applied in order.
pub open spec fn apply_groups(names: Seq<Seq<char>>, groups: Seq<GroupView>, i: int) -> Seq<Seq<char>>
    decreases groups.len() - i,
{
    if i < 0 || i >= groups.len() {
        names
    } else {
        apply_groups(regroup(names, groups[i]), groups, i + 1)
    }
}

/// Each name followed by a comma.
pub open spec fn join_names(names: Seq<Seq<char>>) -> Seq<char>
    decreases names.len(),
{
    if names.len() == 0 {
        Seq::empty()
    } else {
        join_names(names.drop_last()) + names.last() + ","@
    }
}

/// The canonical name of a node: the names of its inputs, each followed by
/// a comma, then its own token text. A leaf's name is its token text.
pub open spec fn compose_name(names: Seq<Seq<char>>, text: Seq<char>) -> Seq<char> {
    join_names(names) + text
}

/// Whether `a` comes before `b` in the lexicographic order of characters.
pub fn name_less(a: &str, b: &str) -> (r: bool)
    ensures
        r == name_lt(a@, b@),
{
    let x = chars_of(a);
    let y = chars_of(b);
    let mut i: usize = 0;
    while i < x.len() && i < y.len()
        invariant
            x@ == a@,
            y@ == b@,
            i <= x@.len(),
            i <= y@.len(),
            name_lt(a@, b@) == name_lt_from(a@, b@, i as int),
        decreases x@.len() - i,
    {
        if x[i] != y[i] {
            return (x[i] as u32) < (y[i] as u32);
        }
        i = i + 1;
    }
    i < y.len()
}

/// Why a postfix sequence could not be built into an expression graph. Each
/// position is that of the offending token in the postfix sequence.
#[derive(Debug, Clone, Copy, PartialEq, Eq, Structural)]
pub enum BuildError {
    /// A variable that no binding names.
    UnboundVariable { position: usize },
    /// An operator or function without an evaluation strategy.
    MissingEvaluator { position: usize },
    /// An operator or function without a derivative strategy.
    MissingDerivative { position: usize },
    /// The sequence does not leave exactly one expression, or holds a token
    /// that postfix order does not allow.
    MalformedPostfix,
    /// The node for the token at `position` would get the canonical name of
    /// an earlier node with another token or other inputs; this needs a
    /// grammar whose token texts run into one another.
    NameClash { position: usize },
}

/// What the caller supplies for one operator or function token: how to
/// evaluate it, how to differentiate it, and which of its inputs may be
/// reordered.
pub struct Strategy<E, D> {
    pub kind: TokenKind,
    pub token: String,
    pub evaluator: Option<E>,
    pub derivative: Option<D>,
    pub order_of_inputs: Vec<InputGroup>,
}

/// A strategy as plain values.
pub struct StrategyView {
    pub kind: TokenKind,
    pub token: Seq<char>,
    pub has_evaluator: bool,
    pub has_derivative: bool,
    pub groups: Seq<GroupView>,
}

impl<E, D> View for Strategy<E, D> {
    type V = StrategyView;

    open spec fn view(&self) -> StrategyView {
        StrategyView {
            kind: self.kind,
            token: self.token@,
            has_evaluator: self.evaluator is Some,
            has_derivative: self.derivative is Some,
            groups: groups_view(self.order_of_inputs@),
        }
    }
}

pub open spec fn strategies_view<E, D>(s: Seq<Strategy<E, D>>) -> Seq<StrategyView> {
    s.map_values(|x: Strategy<E, D>| x@)
}

/// The names that `bindings` binds, in order.
pub open spec fn bound_names<T>(bindings: Seq<(String, T)>) -> Seq<Seq<char>> {
    bindings.map_values(|b: (String, T)| b.0@)
}

/// The number of inputs of a node for token `t`.
pub open spec fn arity_of(t: TokenView) -> nat {
    match t {
        TokenView::Operator(OperatorView::Unary(_)) => 1,
        TokenView::Operator(OperatorView::Binary(_)) => 2,
        TokenView::Function(f) => f.arity as nat,
        _ => 0,
    }
}

/// The first strategy from `i` on for the kind and text of `t`.
pub open spec fn find_strategy(table: Seq<StrategyView>, t: TokenView, i: int) -> Option<int>
    decreases table.len() - i,
{
    if i < 0 || i >= table.len() {
        None
    } else if table[i].kind == t.kind() && table[i].token == t.text() {
        Some(i)
    } else {
        find_strategy(table, t, i + 1)
    }
}

/// One postfix token, at `position`, on a stack of canonical names.
pub open spec fn name_step(stack: Seq<Seq<char>>, t: TokenView, position: int, bound: Seq<Seq<char>>, table: Seq<StrategyView>) -> Result<Seq<Seq<char>>, BuildError> {
    match t {
        TokenView::Number(_) => Ok(stack.push(t.text())),
        TokenView::Zero => Ok(stack.push(t.text())),
        TokenView::Unity => Ok(stack.push(t.text())),
        TokenView::Variable(v) => if bound.contains(v) {
            Ok(stack.push(v))
        } else {
            Err(BuildError::UnboundVariable { position: position as usize })
        },
        TokenView::Operator(_) | TokenView::Function(_) => {
            let n = arity_of(t);
            if stack.len() < n {
                Err(BuildError::MalformedPostfix)
            } else {
                match find_strategy(table, t, 0) {
                    None => Err(BuildError::MissingEvaluator { position: position as usize }),
                    Some(k) => if !table[k].has_evaluator {
                        Err(BuildError::MissingEvaluator { position: position as usize })
                    } else if !table[k].has_derivative {
                        Err(BuildError::MissingDerivative { position: position as usize })
                    } else {
                        let cut = stack.len() - n;
                        let inputs = apply_groups(stack.subrange(cut, stack.len() as int), table[k].groups, 0);
                        Ok(stack.subrange(0, cut).push(compose_name(inputs, t.text())))
                    },
                }
            }
        },
        _ => Err(BuildError::MalformedPostfix),
    }
}

/// The stack of canonical names after the postfix tokens from `i` on.
pub open spec fn name_stack(tokens: Seq<TokenView>, i: int, stack: Seq<Seq<char>>, bound: Seq<Seq<char>>, table: Seq<StrategyView>) -> Result<Seq<Seq<char>>, BuildError>
    decreases tokens.len() - i,
{
    if i < 0 || i >= tokens.len() {
        Ok(stack)
    } else {
        match name_step(stack, tokens[i], i, bound, table) {
            Ok(st) => name_stack(tokens, i + 1, st, bound, table),
            Err(e) => Err(e),
        }
    }
}

/// The canonical name of the expression that a postfix sequence builds.
pub open spec fn canonical_name(tokens: Seq<TokenView>, bound: Seq<Seq<char>>, table: Seq<StrategyView>) -> Result<Seq<char>, BuildError> {
    match name_stack(tokens, 0, Seq::empty(), bound, table) {
        Ok(st) => if st.len() == 1 {
            Ok(st[0])
        } else {
            Err(BuildError::MalformedPostfix)
        },
        Err(e) => Err(e),
    }
}

/// A node as a build describes it: its canonical name, its token, and the
/// canonical names of its inputs in their canonical order.
pub type NodeEntry = (Seq<char>, TokenView, Seq<Seq<char>>);

/// The node that a successful step for token `t` pushes on top of `stack`.
pub open spec fn step_entry(stack: Seq<Seq<char>>, t: TokenView, table: Seq<StrategyView>) -> NodeEntry {
    if t is Operator || t is Function {
        let cut = stack.len() - arity_of(t);
        let k = find_strategy(table, t, 0)->0;
        let inputs = apply_groups(stack.subrange(cut, stack.len() as int), table[k].groups, 0);
        (compose_name(inputs, t.text()), t, inputs)
    } else {
        (t.text(), t, Seq::empty())
    }
}

/// The first index from `i` on of an entry named `name`.
pub open spec fn find_entry(nodes: Seq<NodeEntry>, name: Seq<char>, i: int) -> Option<int>
    decreases nodes.len() - i,
{
    if i < 0 || i >= nodes.len() {
        None
    } else if nodes[i].0 == name {
        Some(i)
    } else {
        find_entry(nodes, name, i + 1)
    }
}

/// One postfix token, at `position`, on the nodes built so far and the stack
/// of canonical names: a node of a name not yet built is added; one already
/// built is taken again, if it is the same node.
pub open spec fn graph_step(nodes: Seq<NodeEntry>, stack: Seq<Seq<char>>, t: TokenView, position: int, bound: Seq<Seq<char>>, table: Seq<StrategyView>) -> Result<(Seq<NodeEntry>, Seq<Seq<char>>), BuildError> {
    match name_step(stack, t, position, bound, table) {
        Err(e) => Err(e),
        Ok(st) => {
            let en = step_entry(stack, t, table);
            match find_entry(nodes, en.0, 0) {
                Some(k) => if nodes[k] == en {
                    Ok((nodes, st))
                } else {
                    Err(BuildError::NameClash { position: position as usize })
                },
                None => Ok((nodes.push(en), st)),
            }
        },
    }
}

/// The nodes and the stack after the postfix tokens from `i` on.
pub open spec fn graph_run(tokens: Seq<TokenView>, i: int, nodes: Seq<NodeEntry>, stack: Seq<Seq<char>>, bound: Seq<Seq<char>>, table: Seq<StrategyView>) -> Result<(Seq<NodeEntry>, Seq<Seq<char>>), BuildError>
    decreases tokens.len() - i,
{
    if i < 0 || i >= tokens.len() {
        Ok((nodes, stack))
    } else {
        match graph_step(nodes, stack, tokens[i], i, bound, table) {
            Ok((n, s)) => graph_run(tokens, i + 1, n, s, bound, table),
            Err(e) => Err(e),
        }
    }
}

/// The expression graph that a postfix sequence builds: its nodes in the
/// order they are made, each after its inputs, and the index of the root.
pub open spec fn graph_spec(tokens: Seq<TokenView>, bound: Seq<Seq<char>>, table: Seq<StrategyView>) -> Result<(Seq<NodeEntry>, int), BuildError> {
    match graph_run(tokens, 0, Seq::empty(), Seq::empty(), bound, table) {
        Err(e) => Err(e),
        Ok((nodes, st)) => if st.len() == 1 && find_entry(nodes, st[0], 0) is Some {
            Ok((nodes, find_entry(nodes, st[0], 0)->0))
        } else {
            Err(BuildError::MalformedPostfix)
        },
    }
}

/// A node of an expression graph: a leaf (literal, identity or variable), or
/// an operator or function applied to earlier nodes. Nodes are referred to by
/// their index in the graph; `children` are the inputs in their canonical
/// order, `parents` the nodes that take this one as an input, once per use.
pub struct Node<T> {
    node_type: NodeType,
    token: Token,
    order_of_inputs: Vec<InputGroup>,
    parents: Vec<usize>,
    children: Vec<usize>,
    name: String,
    value: Option<T>,
    strategy: Option<usize>,
}

/// A node as plain values.
pub struct NodeView {
    pub node_type: NodeType,
    pub token: TokenView,
    pub groups: Seq<GroupView>,
    pub parents: Seq<usize>,
    pub children: Seq<usize>,
    pub name: Seq<char>,
    pub strategy: Option<usize>,
}

impl<T> View for Node<T> {
    type V = NodeView;

    closed spec fn view(&self) -> NodeView {
        NodeView {
            node_type: self.node_type,
            token: self.token@,
            groups: groups_view(self.order_of_inputs@),
            parents: self.parents@,
            children: self.children@,
            name: self.name@,
            strategy: self.strategy,
        }
    }
}

/// The names of the nodes at `idx`.
pub open spec fn names_of(nodes: Seq<NodeView>, idx: Seq<usize>) -> Seq<Seq<char>> {
    idx.map_values(|k: usize| nodes[k as int].name)
}

/// Every index of `idx` is a node of `nodes`.
pub open spec fn all_below(idx: Seq<usize>, n: nat) -> bool {
    forall|j: int| 0 <= j < idx.len() ==> #[trigger] idx[j] < n
}

/// Node `k` as a build describes it.
pub open spec fn entry_of(nodes: Seq<NodeView>, k: int) -> NodeEntry {
    (nodes[k].name, nodes[k].token, names_of(nodes, nodes[k].children))
}

/// All nodes as a build describes them.
pub open spec fn entries(nodes: Seq<NodeView>) -> Seq<NodeEntry> {
    Seq::new(nodes.len(), |k: int| entry_of(nodes, k))
}

/// Node `i` has the type and the number of inputs of its token, takes only
/// earlier nodes as inputs, is named canonically after them (a leaf by its
/// token text), and its parent links agree with the inputs of the other
/// nodes.
pub open spec fn node_wf(nodes: Seq<NodeView>, i: int) -> bool {
    let nd = nodes[i];
    &&& node_type_of(nd.token) == Some(nd.node_type)
    &&& nd.children.len() == arity_of(nd.token)
    &&& nd.children.len() == 0 ==> nd.name == nd.token.text()
    &&& forall|j: int| 0 <= j < nd.children.len() ==> #[trigger] nd.children[j] < i
    &&& nd.name == compose_name(names_of(nodes, nd.children), nd.token.text())
    &&& forall|k: int| 0 <= k < nd.parents.len() ==> #[trigger] nd.parents[k] < nodes.len()
        && nodes[nd.parents[k] as int].children.contains(i as usize)
    &&& forall|j: int| 0 <= j < nd.children.len() ==> #[trigger] nodes[nd.children[j] as int].parents.contains(i as usize)
}

/// No two nodes share a canonical name.
pub open spec fn names_unique(nodes: Seq<NodeView>) -> bool {
    forall|i: int, j: int| 0 <= i < nodes.len() && 0 <= j < nodes.len() && i != j
        ==> #[trigger] nodes[i].name != #[trigger] nodes[j].name
}

/// The invariant of the nodes of an expression graph.
pub open spec fn nodes_wf(nodes: Seq<NodeView>) -> bool {
    &&& forall|i: int| 0 <= i < nodes.len() ==> #[trigger] node_wf(nodes, i)
    &&& names_unique(nodes)
}

/// The node type for a token; `None` for tokens that make no node.
pub open spec fn node_type_of(t: TokenView) -> Option<NodeType> {
    match t {
        TokenView::Number(_) => Some(NodeType::LeafNode),
        TokenView::Zero => Some(NodeType::LeafNode),
        TokenView::Unity => Some(NodeType::LeafNode),
        TokenView::Variable(_) => Some(NodeType::LeafNode),
        TokenView::Function(_) => Some(NodeType::Function),
        TokenView::Operator(OperatorView::Unary(_)) => Some(NodeType::UnaryOperator),
        TokenView::Operator(OperatorView::Binary(_)) => Some(NodeType::BinaryOperator),
        _ => None,
    }
}

impl<T> Node<T> {
    /// The canonical name of this node.
    pub fn get_full_name(&self) -> (r: &str)
        ensures
            r@ == self@.name,
    {
        self.name.as_str()
    }

    pub fn get_token(&self) -> (r: &Token)
        ensures
            r@ == self@.token,
    {
        &self.token
    }

    pub fn get_node_type(&self) -> (r: NodeType)
        ensures
            r == self@.node_type,
    {
        self.node_type
    }

    pub fn get_children(&self) -> (r: &[usize])
        ensures
            r@ == self@.children,
    {
        self.children.as_slice()
    }

    pub fn get_parents(&self) -> (r: &[usize])
        ensures
            r@ == self@.parents,
    {
        self.parents.as_slice()
    }

    pub fn get_order_of_inputs(&self) -> (r: &Vec<InputGroup>)
        ensures
            groups_view(r@) == self@.groups,
    {
        &self.order_of_inputs
    }

    /// The index, in the strategy table the graph was built with, of this
    /// node's strategy; `None` for a leaf.
    pub fn get_strategy(&self) -> (r: Option<usize>)
        ensures
            r == self@.strategy,
    {
        self.strategy
    }

    /// The value a leaf is bound to; `None` for other nodes.
    pub closed spec fn value_spec(&self) -> Option<T> {
        self.value
    }

    /// The value a leaf is bound to; `None` for other nodes.
    pub fn get_value(&self) -> (r: &Option<T>)
        ensures
            *r == self.value_spec(),
    {
        &self.value
    }
}

/// An expression graph: its nodes, each after its inputs, and its root. Nodes
/// that are the same up to the reordering of commutative inputs are one node.
/// The nodes live in a vector and refer to one another by index; a node is
/// looked up by name with a linear search, under the invariant that no two
/// nodes share a name. A vector keeps the order in which nodes were made,
/// which the contracts speak of, and its contents are specified, where a
/// map keyed by strings would leave the lookups unproved.
pub struct Expression<T> {
    nodes: Vec<Node<T>>,
    root: usize,
}

/// An expression graph as plain values.
pub struct ExpressionView {
    pub nodes: Seq<NodeView>,
    pub root: usize,
}

impl<T> View for Expression<T> {
    type V = ExpressionView;

    closed spec fn view(&self) -> ExpressionView {
        ExpressionView { nodes: self.nodes@.map_values(|n: Node<T>| n@), root: self.root }
    }
}

/// Node `b` is node `a` of index `x`, with the parent `p` added for each use
/// among the inputs `pch` of `p`.
pub open spec fn grown(a: NodeView, b: NodeView, p: usize, pch: Seq<usize>, x: int) -> bool {
    &&& b.name == a.name
    &&& b.children == a.children
    &&& b.token == a.token
    &&& b.node_type == a.node_type
    &&& b.groups == a.groups
    &&& b.strategy == a.strategy
    &&& a.parents.len() <= b.parents.len()
    &&& b.parents.subrange(0, a.parents.len() as int) == a.parents
    &&& forall|k: int| a.parents.len() <= k < b.parents.len() ==> #[trigger] b.parents[k] == p && pch.contains(x as usize)
}

/// Whether no position occurs twice in `v`.
fn positions_distinct(v: &Vec<usize>) -> (r: bool)
    ensures
        r == group_distinct(v@),
{
    let mut i: usize = 0;
    while i < v.len()
        invariant
            i <= v@.len(),
            forall|a: int, b: int| 0 <= a < b < v@.len() && a < i ==> v@[a] != v@[b],
        decreases v@.len() - i,
    {
        let mut j: usize = i + 1;
        while j < v.len()
            invariant
                i < v@.len(),
                i + 1 <= j <= v@.len(),
                forall|a: int, b: int| 0 <= a < b < v@.len() && a < i ==> v@[a] != v@[b],
                forall|b: int| i < b < j ==> v@[i as int] != v@[b],
            decreases v@.len() - j,
        {
            if v[i] == v[j] {
                assert(!group_distinct(v@));
                return false;
            }
            j = j + 1;
        }
        i = i + 1;
    }
    true
}

/// A copy of the positions in `v`.
fn copy_positions(v: &Vec<usize>) -> (r: Vec<usize>)
    ensures
        r@ == v@,
{
    let mut r: Vec<usize> = Vec::new();
    let mut i: usize = 0;
    while i < v.len()
        invariant
            i <= v@.len(),
            r@ == v@.subrange(0, i as int),
        decreases v@.len() - i,
    {
        r.push(v[i]);
        i = i + 1;
    }
    r
}

/// A copy of the input groups in `g`.
fn copy_groups(g: &Vec<InputGroup>) -> (r: Vec<InputGroup>)
    ensures
        groups_view(r@) == groups_view(g@),
{
    let mut r: Vec<InputGroup> = Vec::new();
    let mut i: usize = 0;
    while i < g.len()
        invariant
            i <= g@.len(),
            r@.len() == i,
            groups_view(r@) == groups_view(g@).subrange(0, i as int),
        decreases g@.len() - i,
    {
        let gi = &g[i];
        let c = copy_positions(&gi.1);
        let item: InputGroup = (gi.0, c);
        assert(item.1@ == gi.1@);
        r.push(item);
        assert(r@[i as int] == item);
        assert(groups_view(r@)[i as int] == groups_view(g@)[i as int]);
        assert(groups_view(r@) =~= groups_view(g@).subrange(0, i + 1));
        i = i + 1;
    }
    r
}

impl<T> Expression<T> {
    /// The graph's nodes are well formed and its root is one of them.
    pub open spec fn wf(&self) -> bool {
        &&& nodes_wf(self@.nodes)
        &&& self@.root < self@.nodes.len()
    }

    /// The index of the node named `name`.
    fn find_node(&self, name: &String) -> (r: Option<usize>)
        ensures
            r matches Some(k) ==> k < self@.nodes.len() && self@.nodes[k as int].name == name@,
            r is None ==> forall|k: int| 0 <= k < self@.nodes.len() ==> #[trigger] self@.nodes[k].name != name@,
    {
        let mut k: usize = 0;
        while k < self.nodes.len()
            invariant
                k <= self@.nodes.len(),
                forall|j: int| 0 <= j < k ==> #[trigger] self@.nodes[j].name != name@,
            decreases self@.nodes.len() - k,
        {
            assert(self@.nodes[k as int].name == self.nodes@[k as int].name@);
            if self.nodes[k].name == *name {
                return Some(k);
            }
            k = k + 1;
        }
        None
    }

    /// The canonical name of a node for a token of text `text` whose inputs
    /// are the nodes `children`, in that order.
    fn compose(&self, children: &Vec<usize>, text: &str) -> (r: String)
        requires
            all_below(children@, self@.nodes.len()),
        ensures
            r@ == compose_name(names_of(self@.nodes, children@), text@),
    {
        let ghost nodes = self@.nodes;
        let mut r = String::new();
        let mut j: usize = 0;
        while j < children.len()
            invariant
                nodes == self@.nodes,
                all_below(children@, nodes.len()),
                j <= children@.len(),
                r@ == join_names(names_of(nodes, children@.subrange(0, j as int))),
            decreases children@.len() - j,
        {
            let c = children[j];
            assert(children@[j as int] < nodes.len());
            assert(names_of(nodes, children@.subrange(0, j + 1)).drop_last() =~= names_of(nodes, children@.subrange(0, j as int)));
            r.append(self.nodes[c].name.as_str());
            r.append(",");
            j = j + 1;
        }
        assert(children@.subrange(0, j as int) =~= children@);
        r.append(text);
        r
    }

    /// Where the node `x` goes among the nodes `sorted`: before the first
    /// whose name comes after its own.
    fn insertion_point(&self, sorted: &Vec<usize>, x: usize) -> (r: usize)
        requires
            all_below(sorted@, self@.nodes.len()),
            x < self@.nodes.len(),
        ensures
            r as int == first_greater(self@.nodes[x as int].name, names_of(self@.nodes, sorted@), 0),
            r <= sorted@.len(),
    {
        let ghost nodes = self@.nodes;
        let ghost xn = nodes[x as int].name;
        let ghost ns = names_of(nodes, sorted@);
        let xname = self.nodes[x].name.as_str();
        let mut j: usize = 0;
        while j < sorted.len()
            invariant
                nodes == self@.nodes,
                xn == nodes[x as int].name,
                xname@ == xn,
                ns == names_of(nodes, sorted@),
                all_below(sorted@, nodes.len()),
                j <= sorted@.len(),
                first_greater(xn, ns, 0) == first_greater(xn, ns, j as int),
            decreases sorted@.len() - j,
        {
            assert(sorted@[j as int] < nodes.len());
            if name_less(xname, self.nodes[sorted[j]].name.as_str()) {
                return j;
            }
            j = j + 1;
        }
        j
    }

    /// Sorts the inputs of one commutative group by their names (see
    /// `regroup`).
    fn regroup_children(&self, children: &mut Vec<usize>, group: &InputGroup)
        requires
            all_below(old(children)@, self@.nodes.len()),
        ensures
            final(children)@.len() == old(children)@.len(),
            all_below(final(children)@, self@.nodes.len()),
            names_of(self@.nodes, final(children)@) == regroup(names_of(self@.nodes, old(children)@), (group.0, group.1@)),
            forall|x: usize| old(children)@.contains(x) ==> #[trigger] final(children)@.contains(x),
    {
        let ghost nodes = self@.nodes;
        let ghost names0 = names_of(nodes, children@);
        let ghost c0 = children@;
        if group.0 != CommutativityType::Commutative {
            return;
        }
        let positions = &group.1;
        let n = children.len();
        let mut k: usize = 0;
        while k < positions.len()
            invariant
                nodes == self@.nodes,
                names0 == names_of(nodes, children@),
                all_below(children@, nodes.len()),
                group.0 == CommutativityType::Commutative,
                positions@ == group.1@,
                n == children@.len(),
                k <= positions@.len(),
                forall|j: int| 0 <= j < k ==> #[trigger] positions@[j] < n,
            decreases positions@.len() - k,
        {
            if positions[k] >= n {
                assert(positions@[k as int] >= names0.len());
                assert(!group_in_range(positions@, names0.len()));
                assert(regroup(names0, (group.0, group.1@)) == names0);
                return;
            }
            k = k + 1;
        }
        assert(group_in_range(positions@, names0.len()));
        if !positions_distinct(positions) {
            return;
        }
        let ghost gathered = positions@.map_values(|p: usize| names0[p as int]);
        let mut sorted: Vec<usize> = Vec::new();
        k = 0;
        while k < positions.len()
            invariant
                nodes == self@.nodes,
                names0 == names_of(nodes, children@),
                n == children@.len(),
                all_below(children@, nodes.len()),
                group_in_range(positions@, n as nat),
                gathered == positions@.map_values(|p: usize| names0[p as int]),
                k <= positions@.len(),
                sorted@.len() == k,
                all_below(sorted@, nodes.len()),
                names_of(nodes, sorted@) == sort_names(gathered.subrange(0, k as int)),
                c0 == children@,
                forall|m: int| 0 <= m < k ==> sorted@.contains(#[trigger] c0[positions@[m] as int]),
            decreases positions@.len() - k,
        {
            let pos = positions[k];
            assert(pos < n);
            let x = children[pos];
            assert(x < nodes.len());
            let p = self.insertion_point(&sorted, x);
            let ghost before = sorted@;
            sorted.insert(p, x);
            proof {
                assert(gathered.subrange(0, k + 1).drop_last() =~= gathered.subrange(0, k as int));
                assert(gathered.subrange(0, k + 1).last() == nodes[x as int].name);
                assert(names_of(nodes, sorted@) =~= names_of(nodes, before).insert(p as int, nodes[x as int].name));
                assert forall|j: int| 0 <= j < sorted@.len() implies #[trigger] sorted@[j] < nodes.len() by {
                    if j < p {
                        assert(sorted@[j] == before[j]);
                    } else if j > p {
                        assert(sorted@[j] == before[j - 1]);
                    }
                }
                assert forall|m: int| 0 <= m < k + 1 implies sorted@.contains(#[trigger] c0[positions@[m] as int]) by {
                    if m < k {
                        let y = c0[positions@[m] as int];
                        assert(before.contains(y));
                        let l = choose|l: int| 0 <= l < before.len() && before[l] == y;
                        if l < p {
                            assert(sorted@[l] == y);
                        } else {
                            assert(sorted@[l + 1] == y);
                        }
                    } else {
                        assert(sorted@[p as int] == x);
                    }
                }
            }
            k = k + 1;
        }
        assert(gathered.subrange(0, k as int) =~= gathered);
        let ghost vals = names_of(nodes, sorted@);
        k = 0;
        while k < positions.len()
            invariant
                nodes == self@.nodes,
                n == children@.len(),
                group_in_range(positions@, n as nat),
                all_below(children@, nodes.len()),
                all_below(sorted@, nodes.len()),
                sorted@.len() == positions@.len(),
                vals == names_of(nodes, sorted@),
                k <= positions@.len(),
                regroup(names0, (group.0, positions@)) == write_back(names_of(nodes, children@), positions@, vals, k as int),
                group_distinct(positions@),
                c0.len() == n,
                forall|m: int| 0 <= m < positions@.len() ==> sorted@.contains(#[trigger] c0[positions@[m] as int]),
                forall|l: int| 0 <= l < k ==> children@[#[trigger] positions@[l] as int] == sorted@[l],
                forall|q: int| 0 <= q < n && (forall|l: int| 0 <= l < k ==> positions@[l] != q) ==> #[trigger] children@[q] == c0[q],
            decreases positions@.len() - k,
        {
            let pos = positions[k];
            assert(pos < n);
            let ghost prev = children@;
            let v = sorted[k];
            assert(v < nodes.len());
            children.set(pos, v);
            assert(names_of(nodes, children@) =~= names_of(nodes, prev).update(pos as int, vals[k as int]));
            proof {
                assert forall|l: int| 0 <= l < k + 1 implies children@[#[trigger] positions@[l] as int] == sorted@[l] by {
                    if l < k {
                        assert(positions@[l] != positions@[k as int]);
                    }
                }
            }
            k = k + 1;
        }
        proof {
            assert forall|x: usize| c0.contains(x) implies #[trigger] children@.contains(x) by {
                let q = choose|q: int| 0 <= q < c0.len() && c0[q] == x;
                if exists|m: int| 0 <= m < positions@.len() && positions@[m] == q {
                    let m = choose|m: int| 0 <= m < positions@.len() && positions@[m] == q;
                    assert(sorted@.contains(c0[positions@[m] as int]));
                    let l = choose|l: int| 0 <= l < sorted@.len() && sorted@[l] == x;
                    assert(children@[positions@[l] as int] == sorted@[l]);
                } else {
                    assert(children@[q] == c0[q]);
                }
            }
        }
    }

    /// Puts the inputs into canonical order, one group after the other.
    fn order_inputs(&self, children: &mut Vec<usize>, groups: &Vec<InputGroup>)
        requires
            all_below(old(children)@, self@.nodes.len()),
        ensures
            final(children)@.len() == old(children)@.len(),
            all_below(final(children)@, self@.nodes.len()),
            names_of(self@.nodes, final(children)@) == apply_groups(names_of(self@.nodes, old(children)@), groups_view(groups@), 0),
            forall|x: usize| old(children)@.contains(x) ==> #[trigger] final(children)@.contains(x),
    {
        let ghost gv = groups_view(groups@);
        let ghost goal = apply_groups(names_of(self@.nodes, children@), gv, 0);
        let mut g: usize = 0;
        while g < groups.len()
            invariant
                gv == groups_view(groups@),
                g <= groups@.len(),
                children@.len() == old(children)@.len(),
                all_below(children@, self@.nodes.len()),
                goal == apply_groups(names_of(self@.nodes, old(children)@), gv, 0),
                goal == apply_groups(names_of(self@.nodes, children@), gv, g as int),
                forall|x: usize| old(children)@.contains(x) ==> #[trigger] children@.contains(x),
            decreases groups@.len() - g,
        {
            assert(gv[g as int] == (groups@[g as int].0, groups@[g as int].1@));
            self.regroup_children(children, &groups[g]);
            g = g + 1;
        }
    }
}

/// What a sequence holds, a sequence that begins with it holds too.
proof fn lemma_prefix_contains(a: Seq<usize>, b: Seq<usize>, v: usize)
    requires
        a.len() <= b.len(),
        b.subrange(0, a.len() as int) == a,
        a.contains(v),
    ensures
        b.contains(v),
{
    let k = choose|k: int| 0 <= k < a.len() && a[k] == v;
    assert(b.subrange(0, a.len() as int)[k] == b[k]);
}

/// The index of the first binding of `name`.
fn find_binding<T>(bindings: &Vec<(String, T)>, name: &str) -> (r: Option<usize>)
    ensures
        r matches Some(k) ==> k < bindings@.len() && bound_names(bindings@)[k as int] == name@,
        r is None ==> !bound_names(bindings@).contains(name@),
{
    let target = String::from_str(name);
    let mut k: usize = 0;
    while k < bindings.len()
        invariant
            k <= bindings@.len(),
            target@ == name@,
            forall|j: int| 0 <= j < k ==> #[trigger] bound_names(bindings@)[j] != name@,
        decreases bindings@.len() - k,
    {
        if bindings[k].0 == target {
            return Some(k);
        }
        k = k + 1;
    }
    None
}

/// The index of the first strategy for the kind and text of `token`.
fn find_strategy_index<E, D>(strategies: &Vec<Strategy<E, D>>, token: &Token) -> (r: Option<usize>)
    ensures
        r matches Some(k) ==> k < strategies@.len() && find_strategy(strategies_view(strategies@), token@, 0) == Some(k as int),
        r is None ==> find_strategy(strategies_view(strategies@), token@, 0) is None,
{
    let ghost sv = strategies_view(strategies@);
    let kind = token.kind();
    let text = String::from_str(token.stringify());
    let mut k: usize = 0;
    while k < strategies.len()
        invariant
            k <= strategies@.len(),
            sv == strategies_view(strategies@),
            kind == token@.kind(),
            text@ == token@.text(),
            find_strategy(sv, token@, 0) == find_strategy(sv, token@, k as int),
        decreases strategies@.len() - k,
    {
        assert(sv[k as int] == strategies@[k as int]@);
        if strategies[k].kind == kind && strategies[k].token == text {
            return Some(k);
        }
        k = k + 1;
    }
    None
}

impl<T> Expression<T> {
    /// Appends `node`, whose name no node has, and adds it to the parents of
    /// each of its inputs, once per use.
    fn add_node(&mut self, node: Node<T>) -> (r: usize)
        requires
            nodes_wf(old(self)@.nodes),
            all_below(node@.children, old(self)@.nodes.len()),
            node@.name == compose_name(names_of(old(self)@.nodes, node@.children), node@.token.text()),
            node@.parents.len() == 0,
            node_type_of(node@.token) == Some(node@.node_type),
            node@.children.len() == arity_of(node@.token),
            node@.children.len() == 0 ==> node@.name == node@.token.text(),
            forall|k: int| 0 <= k < old(self)@.nodes.len() ==> #[trigger] old(self)@.nodes[k].name != node@.name,
        ensures
            nodes_wf(final(self)@.nodes),
            r == old(self)@.nodes.len(),
            final(self)@.nodes.len() == old(self)@.nodes.len() + 1,
            final(self)@.nodes[r as int].name == node@.name,
            final(self)@.nodes[r as int].token == node@.token,
            final(self)@.nodes[r as int].children == node@.children,
            forall|k: int| 0 <= k < old(self)@.nodes.len() ==> #[trigger] final(self)@.nodes[k].name == old(self)@.nodes[k].name
                && final(self)@.nodes[k].children == old(self)@.nodes[k].children
                && final(self)@.nodes[k].token == old(self)@.nodes[k].token
                && final(self)@.nodes[k].parents.len() >= old(self)@.nodes[k].parents.len(),
            final(self)@.root == old(self)@.root,
    {
        let ghost n0 = self@.nodes;
        let ghost nv = node@;
        let p = self.nodes.len();
        self.nodes.push(node);
        let ghost n1 = self@.nodes;
        assert(n1 =~= n0.push(nv));
        assert forall|x: int| 0 <= x < n1.len() implies #[trigger] grown(n1[x], self@.nodes[x], p, nv.children, x) by {
            assert(n1[x].parents.subrange(0, n1[x].parents.len() as int) =~= n1[x].parents);
        }
        let nch = self.nodes[p].children.len();
        let mut j: usize = 0;
        while j < nch
            invariant
                n1 == n0.push(nv),
                p == n0.len(),
                nch == nv.children.len(),
                all_below(nv.children, n0.len()),
                self@.nodes.len() == n1.len(),
                self@.root == old(self)@.root,
                j <= nch,
                forall|x: int| 0 <= x < n1.len() ==> #[trigger] grown(n1[x], self@.nodes[x], p, nv.children, x),
                forall|jj: int| 0 <= jj < j ==> #[trigger] self@.nodes[nv.children[jj] as int].parents.contains(p),
            decreases nch - j,
        {
            let ghost before = self@.nodes;
            assert(grown(n1[p as int], before[p as int], p, nv.children, p as int));
            let c = self.nodes[p].children[j];
            assert(c == nv.children[j as int]);
            assert(c < p);
            self.nodes[c].parents.push(p);
            proof {
                let after = self@.nodes;
                assert(after[c as int].parents == before[c as int].parents.push(p));
                assert forall|x: int| 0 <= x < n1.len() implies #[trigger] grown(n1[x], after[x], p, nv.children, x) by {
                    assert(grown(n1[x], before[x], p, nv.children, x));
                    if x == c {
                        assert(after[x].parents.subrange(0, n1[x].parents.len() as int) =~= before[x].parents.subrange(0, n1[x].parents.len() as int));
                        assert(nv.children[j as int] == x);
                        assert(nv.children.contains(x as usize));
                    } else {
                        assert(after[x] == before[x]);
                    }
                }
                assert forall|jj: int| 0 <= jj < j + 1 implies #[trigger] after[nv.children[jj] as int].parents.contains(p) by {
                    let cj = nv.children[jj];
                    if jj == j {
                        assert(after[c as int].parents.last() == p);
                    } else if cj == c {
                        assert(after[c as int].parents.subrange(0, before[c as int].parents.len() as int) =~= before[c as int].parents);
                        lemma_prefix_contains(before[c as int].parents, after[c as int].parents, p);
                    } else {
                        assert(after[cj as int] == before[cj as int]);
                    }
                }
            }
            j = j + 1;
        }
        proof {
            let nf = self@.nodes;
            assert forall|i: int| 0 <= i < nf.len() implies #[trigger] node_wf(nf, i) by {
                let a = n1[i];
                let b = nf[i];
                assert(grown(a, b, p, nv.children, i));
                if i < p {
                    assert(node_wf(n0, i));
                    assert(a == n0[i]);
                } else {
                    assert(a == nv);
                }
                assert(names_of(nf, b.children) =~= names_of(n0, a.children)) by {
                    assert forall|j: int| 0 <= j < b.children.len() implies #[trigger] names_of(nf, b.children)[j] == names_of(n0, a.children)[j] by {
                        let c = b.children[j];
                        assert(c < p);
                        assert(grown(n1[c as int], nf[c as int], p, nv.children, c as int));
                    }
                }
                assert forall|k: int| 0 <= k < b.parents.len() implies #[trigger] b.parents[k] < nf.len()
                    && nf[b.parents[k] as int].children.contains(i as usize) by {
                    if k < a.parents.len() {
                        assert(b.parents.subrange(0, a.parents.len() as int)[k] == b.parents[k]);
                        let q = a.parents[k];
                        assert(q < n0.len());
                        assert(grown(n1[q as int], nf[q as int], p, nv.children, q as int));
                    } else {
                        assert(b.parents[k] == p);
                        assert(grown(n1[p as int], nf[p as int], p, nv.children, p as int));
                    }
                }
                assert forall|j: int| 0 <= j < b.children.len() implies #[trigger] nf[b.children[j] as int].parents.contains(i as usize) by {
                    let c = b.children[j];
                    if i < p {
                        assert(n0[c as int].parents.contains(i as usize));
                        assert(grown(n1[c as int], nf[c as int], p, nv.children, c as int));
                        lemma_prefix_contains(n1[c as int].parents, nf[c as int].parents, i as usize);
                    } else {
                        assert(nv.children[j] == c);
                    }
                }
            }
            assert forall|x: int, y: int| 0 <= x < nf.len() && 0 <= y < nf.len() && x != y
                implies #[trigger] nf[x].name != #[trigger] nf[y].name by {
                assert(grown(n1[x], nf[x], p, nv.children, x));
                assert(grown(n1[y], nf[y], p, nv.children, y));
            }
            assert forall|k: int| 0 <= k < n0.len() implies #[trigger] nf[k].name == n0[k].name
                && nf[k].children == n0[k].children && nf[k].token == n0[k].token
                && nf[k].parents.len() >= n0[k].parents.len() by {
                assert(grown(n1[k], nf[k], p, nv.children, k));
            }
            assert(grown(n1[p as int], nf[p as int], p, nv.children, p as int));
        }
        p
    }

    /// The node for `token` with inputs `children`: an existing node of the
    /// same canonical name, or else a new one; `None` where the node of that
    /// name has another token or other inputs.
    fn intern(
        &mut self,
        node_type: NodeType,
        token: &Token,
        children: Vec<usize>,
        groups: Vec<InputGroup>,
        value: Option<T>,
        strategy: Option<usize>,
    ) -> (r: Option<usize>)
        requires
            nodes_wf(old(self)@.nodes),
            all_below(children@, old(self)@.nodes.len()),
            node_type_of(token@) == Some(node_type),
            children@.len() == arity_of(token@),
        ensures
            final(self)@.root == old(self)@.root,
            ({
                let n0 = old(self)@.nodes;
                let inputs = names_of(n0, children@);
                let en = (compose_name(inputs, token@.text()), token@, inputs);
                let nf = final(self)@.nodes;
                &&& match find_entry(entries(n0), en.0, 0) {
                    Some(k) => if entries(n0)[k] == en {
                        r == Some(k as usize) && nf == n0
                    } else {
                        r is None
                    },
                    None => r == Some(n0.len() as usize) && nodes_wf(nf) && entries(nf) == entries(n0).push(en)
                        && nf.len() == n0.len() + 1
                        && forall|k: int| 0 <= k < n0.len() ==> #[trigger] nf[k].name == n0[k].name
                            && nf[k].parents.len() >= n0[k].parents.len(),
                }
                &&& r matches Some(x) ==> x < nf.len() && nf[x as int].children == children@ && nodes_wf(nf)
                    && n0.len() <= nf.len() <= n0.len() + 1 && (nf.len() == n0.len() + 1 ==> x == n0.len())
            }),
    {
        let ghost n0 = self@.nodes;
        let ghost inputs = names_of(n0, children@);
        let ghost en = (compose_name(inputs, token@.text()), token@, inputs);
        let name = self.compose(&children, token.stringify());
        proof {
            if children@.len() == 0 {
                assert(names_of(n0, children@) =~= Seq::<Seq<char>>::empty());
                assert(compose_name(Seq::empty(), token@.text()) =~= token@.text());
            }
        }
        match self.find_node(&name) {
            Some(k) => {
                proof {
                    lemma_find_entry_at(n0, name@, k as int);
                }
                let same = self.nodes[k].token.same_as(token) && same_positions(self.nodes[k].children.as_slice(), children.as_slice());
                proof {
                    assert(n0[k as int] == self.nodes@[k as int]@);
                    if entries(n0)[k as int] == en {
                        assert(node_wf(n0, k as int));
                        lemma_names_injective(n0, n0[k as int].children, children@);
                    }
                }
                if same {
                    assert(self.nodes@[k as int]@.children == children@);
                    assert(self@.nodes == n0);
                    Some(k)
                } else {
                    None
                }
            },
            None => {
                proof {
                    lemma_find_entry_none(n0, name@);
                }
                let ghost ch = children@;
                let node = Node {
                    node_type,
                    token: token.duplicate(),
                    order_of_inputs: groups,
                    parents: Vec::new(),
                    children,
                    name,
                    value,
                    strategy,
                };
                assert(node@.parents =~= Seq::<usize>::empty());
                let idx = self.add_node(node);
                proof {
                    let nf = self@.nodes;
                    assert forall|k: int| 0 <= k < n0.len() implies #[trigger] entries(nf)[k] == entries(n0)[k] by {
                        assert(nf[k].name == n0[k].name);
                        assert(nf[k].children == n0[k].children);
                        assert(nf[k].token == n0[k].token);
                        assert(node_wf(n0, k));
                        let c = n0[k].children;
                        assert forall|j: int| 0 <= j < c.len() implies #[trigger] names_of(nf, c)[j] == names_of(n0, c)[j] by {
                            assert(c[j] < k);
                            assert(nf[c[j] as int].name == n0[c[j] as int].name);
                        }
                        assert(names_of(nf, c) =~= names_of(n0, c));
                    }
                    assert forall|j: int| 0 <= j < ch.len() implies #[trigger] names_of(nf, ch)[j] == inputs[j] by {
                        assert(ch[j] < n0.len());
                        assert(nf[ch[j] as int].name == n0[ch[j] as int].name);
                    }
                    assert(names_of(nf, ch) =~= inputs);
                    assert(entries(nf)[n0.len() as int] == en);
                    assert(entries(nf) =~= entries(n0).push(en));
                }
                Some(idx)
            },
        }
    }
}

/// Whether two sequences of node indices are equal.
fn same_positions(a: &[usize], b: &[usize]) -> (r: bool)
    ensures
        r == (a@ == b@),
{
    if a.len() != b.len() {
        return false;
    }
    let mut i: usize = 0;
    while i < a.len()
        invariant
            a@.len() == b@.len(),
            i <= a@.len(),
            forall|j: int| 0 <= j < i ==> a@[j] == b@[j],
        decreases a@.len() - i,
    {
        if a[i] != b[i] {
            return false;
        }
        i = i + 1;
    }
    assert(a@ =~= b@);
    true
}

/// After a step, every node has a parent or is on the stack: those that
/// were on the stack and are now inputs of node `idx` have it as parent.
proof fn lemma_parents_kept(n0: Seq<NodeView>, nf: Seq<NodeView>, rest: Seq<usize>, kids: Seq<usize>, idx: usize, stack: Seq<usize>)
    requires
        nodes_wf(nf),
        n0.len() <= nf.len(),
        nf.len() <= usize::MAX,
        idx < nf.len(),
        nf[idx as int].children == kids,
        nf.len() <= n0.len() + 1,
        nf.len() == n0.len() + 1 ==> idx == n0.len(),
        forall|k: int| 0 <= k < n0.len() ==> #[trigger] nf[k].parents.len() >= n0[k].parents.len(),
        forall|k: int| 0 <= k < n0.len() ==> #[trigger] n0[k].parents.len() > 0 || rest.contains(k as usize) || kids.contains(k as usize),
        stack == rest.push(idx),
    ensures
        forall|k: int| 0 <= k < nf.len() ==> #[trigger] nf[k].parents.len() > 0 || stack.contains(k as usize),
{
    assert(node_wf(nf, idx as int));
    assert forall|k: int| 0 <= k < nf.len() implies #[trigger] nf[k].parents.len() > 0 || stack.contains(k as usize) by {
        if k == idx {
            assert(stack[rest.len() as int] == k as usize);
        } else {
            assert(k < n0.len());
            assert(nf[k].parents.len() >= n0[k].parents.len());
            if n0[k].parents.len() > 0 {
            } else if rest.contains(k as usize) {
                let j = choose|j: int| 0 <= j < rest.len() && rest[j] == k as usize;
                assert(stack[j] == k as usize);
            } else {
                assert(kids.contains(k as usize));
                let j = choose|j: int| 0 <= j < kids.len() && kids[j] == k as usize;
                assert(nf[nf[idx as int].children[j] as int].parents.contains((idx as int) as usize));
            }
        }
    }
}

/// An entry that `find_entry` finds is one of `nodes`, of that name.
proof fn lemma_find_entry_range(nodes: Seq<NodeEntry>, name: Seq<char>, i: int)
    ensures
        find_entry(nodes, name, i) matches Some(k) ==> i <= k < nodes.len() && nodes[k].0 == name,
    decreases nodes.len() - i,
{
    if 0 <= i < nodes.len() && nodes[i].0 != name {
        lemma_find_entry_range(nodes, name, i + 1);
    }
}

/// Among nodes of distinct names, the node named like node `k` is found at `k`.
proof fn lemma_find_entry_at(nodes: Seq<NodeView>, name: Seq<char>, k: int)
    requires
        names_unique(nodes),
        0 <= k < nodes.len(),
        nodes[k].name == name,
    ensures
        find_entry(entries(nodes), name, 0) == Some(k),
{
    let e = entries(nodes);
    assert forall|i: int| 0 <= i <= k implies find_entry(e, name, i) == Some(k) by {
        lemma_find_entry_from(nodes, name, k, i);
    }
}

proof fn lemma_find_entry_from(nodes: Seq<NodeView>, name: Seq<char>, k: int, i: int)
    requires
        names_unique(nodes),
        0 <= k < nodes.len(),
        nodes[k].name == name,
        0 <= i <= k,
    ensures
        find_entry(entries(nodes), name, i) == Some(k),
    decreases k - i,
{
    let e = entries(nodes);
    assert(e[i].0 == nodes[i].name);
    if i < k {
        assert(nodes[i].name != nodes[k].name);
        lemma_find_entry_from(nodes, name, k, i + 1);
    }
}

/// No entry is found for a name that no node has.
proof fn lemma_find_entry_none(nodes: Seq<NodeView>, name: Seq<char>)
    requires
        forall|k: int| 0 <= k < nodes.len() ==> #[trigger] nodes[k].name != name,
    ensures
        find_entry(entries(nodes), name, 0) is None,
{
    lemma_find_entry_none_from(nodes, name, 0);
}

proof fn lemma_find_entry_none_from(nodes: Seq<NodeView>, name: Seq<char>, i: int)
    requires
        forall|k: int| 0 <= k < nodes.len() ==> #[trigger] nodes[k].name != name,
        0 <= i,
    ensures
        find_entry(entries(nodes), name, i) is None,
    decreases nodes.len() - i,
{
    if i < nodes.len() {
        assert(entries(nodes)[i].0 == nodes[i].name);
        lemma_find_entry_none_from(nodes, name, i + 1);
    }
}

/// Among nodes of distinct names, the names of the inputs fix the inputs.
proof fn lemma_names_injective(nodes: Seq<NodeView>, a: Seq<usize>, b: Seq<usize>)
    requires
        names_unique(nodes),
        all_below(a, nodes.len()),
        all_below(b, nodes.len()),
        names_of(nodes, a) == names_of(nodes, b),
    ensures
        a == b,
{
    assert(a.len() == names_of(nodes, a).len());
    assert forall|j: int| 0 <= j < a.len() implies a[j] == b[j] by {
        assert(names_of(nodes, a)[j] == nodes[a[j] as int].name);
        assert(names_of(nodes, b)[j] == nodes[b[j] as int].name);
        assert(a[j] < nodes.len());
        assert(b[j] < nodes.len());
    }
    assert(a =~= b);
}

impl<T> Expression<T> {
    /// Builds the graph of a postfix sequence (see `graph_spec`): leaves get
    /// their values from the literal, the identities or `bindings`; operators
    /// and functions get their inputs from the nodes built before, and their
    /// strategy from `strategies`. Returns the root.
    fn build_graph<E, D>(&mut self, tokens: &Vec<Token>, bindings: &Vec<(String, T)>, strategies: &Vec<Strategy<E, D>>) -> (r: Result<usize, BuildError>)
        where
            T: LeafMake<T> + Clone,
        requires
            old(self)@.nodes.len() == 0,
        ensures
            final(self)@.root == old(self)@.root,
            r matches Ok(root) ==> nodes_wf(final(self)@.nodes) && root < final(self)@.nodes.len()
                && graph_spec(tokens_view(tokens@), bound_names(bindings@), strategies_view(strategies@))
                == Ok::<(Seq<NodeEntry>, int), BuildError>((entries(final(self)@.nodes), root as int))
                && canonical_name(tokens_view(tokens@), bound_names(bindings@), strategies_view(strategies@))
                == Ok::<Seq<char>, BuildError>(final(self)@.nodes[root as int].name)
                && final(self)@.nodes[root as int].token == tokens_view(tokens@).last()
                && forall|k: int| 0 <= k < final(self)@.nodes.len() && k != root ==> #[trigger] final(self)@.nodes[k].parents.len() > 0,
            r matches Err(e) ==> graph_spec(tokens_view(tokens@), bound_names(bindings@), strategies_view(strategies@))
                == Err::<(Seq<NodeEntry>, int), BuildError>(e)
                && (e !is NameClash ==> canonical_name(tokens_view(tokens@), bound_names(bindings@), strategies_view(strategies@))
                == Err::<Seq<char>, BuildError>(e)),
    {
        let ghost tv = tokens_view(tokens@);
        let ghost bound = bound_names(bindings@);
        let ghost table = strategies_view(strategies@);
        let mut nodestack: Vec<usize> = Vec::new();
        let mut i: usize = 0;
        assert(names_of(self@.nodes, nodestack@) =~= Seq::<Seq<char>>::empty());
        assert(entries(self@.nodes) =~= Seq::<NodeEntry>::empty());
        while i < tokens.len()
            invariant
                tv == tokens_view(tokens@),
                bound == bound_names(bindings@),
                table == strategies_view(strategies@),
                self@.root == old(self)@.root,
                i <= tokens@.len(),
                self@.nodes.len() <= i,
                nodes_wf(self@.nodes),
                all_below(nodestack@, self@.nodes.len()),
                name_stack(tv, 0, Seq::empty(), bound, table) == name_stack(tv, i as int, names_of(self@.nodes, nodestack@), bound, table),
                graph_run(tv, 0, Seq::empty(), Seq::empty(), bound, table)
                    == graph_run(tv, i as int, entries(self@.nodes), names_of(self@.nodes, nodestack@), bound, table),
                i > 0 ==> nodestack@.len() > 0 && self@.nodes[nodestack@.last() as int].token == tv[i - 1],
                forall|k: int| 0 <= k < self@.nodes.len() ==> #[trigger] self@.nodes[k].parents.len() > 0 || nodestack@.contains(k as usize),
            decreases tokens@.len() - i,
        {
            let tok = &tokens[i];
            assert(tv[i as int] == tok@);
            let ghost st = names_of(self@.nodes, nodestack@);
            let ghost n0 = self@.nodes;
            let ghost ns0 = nodestack@;
            let mut leaf: Option<T> = None;
            match tok {
                Token::Number(num) => {
                    leaf = Some(T::from_str(num.get_token()));
                },
                Token::Zero => {
                    leaf = Some(T::from_zero());
                },
                Token::Unity => {
                    leaf = Some(T::from_unity());
                },
                Token::Variable(var) => {
                    match find_binding(bindings, var.get_token()) {
                        None => {
                            return Err(BuildError::UnboundVariable { position: i });
                        },
                        Some(b) => {
                            assert(bound[b as int] == var@);
                            leaf = Some(bindings[b].1.clone());
                        },
                    }
                },
                Token::Operator(_) | Token::Function(_) => {},
                _ => {
                    return Err(BuildError::MalformedPostfix);
                },
            }
            let ghost cut: int;
            let ghost inputs: Seq<Seq<char>>;
            let ghost kids: Seq<usize>;
            let interned = if leaf.is_some() {
                proof {
                    cut = st.len() as int;
                    inputs = Seq::empty();
                    kids = Seq::empty();
                    assert(names_of(n0, Seq::<usize>::empty()) =~= Seq::<Seq<char>>::empty());
                }
                self.intern(NodeType::LeafNode, tok, Vec::new(), Vec::new(), leaf, None)
            } else {
                let n: usize = match tok {
                    Token::Operator(Operator::UnaryOperator(_)) => 1,
                    Token::Operator(Operator::BinaryOperator(_)) => 2,
                    Token::Function(f) => f.get_n_inputs() as usize,
                    _ => 0,
                };
                assert(n == arity_of(tok@));
                if nodestack.len() < n {
                    return Err(BuildError::MalformedPostfix);
                }
                let k = match find_strategy_index(strategies, tok) {
                    None => {
                        return Err(BuildError::MissingEvaluator { position: i });
                    },
                    Some(k) => k,
                };
                let strategy = &strategies[k];
                assert(table[k as int] == strategy@);
                if strategy.evaluator.is_none() {
                    return Err(BuildError::MissingEvaluator { position: i });
                }
                if strategy.derivative.is_none() {
                    return Err(BuildError::MissingDerivative { position: i });
                }
                let c = nodestack.len() - n;
                let mut children = nodestack.split_off(c);
                proof {
                    cut = c as int;
                    assert(names_of(n0, children@) =~= st.subrange(cut, st.len() as int));
                    assert(names_of(n0, nodestack@) =~= st.subrange(0, cut));
                    assert forall|j: int| 0 <= j < children@.len() implies #[trigger] children@[j] < n0.len() by {
                        assert(children@[j] == ns0[cut + j]);
                    }
                    assert forall|j: int| 0 <= j < nodestack@.len() implies #[trigger] nodestack@[j] < n0.len() by {
                        assert(nodestack@[j] == ns0[j]);
                    }
                }
                let ghost popped = children@;
                self.order_inputs(&mut children, &strategy.order_of_inputs);
                proof {
                    inputs = names_of(n0, children@);
                    kids = children@;
                    assert forall|k: int| 0 <= k < n0.len() implies #[trigger] n0[k].parents.len() > 0
                        || nodestack@.contains(k as usize) || children@.contains(k as usize) by {
                        if ns0.contains(k as usize) && !(n0[k].parents.len() > 0) {
                            let j = choose|j: int| 0 <= j < ns0.len() && ns0[j] == k as usize;
                            if j < cut {
                                assert(nodestack@[j] == ns0[j]);
                            } else {
                                assert(popped[j - cut] == ns0[j]);
                                assert(popped.contains(k as usize));
                            }
                        }
                    }
                }
                let groups = copy_groups(&strategy.order_of_inputs);
                let node_type = match tok {
                    Token::Operator(Operator::UnaryOperator(_)) => NodeType::UnaryOperator,
                    Token::Operator(Operator::BinaryOperator(_)) => NodeType::BinaryOperator,
                    _ => NodeType::Function,
                };
                self.intern(node_type, tok, children, groups, None, Some(k))
            };
            let ghost en = (compose_name(inputs, tok@.text()), tok@, inputs);
            let ghost rest = nodestack@;
            assert(forall|k: int| 0 <= k < n0.len() ==> #[trigger] n0[k].parents.len() > 0
                || rest.contains(k as usize) || kids.contains(k as usize));
            proof {
                if leaf.is_some() {
                    assert(compose_name(Seq::<Seq<char>>::empty(), tok@.text()) =~= tok@.text());
                }
                assert(step_entry(st, tok@, table) == en);
                assert(names_of(n0, nodestack@) == st.subrange(0, cut));
            }
            match interned {
                None => {
                    return Err(BuildError::NameClash { position: i });
                },
                Some(idx) => {
                    let ghost before = nodestack@;
                    proof {
                        let nf = self@.nodes;
                        assert forall|j: int| 0 <= j < before.len() implies #[trigger] names_of(nf, before)[j] == names_of(n0, before)[j] by {
                            assert(before[j] < n0.len());
                        }
                        assert(names_of(nf, before) =~= names_of(n0, before));
                        lemma_find_entry_range(entries(n0), en.0, 0);
                        match find_entry(entries(n0), en.0, 0) {
                            Some(k) => {
                                assert(entries(n0)[k] == entry_of(n0, k));
                                assert(nf[idx as int].name == en.0);
                                assert(nf == n0);
                            },
                            None => {
                                assert(entries(nf)[n0.len() as int] == en);
                                assert(entries(nf)[idx as int] == entry_of(nf, idx as int));
                                assert(nf[idx as int].name == en.0);
                            },
                        }
                    }
                    nodestack.push(idx);
                    proof {
                        assert(self@.nodes.len() == self.nodes@.len());
                        assert forall|k: int| 0 <= k < n0.len() implies #[trigger] self@.nodes[k].parents.len() >= n0[k].parents.len() by {
                            lemma_find_entry_range(entries(n0), en.0, 0);
                            if find_entry(entries(n0), en.0, 0) is None {
                                assert(self@.nodes[k].name == n0[k].name);
                            }
                        }
                        lemma_parents_kept(n0, self@.nodes, rest, kids, idx, nodestack@);
                    }
                    assert(names_of(self@.nodes, nodestack@) =~= names_of(n0, before).push(en.0));
                    assert(names_of(n0, before).push(en.0) =~= st.subrange(0, cut).push(en.0));
                }
            }
            i = i + 1;
        }
        if nodestack.len() != 1 {
            return Err(BuildError::MalformedPostfix);
        }
        proof {
            assert(names_of(self@.nodes, nodestack@)[0] == self@.nodes[nodestack@[0] as int].name);
            lemma_find_entry_at(self@.nodes, self@.nodes[nodestack@[0] as int].name, nodestack@[0] as int);
        }
        Ok(nodestack[0])
    }

    /// Builds the expression graph of a postfix sequence (see `graph_spec`).
    /// Variables take their values from `bindings` (the first binding of a
    /// name counts); each operator and function needs an entry in
    /// `strategies` with both an evaluator and a derivative. On success the
    /// nodes are exactly those of `graph_spec`, the root is the node of the
    /// last token and its name is `canonical_name` of the sequence. Every
    /// other node is an input of some node; as each node comes after its
    /// inputs, following parents from any node ends at the root.
    pub fn from_tokens<E, D>(tokens: &Vec<Token>, bindings: &Vec<(String, T)>, strategies: &Vec<Strategy<E, D>>) -> (r: Result<Self, BuildError>)
        where
            T: LeafMake<T> + Clone,
        ensures
            r matches Ok(e) ==> e.wf()
                && graph_spec(tokens_view(tokens@), bound_names(bindings@), strategies_view(strategies@))
                == Ok::<(Seq<NodeEntry>, int), BuildError>((entries(e@.nodes), e@.root as int))
                && canonical_name(tokens_view(tokens@), bound_names(bindings@), strategies_view(strategies@))
                == Ok::<Seq<char>, BuildError>(e@.nodes[e@.root as int].name)
                && e@.nodes[e@.root as int].token == tokens_view(tokens@).last()
                && forall|k: int| 0 <= k < e@.nodes.len() && k != e@.root ==> #[trigger] e@.nodes[k].parents.len() > 0,
            r matches Err(err) ==> graph_spec(tokens_view(tokens@), bound_names(bindings@), strategies_view(strategies@))
                == Err::<(Seq<NodeEntry>, int), BuildError>(err)
                && (err !is NameClash ==> canonical_name(tokens_view(tokens@), bound_names(bindings@), strategies_view(strategies@))
                == Err::<Seq<char>, BuildError>(err)),
    {
        let mut expr = Expression { nodes: Vec::new(), root: 0 };
        assert(expr@.nodes =~= Seq::<NodeView>::empty());
        match expr.build_graph(tokens, bindings, strategies) {
            Ok(root) => {
                expr.root = root;
                Ok(expr)
            },
            Err(e) => Err(e),
        }
    }
}

impl<T> Expression<T> {
    /// The node type for a token; `None` for tokens that make no node.
    pub fn get_node_type(token: &Token) -> (r: Option<NodeType>)
        ensures
            r == node_type_of(token@),
    {
        match token {
            Token::Number(_) => Some(NodeType::LeafNode),
            Token::Zero => Some(NodeType::LeafNode),
            Token::Unity => Some(NodeType::LeafNode),
            Token::Variable(_) => Some(NodeType::LeafNode),
            Token::Function(_) => Some(NodeType::Function),
            Token::Operator(Operator::UnaryOperator(_)) => Some(NodeType::UnaryOperator),
            Token::Operator(Operator::BinaryOperator(_)) => Some(NodeType::BinaryOperator),
            _ => None,
        }
    }

    /// The node whose canonical name is `nodestr`.
    pub fn get_node(&self, nodestr: &str) -> (r: Option<&Node<T>>)
        ensures
            r matches Some(nd) ==> exists|k: int| 0 <= k < self@.nodes.len() && self@.nodes[k] == nd@ && nd@.name == nodestr@,
            r is None ==> forall|k: int| 0 <= k < self@.nodes.len() ==> #[trigger] self@.nodes[k].name != nodestr@,
    {
        let name = String::from_str(nodestr);
        match self.find_node(&name) {
            Some(k) => Some(&self.nodes[k]),
            None => None,
        }
    }

    /// The value bound to node `k`.
    pub closed spec fn value_at(&self, k: int) -> Option<T> {
        self.nodes@[k].value
    }

    /// Binds the variable leaf `name` to `value`. Returns whether the graph
    /// has such a leaf; the structure and the names stay as they are, and no
    /// other node's value changes.
    pub fn rebind(&mut self, name: &str, value: T) -> (r: bool)
        ensures
            final(self)@ == old(self)@,
            r == exists|k: int| 0 <= k < old(self)@.nodes.len() && #[trigger] old(self)@.nodes[k].token == TokenView::Variable(name@),
            r ==> exists|k: int| 0 <= k < old(self)@.nodes.len() && #[trigger] old(self)@.nodes[k].token == TokenView::Variable(name@)
                && final(self).value_at(k) == Some(value)
                && forall|j: int| 0 <= j < old(self)@.nodes.len() && j != k ==> #[trigger] final(self).value_at(j) == old(self).value_at(j),
            !r ==> forall|j: int| 0 <= j < old(self)@.nodes.len() ==> #[trigger] final(self).value_at(j) == old(self).value_at(j),
    {
        let ghost v0 = self@;
        let target = String::from_str(name);
        let mut k: usize = 0;
        while k < self.nodes.len()
            invariant
                self@ == v0,
                v0 == old(self)@,
                self.nodes@ == old(self).nodes@,
                target@ == name@,
                k <= v0.nodes.len(),
                forall|j: int| 0 <= j < k ==> #[trigger] v0.nodes[j].token != TokenView::Variable(name@),
            decreases v0.nodes.len() - k,
        {
            let is_target = match &self.nodes[k].token {
                Token::Variable(var) => String::from_str(var.get_token()) == target,
                _ => false,
            };
            assert(v0.nodes[k as int] == self.nodes@[k as int]@);
            if is_target {
                assert(v0.nodes[k as int].token == TokenView::Variable(name@));
                let ghost before = self.nodes@;
                self.nodes[k].value = Some(value);
                assert(self.value_at(k as int) == Some(value));
                assert forall|j: int| 0 <= j < v0.nodes.len() && j != k implies #[trigger] self.value_at(j) == old(self).value_at(j) by {
                    assert(self.nodes@[j] == before[j]);
                }
                assert(self@.nodes =~= v0.nodes);
                assert(self@.root == v0.root);
                assert(self@ == v0);
                return true;
            }
            k = k + 1;
        }
        false
    }

    /// The number of nodes.
    pub fn len(&self) -> (r: usize)
        ensures
            r == self@.nodes.len(),
    {
        self.nodes.len()
    }

    /// The node at index `i`.
    pub fn node(&self, i: usize) -> (r: &Node<T>)
        requires
            i < self@.nodes.len(),
        ensures
            r@ == self@.nodes[i as int],
            r.value_spec() == self.value_at(i as int),
    {
        &self.nodes[i]
    }

    /// The index of the root.
    pub fn root_index(&self) -> (r: usize)
        ensures
            r == self@.root,
    {
        self.root
    }

    /// The root node.
    pub fn root(&self) -> (r: &Node<T>)
        requires
            self.wf(),
        ensures
            r@ == self@.nodes[self@.root as int],
    {
        &self.nodes[self.root]
    }
}

/// Of two different names, exactly one comes first.
proof fn lemma_name_order_total(a: Seq<char>, b: Seq<char>, i: int)
    requires
        0 <= i <= a.len(),
        i <= b.len(),
        a.subrange(0, i) == b.subrange(0, i),
        a != b,
    ensures
        name_lt_from(a, b, i) != name_lt_from(b, a, i),
    decreases a.len() - i,
{
    if i >= a.len() && i >= b.len() {
        assert(a =~= a.subrange(0, i));
        assert(b =~= b.subrange(0, i));
    } else if i < a.len() && i < b.len() {
        if a[i] == b[i] {
            assert(a.subrange(0, i + 1) =~= a.subrange(0, i).push(a[i]));
            assert(b.subrange(0, i + 1) =~= b.subrange(0, i).push(b[i]));
            lemma_name_order_total(a, b, i + 1);
        } else {
            vstd::utf8::char_u32_cast(a[i], a[i] as u32);
            vstd::utf8::char_u32_cast(b[i], b[i] as u32);
        }
    }
}

/// One name is sorted.
proof fn lemma_sort_one(a: Seq<char>)
    ensures
        sort_names(seq![a]) == seq![a],
{
    let e = Seq::<Seq<char>>::empty();
    assert(seq![a].drop_last() =~= e);
    assert(sort_names(e) == e);
    assert(first_greater(a, e, 0) == 0);
    assert(e.insert(0, a) =~= seq![a]);
}

/// Sorting two names gives the same order whichever comes first.
proof fn lemma_sort_two(a: Seq<char>, b: Seq<char>)
    ensures
        sort_names(seq![a, b]) == sort_names(seq![b, a]),
{
    assert(seq![a, b].drop_last() =~= seq![a]);
    assert(seq![b, a].drop_last() =~= seq![b]);
    assert(seq![a].drop_last() =~= Seq::<Seq<char>>::empty());
    assert(seq![b].drop_last() =~= Seq::<Seq<char>>::empty());
    lemma_sort_one(a);
    lemma_sort_one(b);
    assert(first_greater(b, seq![a], 1) == 1);
    assert(first_greater(a, seq![b], 1) == 1);
    if a == b {
    } else {
        assert(a.subrange(0, 0) =~= b.subrange(0, 0));
        lemma_name_order_total(a, b, 0);
        if name_lt(a, b) {
            assert(insert_sorted(a, seq![b]) =~= seq![a, b]);
            assert(insert_sorted(b, seq![a]) =~= seq![a, b]);
        } else {
            assert(insert_sorted(a, seq![b]) =~= seq![b, a]);
            assert(insert_sorted(b, seq![a]) =~= seq![b, a]);
        }
    }
}

/// The single group that marks both inputs of a binary node as commutative.
pub open spec fn both_commutative() -> Seq<GroupView> {
    seq![(CommutativityType::Commutative, seq![0usize, 1usize])]
}

/// With both inputs in one commutative group, the order of the two input
/// names does not matter.
proof fn lemma_swap_inputs(a: Seq<char>, b: Seq<char>)
    ensures
        apply_groups(seq![a, b], both_commutative(), 0) == apply_groups(seq![b, a], both_commutative(), 0),
{
    let g = both_commutative();
    let pos = seq![0usize, 1usize];
    assert(group_in_range(pos, 2));
    assert(group_distinct(pos));
    let ab = seq![a, b];
    let ba = seq![b, a];
    assert(pos.map_values(|k: usize| ab[k as int]) =~= ab);
    assert(pos.map_values(|k: usize| ba[k as int]) =~= ba);
    lemma_sort_two(a, b);
    let sorted = sort_names(ab);
    assert(sorted.len() == 2) by {
        assert(ab.drop_last() =~= seq![a]);
        lemma_sort_one(a);
        assert(sorted == insert_sorted(b, seq![a]));
        assert(first_greater(b, seq![a], 1) == 1);
        assert(0 <= first_greater(b, seq![a], 0) <= 1);
    }
    assert(write_back(ab, pos, sorted, 0) =~= sorted) by {
        let w1 = ab.update(0, sorted[0]);
        let w2 = w1.update(1, sorted[1]);
        assert(write_back(w2, pos, sorted, 2) == w2);
        assert(write_back(w1, pos, sorted, 1) == write_back(w2, pos, sorted, 2));
        assert(write_back(ab, pos, sorted, 0) == write_back(w1, pos, sorted, 1));
        assert(w2 =~= sorted);
    }
    assert(write_back(ba, pos, sorted, 0) =~= sorted) by {
        let w1 = ba.update(0, sorted[0]);
        let w2 = w1.update(1, sorted[1]);
        assert(write_back(w2, pos, sorted, 2) == w2);
        assert(write_back(w1, pos, sorted, 1) == write_back(w2, pos, sorted, 2));
        assert(write_back(ba, pos, sorted, 0) == write_back(w1, pos, sorted, 1));
        assert(w2 =~= sorted);
    }
    assert(apply_groups(regroup(ab, g[0]), g, 1) == regroup(ab, g[0]));
    assert(apply_groups(regroup(ba, g[0]), g, 1) == regroup(ba, g[0]));
}

/// A step that succeeds gives the same stack at any position.
proof fn lemma_step_position(stack: Seq<Seq<char>>, t: TokenView, at: int, elsewhere: int, bound: Seq<Seq<char>>, table: Seq<StrategyView>)
    ensures
        name_step(stack, t, at, bound, table) is Ok ==> name_step(stack, t, elsewhere, bound, table) == name_step(stack, t, at, bound, table),
{
}

/// A step that succeeds on `s` does the same on top of `s0`.
proof fn lemma_step_under(s0: Seq<Seq<char>>, s: Seq<Seq<char>>, t: TokenView, pos: int, bound: Seq<Seq<char>>, table: Seq<StrategyView>)
    ensures
        name_step(s, t, pos, bound, table) matches Ok(st) ==> name_step(s0 + s, t, pos, bound, table) == Ok::<Seq<Seq<char>>, BuildError>(s0 + st),
{
    match name_step(s, t, pos, bound, table) {
        Ok(st) => {
            let n = arity_of(t);
            if t is Operator || t is Function {
                let cut = s.len() - n;
                let full = s0 + s;
                assert(full.subrange(s0.len() + cut, full.len() as int) =~= s.subrange(cut, s.len() as int));
                assert(full.subrange(0, s0.len() + cut) =~= s0 + s.subrange(0, cut));
                let k = find_strategy(table, t, 0)->0;
                let x = compose_name(apply_groups(s.subrange(cut, s.len() as int), table[k].groups, 0), t.text());
                assert((s0 + s.subrange(0, cut)).push(x) =~= s0 + s.subrange(0, cut).push(x));
            } else {
                assert((s0 + s).push(t.text()) =~= s0 + s.push(t.text()));
                if let TokenView::Variable(v) = t {
                    assert((s0 + s).push(v) =~= s0 + s.push(v));
                }
            }
        },
        Err(_) => {},
    }
}

/// A run that succeeds on `s` does the same on top of `s0`.
proof fn lemma_run_under(p: Seq<TokenView>, i: int, s0: Seq<Seq<char>>, s: Seq<Seq<char>>, bound: Seq<Seq<char>>, table: Seq<StrategyView>)
    requires
        0 <= i <= p.len(),
        name_stack(p, i, s, bound, table) is Ok,
    ensures
        name_stack(p, i, s0 + s, bound, table) == Ok::<Seq<Seq<char>>, BuildError>(s0 + name_stack(p, i, s, bound, table)->Ok_0),
    decreases p.len() - i,
{
    if i < p.len() {
        lemma_step_under(s0, s, p[i], i, bound, table);
        let st = name_step(s, p[i], i, bound, table)->Ok_0;
        lemma_run_under(p, i + 1, s0, st, bound, table);
    }
}

/// Running `p` inside `p + rest` reaches the end of `p` with what `p` alone leaves.
proof fn lemma_run_prefix(p: Seq<TokenView>, rest: Seq<TokenView>, i: int, s: Seq<Seq<char>>, bound: Seq<Seq<char>>, table: Seq<StrategyView>)
    requires
        0 <= i <= p.len(),
        name_stack(p, i, s, bound, table) is Ok,
    ensures
        name_stack(p + rest, i, s, bound, table) == name_stack(p + rest, p.len() as int, name_stack(p, i, s, bound, table)->Ok_0, bound, table),
    decreases p.len() - i,
{
    if i < p.len() {
        assert((p + rest)[i] == p[i]);
        let st = name_step(s, p[i], i, bound, table)->Ok_0;
        lemma_run_prefix(p, rest, i + 1, st, bound, table);
    }
}

/// Running the tail `q` of `pre + q` gives what `q` alone gives, where that succeeds.
proof fn lemma_run_suffix(pre: Seq<TokenView>, q: Seq<TokenView>, j: int, s: Seq<Seq<char>>, bound: Seq<Seq<char>>, table: Seq<StrategyView>)
    requires
        0 <= j <= q.len(),
        name_stack(q, j, s, bound, table) is Ok,
    ensures
        name_stack(pre + q, pre.len() + j, s, bound, table) == name_stack(q, j, s, bound, table),
    decreases q.len() - j,
{
    if j < q.len() {
        assert((pre + q)[pre.len() + j] == q[j]);
        lemma_step_position(s, q[j], j, pre.len() + j, bound, table);
        let st = name_step(s, q[j], j, bound, table)->Ok_0;
        lemma_run_suffix(pre, q, j + 1, st, bound, table);
    }
}

/// The canonical name of `p q t`, where `p` and `q` each build one
/// expression, of names `a` and `b`, and `t` is a binary operator.
proof fn lemma_binary_name(p: Seq<TokenView>, q: Seq<TokenView>, t: TokenView, bound: Seq<Seq<char>>, table: Seq<StrategyView>)
    requires
        canonical_name(p, bound, table) is Ok,
        canonical_name(q, bound, table) is Ok,
    ensures
        ({
            let a = canonical_name(p, bound, table)->Ok_0;
            let b = canonical_name(q, bound, table)->Ok_0;
            let full = p + q + seq![t];
            canonical_name(full, bound, table) == match name_step(seq![a, b], t, (p.len() + q.len()) as int, bound, table) {
                Ok(st) => if st.len() == 1 { Ok(st[0]) } else { Err(BuildError::MalformedPostfix) },
                Err(e) => Err(e),
            }
        }),
{
    let a = canonical_name(p, bound, table)->Ok_0;
    let b = canonical_name(q, bound, table)->Ok_0;
    let e = Seq::<Seq<char>>::empty();
    assert(name_stack(p, 0, e, bound, table)->Ok_0 =~= seq![a]);
    assert(name_stack(q, 0, e, bound, table)->Ok_0 =~= seq![b]);
    let pq = p + q;
    let full = pq + seq![t];
    lemma_run_under(q, 0, seq![a], e, bound, table);
    assert(seq![a] + seq![b] =~= seq![a, b]);
    lemma_run_prefix(p, q, 0, e, bound, table);
    lemma_run_suffix(p, q, 0, seq![a], bound, table);
    lemma_run_prefix(pq, seq![t], 0, e, bound, table);
    assert(full[pq.len() as int] == t);
    assert(name_stack(pq, 0, e, bound, table) == Ok::<Seq<Seq<char>>, BuildError>(seq![a, b]));
    assert(name_stack(full, 0, e, bound, table) == name_stack(full, pq.len() as int, seq![a, b], bound, table));
    match name_step(seq![a, b], t, pq.len() as int, bound, table) {
        Ok(st) => {
            assert(name_stack(full, pq.len() + 1int, st, bound, table) == Ok::<Seq<Seq<char>>, BuildError>(st));
        },
        Err(_) => {},
    }
}

/// Where both inputs of a binary operator form one commutative group, the
/// order of its operands does not change the canonical name: if the postfix
/// sequences `p` and `q` each build one expression, then `p q t` and `q p t`
/// build expressions of the same canonical name, or fail alike.
pub proof fn lemma_commutative_canonical(p: Seq<TokenView>, q: Seq<TokenView>, t: TokenView, bound: Seq<Seq<char>>, table: Seq<StrategyView>)
    requires
        canonical_name(p, bound, table) is Ok,
        canonical_name(q, bound, table) is Ok,
        t is Operator && t->Operator_0 is Binary,
        find_strategy(table, t, 0) matches Some(k) && table[k].groups == both_commutative(),
    ensures
        canonical_name(p + q + seq![t], bound, table) == canonical_name(q + p + seq![t], bound, table),
{
    let a = canonical_name(p, bound, table)->Ok_0;
    let b = canonical_name(q, bound, table)->Ok_0;
    lemma_binary_name(p, q, t, bound, table);
    lemma_binary_name(q, p, t, bound, table);
    lemma_swap_inputs(a, b);
    let ab = seq![a, b];
    let ba = seq![b, a];
    assert(ab.subrange(0, 2) =~= ab);
    assert(ba.subrange(0, 2) =~= ba);
    assert(ab.subrange(0, 0) =~= Seq::<Seq<char>>::empty());
    assert(ba.subrange(0, 0) =~= Seq::<Seq<char>>::empty());
}

} // verus!
