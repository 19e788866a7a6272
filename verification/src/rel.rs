//! The concrete expression model: an immutable tree of relational operators
//! and scalar predicates, with owned (shared) sub-trees.

use std::sync::Arc;
use vstd::prelude::*;

verus! {


/// Identifier of a base table.
#[derive(Debug, Clone, Copy, PartialEq, Eq, Hash, Structural)]
pub struct TableId(pub usize);

/// A table scan leaf.
#[derive(Debug, Clone, Copy, PartialEq, Eq, Hash, Structural)]
pub struct Scan {
    pub table: TableId,
}

/// A binary join of two relational children under a join condition.
#[derive(Debug, Clone, Hash, PartialEq, Eq)]
pub struct Join {
    pub left: Arc<RelNode>,
    pub right: Arc<RelNode>,
    pub cond: Arc<RelNode>,
}

/// A selection: keeps the rows of `child` satisfying `predicate`.
#[derive(Debug, Clone, Hash, PartialEq, Eq)]
pub struct Filter {
    pub child: Arc<RelNode>,
    pub predicate: Arc<RelNode>,
}

/// An equality comparison between two scalar expressions.
#[derive(Debug, Clone, Hash, PartialEq, Eq)]
pub struct EqPred {
    pub left: Arc<RelNode>,
    pub right: Arc<RelNode>,
}

/// A reference to a column by absolute position.
#[derive(Debug, Clone, Copy, PartialEq, Eq, Hash, Structural)]
pub struct ColumnRefPred {
    pub column: usize,
}

/// An integer literal.
#[derive(Debug, Clone, Copy, PartialEq, Eq, Hash, Structural)]
pub struct ConstPred {
    pub value: i64,
}

/// One node of a relational expression tree; the closed set of variants.
#[derive(Debug, Clone, Hash, PartialEq, Eq)]
pub enum RelNode {
    Scan(Scan),
    Join(Join),
    Filter(Filter),
    Eq(EqPred),
    ColumnRef(ColumnRefPred),
    Const(ConstPred),
}

pub fn scan(table: TableId) -> (r: RelNode)
    ensures
        r == RelNode::Scan(Scan { table }),
{
    RelNode::Scan(Scan { table })
}

pub fn filter(child: RelNode, cond: RelNode) -> (r: RelNode)
    ensures
        r matches RelNode::Filter(f) && *f.child == child && *f.predicate == cond,
{
    RelNode::Filter(Filter { child: Arc::new(child), predicate: Arc::new(cond) })
}

pub fn join(left: RelNode, right: RelNode, cond: RelNode) -> (r: RelNode)
    ensures
        r matches RelNode::Join(j) && *j.left == left && *j.right == right && *j.cond == cond,
{
    RelNode::Join(Join { left: Arc::new(left), right: Arc::new(right), cond: Arc::new(cond) })
}

pub fn eq_pred(left: RelNode, right: RelNode) -> (r: RelNode)
    ensures
        r matches RelNode::Eq(e) && *e.left == left && *e.right == right,
{
    RelNode::Eq(EqPred { left: Arc::new(left), right: Arc::new(right) })
}

pub fn column_ref_pred(idx: usize) -> (r: RelNode)
    ensures
        r == RelNode::ColumnRef(ColumnRefPred { column: idx }),
{
    RelNode::ColumnRef(ColumnRefPred { column: idx })
}

pub fn const_pred(value: i64) -> (r: RelNode)
    ensures
        r == RelNode::Const(ConstPred { value }),
{
    RelNode::Const(ConstPred { value })
}

/// Swaps the two relational sides of a join, keeping the condition as it is.
///
/// The condition refers to columns by absolute position over the concatenated
/// schemas, so the unchanged condition is only meaningful when both sides
/// have the same width; remapping the positions is left to the caller.
pub fn join_commute(node: Arc<RelNode>) -> (r: Option<Arc<RelNode>>)
    ensures
        match *node {
            RelNode::Join(a) => r matches Some(x) && *x == RelNode::Join(
                Join { left: a.right, right: a.left, cond: a.cond },
            ),
            _ => r is None,
        },
{
    if let RelNode::Join(a) = &*node {
        return Some(Arc::new(RelNode::Join(
            Join { left: a.right.clone(), right: a.left.clone(), cond: a.cond.clone() },
        )));
    }
    None
}

} // verus!

verus! {

/// A left-rotation of nested joins: `Join(Join(x, y, c1), z, c2)` becomes
/// `Join(x, Join(y, z, c2), c1)`.  On any node that is not a join of a join
/// on the left there is no rewrite.
pub fn join_assoc(node: Arc<RelNode>) -> (r: Option<Arc<RelNode>>)
    ensures
        match *node {
            RelNode::Join(a) => match *a.left {
                RelNode::Join(b) => {
                    &&& r matches Some(x)
                    &&& *x matches RelNode::Join(o)
                    &&& o.left == b.left
                    &&& o.cond == b.cond
                    &&& *o.right matches RelNode::Join(inner)
                    &&& inner.left == b.right
                    &&& inner.right == a.right
                    &&& inner.cond == a.cond
                },
                _ => r is None,
            },
            _ => r is None,
        },
{
    if let RelNode::Join(a) = &*node {
        if let RelNode::Join(b) = &*a.left {
            return Some(Arc::new(RelNode::Join(
                Join {
                    left: b.left.clone(),
                    right: Arc::new(RelNode::Join(
                        Join {
                            left: b.right.clone(),
                            right: a.right.clone(),
                            cond: a.cond.clone(),
                        },
                    )),
                    cond: b.cond.clone(),
                },
            )));
        }
    }
    None
}

/// The example plan: a filter over a join of two scans.
pub open spec fn is_example_plan(r: RelNode) -> bool {
    &&& r matches RelNode::Filter(f)
    &&& (*f.child matches RelNode::Join(j) && {
        &&& *j.left == RelNode::Scan(Scan { table: TableId(0) })
        &&& *j.right == RelNode::Scan(Scan { table: TableId(1) })
        &&& (*j.cond matches RelNode::Eq(e) && *e.left == RelNode::ColumnRef(
            ColumnRefPred { column: 1 },
        ) && *e.right == RelNode::ColumnRef(ColumnRefPred { column: 3 }))
    })
    &&& (*f.predicate matches RelNode::Eq(e) && *e.left == RelNode::ColumnRef(
        ColumnRefPred { column: 2 },
    ) && *e.right == RelNode::Const(ConstPred { value: 3 }))
}

/// Builds the running example: filter a join of two scans on a column
/// equality, then compare a column against a constant.
pub fn plan() -> (r: RelNode)
    ensures
        is_example_plan(r),
{
    filter(
        join(
            scan(TableId(0)),
            scan(TableId(1)),
            eq_pred(column_ref_pred(1), column_ref_pred(3)),
        ),
        eq_pred(column_ref_pred(2), const_pred(3)),
    )
}

/// The ordered child sub-trees of a node.
pub open spec fn spec_children(n: RelNode) -> Seq<Arc<RelNode>> {
    match n {
        RelNode::Scan(_) => Seq::empty(),
        RelNode::Join(j) => seq![j.left, j.right, j.cond],
        RelNode::Filter(f) => seq![f.child, f.predicate],
        RelNode::Eq(e) => seq![e.left, e.right],
        RelNode::ColumnRef(_) => Seq::empty(),
        RelNode::Const(_) => Seq::empty(),
    }
}

/// How many children each variant takes.
pub open spec fn spec_arity(n: RelNode) -> int {
    spec_children(n).len() as int
}

/// The same variant and payload as `n`, with the children replaced
/// positionally by `cs`.
pub open spec fn spec_with_children(n: RelNode, cs: Seq<Arc<RelNode>>) -> RelNode {
    match n {
        RelNode::Scan(s) => RelNode::Scan(s),
        RelNode::Join(_) => RelNode::Join(Join { left: cs[0], right: cs[1], cond: cs[2] }),
        RelNode::Filter(_) => RelNode::Filter(Filter { child: cs[0], predicate: cs[1] }),
        RelNode::Eq(_) => RelNode::Eq(EqPred { left: cs[0], right: cs[1] }),
        RelNode::ColumnRef(c) => RelNode::ColumnRef(c),
        RelNode::Const(c) => RelNode::Const(c),
    }
}

impl Scan {
    pub fn children(&self) -> (r: Vec<Arc<RelNode>>)
        ensures
            r@.len() == 0,
    {
        Vec::new()
    }

    pub fn clone_with_children(&self, children: Vec<Arc<RelNode>>) -> (r: Self)
        ensures
            r == *self,
    {
        let _ = children;
        Self { table: self.table }
    }
}

impl Filter {
    pub fn children(&self) -> (r: Vec<Arc<RelNode>>)
        ensures
            r@.len() == 2,
            r@[0] == self.child,
            r@[1] == self.predicate,
    {
        let mut v: Vec<Arc<RelNode>> = Vec::new();
        v.push(self.child.clone());
        v.push(self.predicate.clone());
        v
    }

    pub fn clone_with_children(&self, children: Vec<Arc<RelNode>>) -> (r: Self)
        requires
            children@.len() == 2,
        ensures
            r.child == children@[0],
            r.predicate == children@[1],
    {
        Self { child: children[0].clone(), predicate: children[1].clone() }
    }
}

impl Join {
    pub fn children(&self) -> (r: Vec<Arc<RelNode>>)
        ensures
            r@.len() == 3,
            r@[0] == self.left,
            r@[1] == self.right,
            r@[2] == self.cond,
    {
        let mut v: Vec<Arc<RelNode>> = Vec::new();
        v.push(self.left.clone());
        v.push(self.right.clone());
        v.push(self.cond.clone());
        v
    }

    pub fn clone_with_children(&self, children: Vec<Arc<RelNode>>) -> (r: Self)
        requires
            children@.len() == 3,
        ensures
            r.left == children@[0],
            r.right == children@[1],
            r.cond == children@[2],
    {
        Self { left: children[0].clone(), right: children[1].clone(), cond: children[2].clone() }
    }
}

impl EqPred {
    pub fn children(&self) -> (r: Vec<Arc<RelNode>>)
        ensures
            r@.len() == 2,
            r@[0] == self.left,
            r@[1] == self.right,
    {
        let mut v: Vec<Arc<RelNode>> = Vec::new();
        v.push(self.left.clone());
        v.push(self.right.clone());
        v
    }

    pub fn clone_with_children(&self, children: Vec<Arc<RelNode>>) -> (r: Self)
        requires
            children@.len() == 2,
        ensures
            r.left == children@[0],
            r.right == children@[1],
    {
        Self { left: children[0].clone(), right: children[1].clone() }
    }
}

impl ColumnRefPred {
    pub fn children(&self) -> (r: Vec<Arc<RelNode>>)
        ensures
            r@.len() == 0,
    {
        Vec::new()
    }

    pub fn clone_with_children(&self, children: Vec<Arc<RelNode>>) -> (r: Self)
        ensures
            r == *self,
    {
        let _ = children;
        Self { column: self.column }
    }
}

impl ConstPred {
    pub fn children(&self) -> (r: Vec<Arc<RelNode>>)
        ensures
            r@.len() == 0,
    {
        Vec::new()
    }

    pub fn clone_with_children(&self, children: Vec<Arc<RelNode>>) -> (r: Self)
        ensures
            r == *self,
    {
        let _ = children;
        Self { value: self.value }
    }
}

impl RelNode {
    /// The ordered child references of this node; empty for the leaves.
    pub fn children(&self) -> (r: Vec<Arc<RelNode>>)
        ensures
            r@ == spec_children(*self),
    {
        let r = match self {
            RelNode::Scan(s) => s.children(),
            RelNode::Join(j) => j.children(),
            RelNode::Filter(f) => f.children(),
            RelNode::Eq(e) => e.children(),
            RelNode::ColumnRef(c) => c.children(),
            RelNode::Const(c) => c.children(),
        };
        proof {
            assert(r@ =~= spec_children(*self));
        }
        r
    }

    /// A node of the same variant with its scalar payload kept and its
    /// children replaced positionally.
    pub fn clone_with_children(&self, children: Vec<Arc<RelNode>>) -> (r: Self)
        requires
            children@.len() == spec_arity(*self),
        ensures
            r == spec_with_children(*self, children@),
    {
        match self {
            RelNode::Scan(s) => RelNode::Scan(s.clone_with_children(children)),
            RelNode::Join(j) => RelNode::Join(j.clone_with_children(children)),
            RelNode::Filter(f) => RelNode::Filter(f.clone_with_children(children)),
            RelNode::Eq(e) => RelNode::Eq(e.clone_with_children(children)),
            RelNode::ColumnRef(c) => RelNode::ColumnRef(c.clone_with_children(children)),
            RelNode::Const(c) => RelNode::Const(c.clone_with_children(children)),
        }
    }
}

/// `mid` is `input` with every child rewritten bottom-up under `step`,
/// which describes the rewrites a rule admits on one node.
pub open spec fn children_rewritten(
    step: spec_fn(Arc<RelNode>, Option<Arc<RelNode>>) -> bool,
    input: RelNode,
    mid: RelNode,
) -> bool
    decreases input, 0int,
{
    match input {
        RelNode::Scan(s) => mid == RelNode::Scan(s),
        RelNode::Join(j) => mid matches RelNode::Join(m) && bottom_up_rewrites(step, *j.left, *m.left)
            && bottom_up_rewrites(step, *j.right, *m.right) && bottom_up_rewrites(
            step,
            *j.cond,
            *m.cond,
        ),
        RelNode::Filter(f) => mid matches RelNode::Filter(m) && bottom_up_rewrites(
            step,
            *f.child,
            *m.child,
        ) && bottom_up_rewrites(step, *f.predicate, *m.predicate),
        RelNode::Eq(e) => mid matches RelNode::Eq(m) && bottom_up_rewrites(step, *e.left, *m.left)
            && bottom_up_rewrites(step, *e.right, *m.right),
        RelNode::ColumnRef(c) => mid == RelNode::ColumnRef(c),
        RelNode::Const(c) => mid == RelNode::Const(c),
    }
}

/// `out` is a possible result of rewriting `input` bottom-up: the children
/// are rewritten first, and the rebuilt node is then either rewritten once
/// more, or kept when the rule declines.
pub open spec fn bottom_up_rewrites(
    step: spec_fn(Arc<RelNode>, Option<Arc<RelNode>>) -> bool,
    input: RelNode,
    out: RelNode,
) -> bool
    decreases input, 1int,
{
    exists|mid: Arc<RelNode>, res: Option<Arc<RelNode>>|
        #![trigger step(mid, res)]
        children_rewritten(step, input, *mid) && step(mid, res) && (match res {
            Option::None => out == *mid,
            Option::Some(y) => out == *y,
        })
}

/// The rewrites that one rule admits on one node.
pub open spec fn rule_steps<F: Fn(Arc<RelNode>) -> Option<Arc<RelNode>>>(rule: F) -> spec_fn(
    Arc<RelNode>,
    Option<Arc<RelNode>>,
) -> bool {
    |mid: Arc<RelNode>, res: Option<Arc<RelNode>>| call_ensures(rule, (mid,), res)
}

} // verus!

verus! {

/// Rewrites a tree bottom-up: each node's children are rewritten first,
/// then the rule is offered the rebuilt node and its answer, when there is
/// one, replaces it.
pub fn apply_rule_bottom_up<F: Copy + Fn(Arc<RelNode>) -> Option<Arc<RelNode>>>(
    node: Arc<RelNode>,
    rule: F,
) -> (r: Arc<RelNode>)
    requires
        forall|x: Arc<RelNode>| #[trigger] call_requires(rule, (x,)),
    ensures
        bottom_up_rewrites(rule_steps(rule), *node, *r),
    decreases *node,
{
    let ghost step = rule_steps(rule);
    let mid: Arc<RelNode> = match &*node {
        RelNode::Scan(s) => Arc::new(RelNode::Scan(*s)),
        RelNode::Join(j) => {
            let l = apply_rule_bottom_up(j.left.clone(), rule);
            let r2 = apply_rule_bottom_up(j.right.clone(), rule);
            let c = apply_rule_bottom_up(j.cond.clone(), rule);
            Arc::new(RelNode::Join(Join { left: l, right: r2, cond: c }))
        },
        RelNode::Filter(f) => {
            let ch = apply_rule_bottom_up(f.child.clone(), rule);
            let p = apply_rule_bottom_up(f.predicate.clone(), rule);
            Arc::new(RelNode::Filter(Filter { child: ch, predicate: p }))
        },
        RelNode::Eq(e) => {
            let l = apply_rule_bottom_up(e.left.clone(), rule);
            let r2 = apply_rule_bottom_up(e.right.clone(), rule);
            Arc::new(RelNode::Eq(EqPred { left: l, right: r2 }))
        },
        RelNode::ColumnRef(c) => Arc::new(RelNode::ColumnRef(*c)),
        RelNode::Const(c) => Arc::new(RelNode::Const(*c)),
    };
    proof {
        assert(children_rewritten(step, *node, *mid));
    }
    let out = rule(mid.clone());
    match out {
        Some(x) => {
            proof {
                assert(step(mid, Option::Some(x)));
            }
            x
        },
        None => {
            proof {
                assert(step(mid, Option::<Arc<RelNode>>::None));
            }
            mid
        },
    }
}

} // verus!
