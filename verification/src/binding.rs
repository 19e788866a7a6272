//! Binding trees: partially concrete views of memo expressions used to
//! match and apply rewrite rules.  A binding shows as much structure as a
//! rule needs to inspect; everything deeper stays behind a wildcard group
//! reference meaning "any member of this group".

use std::sync::Arc;
use vstd::prelude::*;

use crate::memo::GroupId;
use crate::memo::Memo;
use crate::memo::MemoEqPred;
use crate::memo::MemoFilter;
use crate::memo::MemoJoin;
use crate::memo::MemoRelNode;
use crate::memo::MemoSnap;
use crate::memo::extends;
use crate::memo::lemma_canon_of_canonical;
use crate::memo::lemma_find_extends;
use crate::rel::ColumnRefPred;
use crate::rel::ConstPred;
use crate::rel::Scan;

verus! {

pub type BindScan = Scan;

pub type BindColumnRefPred = ColumnRefPred;

pub type BindConstPred = ConstPred;

/// A join binding.
#[derive(Debug, Clone, Hash, PartialEq, Eq)]
pub struct BindJoin {
    pub left: Arc<BindRelNode>,
    pub right: Arc<BindRelNode>,
    pub cond: Arc<BindRelNode>,
}

/// A filter binding.
#[derive(Debug, Clone, Hash, PartialEq, Eq)]
pub struct BindFilter {
    pub child: Arc<BindRelNode>,
    pub predicate: Arc<BindRelNode>,
}

/// An equality-predicate binding.
#[derive(Debug, Clone, Hash, PartialEq, Eq)]
pub struct BindEqPred {
    pub left: Arc<BindRelNode>,
    pub right: Arc<BindRelNode>,
}

/// One node of a binding tree: concrete structure where a rule needs to
/// look, and wildcard group references where it does not.
#[derive(Debug, Clone, Hash, PartialEq, Eq)]
pub enum BindRelNode {
    Scan(BindScan),
    Join(BindJoin),
    Filter(BindFilter),
    Eq(BindEqPred),
    ColumnRef(BindColumnRefPred),
    Const(BindConstPred),
    Group(GroupId),
}

/// Every group reference in the binding is a valid handle below `n`.
pub open spec fn binding_ok(n: int, b: BindRelNode) -> bool
    decreases b,
{
    match b {
        BindRelNode::Scan(_) => true,
        BindRelNode::Join(j) => binding_ok(n, *j.left) && binding_ok(n, *j.right) && binding_ok(
            n,
            *j.cond,
        ),
        BindRelNode::Filter(f) => binding_ok(n, *f.child) && binding_ok(n, *f.predicate),
        BindRelNode::Eq(e) => binding_ok(n, *e.left) && binding_ok(n, *e.right),
        BindRelNode::ColumnRef(_) => true,
        BindRelNode::Const(_) => true,
        BindRelNode::Group(g) => (g.0 as int) < n,
    }
}

/// A binding valid for a small memo is valid for every larger one.
pub proof fn lemma_binding_ok_grow(n1: int, n2: int, b: &BindRelNode)
    requires
        binding_ok(n1, *b),
        n1 <= n2,
    ensures
        binding_ok(n2, *b),
    decreases *b,
{
    match b {
        BindRelNode::Join(j) => {
            lemma_binding_ok_grow(n1, n2, &*j.left);
            lemma_binding_ok_grow(n1, n2, &*j.right);
            lemma_binding_ok_grow(n1, n2, &*j.cond);
        },
        BindRelNode::Filter(f) => {
            lemma_binding_ok_grow(n1, n2, &*f.child);
            lemma_binding_ok_grow(n1, n2, &*f.predicate);
        },
        BindRelNode::Eq(e) => {
            lemma_binding_ok_grow(n1, n2, &*e.left);
            lemma_binding_ok_grow(n1, n2, &*e.right);
        },
        _ => {},
    }
}

/// The memo node a one-level join binding over three wildcard group
/// references canonicalizes to, when the binding has that shape.
pub open spec fn shallow_join_node(s: MemoSnap, b: &BindRelNode) -> Option<MemoRelNode> {
    match b {
        BindRelNode::Join(j) => match (*j.left, *j.right, *j.cond) {
            (BindRelNode::Group(gl), BindRelNode::Group(gr), BindRelNode::Group(gc)) => Some(
                MemoRelNode::Join(
                    MemoJoin {
                        left: GroupId(s.find(gl.0 as int) as usize),
                        right: GroupId(s.find(gr.0 as int) as usize),
                        cond: GroupId(s.find(gc.0 as int) as usize),
                    },
                ),
            ),
            _ => Option::None,
        },
        _ => Option::None,
    }
}

/// Swaps the two relational sides of a join binding, keeping the condition.
pub fn join_commute(node: Arc<BindRelNode>) -> (r: Option<Arc<BindRelNode>>)
    ensures
        match *node {
            BindRelNode::Join(a) => r matches Some(x) && *x == BindRelNode::Join(
                BindJoin { left: a.right, right: a.left, cond: a.cond },
            ),
            _ => r is None,
        },
{
    if let BindRelNode::Join(a) = &*node {
        return Some(Arc::new(BindRelNode::Join(
            BindJoin { right: a.left.clone(), left: a.right.clone(), cond: a.cond.clone() },
        )));
    }
    None
}

/// Left-rotation of nested join bindings: `Join(Join(x, y, c1), z, c2)`
/// becomes `Join(x, Join(y, z, c2), c1)`; a binding that is not a join of a
/// join on the left admits no rewrite.
pub fn join_assoc(node: Arc<BindRelNode>) -> (r: Option<Arc<BindRelNode>>)
    ensures
        match *node {
            BindRelNode::Join(a) => match *a.left {
                BindRelNode::Join(b) => {
                    &&& r matches Some(x)
                    &&& *x matches BindRelNode::Join(o)
                    &&& o.left == b.left
                    &&& o.cond == b.cond
                    &&& *o.right matches BindRelNode::Join(inner)
                    &&& inner.left == b.right
                    &&& inner.right == a.right
                    &&& inner.cond == a.cond
                },
                _ => r is None,
            },
            _ => r is None,
        },
{
    if let BindRelNode::Join(a) = &*node {
        if let BindRelNode::Join(b) = &*a.left {
            return Some(Arc::new(BindRelNode::Join(
                BindJoin {
                    left: b.left.clone(),
                    right: Arc::new(BindRelNode::Join(
                        BindJoin {
                            left: b.right.clone(),
                            right: a.right.clone(),
                            cond: a.cond.clone(),
                        },
                    )),
                    cond: b.cond.clone(),
                },
            )));
        }
    }
    None
}

/// Canonicalizes a binding into memo nodes: every concrete level becomes a
/// hash-consed memo node, and a wildcard resolves to its live group.
#[verifier::rlimit(100)]
fn add_binding_inner(memo: &mut Memo, node: Arc<BindRelNode>) -> (r: GroupId)
    requires
        old(memo)@.wf(),
        binding_ok(old(memo)@.n(), *node),
    ensures
        final(memo)@.wf(),
        extends(final(memo)@, old(memo)@),
        final(memo)@.canonical(r.0 as int),
        shallow_join_node(old(memo)@, &*node) matches Some(e) ==> final(memo)@.groups[
            r.0 as int
        ].contains(e),
        *node matches BindRelNode::Group(g) ==> r.0 as int == old(memo)@.find(g.0 as int)
            && final(memo)@ == old(memo)@,
        binding_in_class(final(memo)@, &*node, r.0 as int),
        final(memo)@.canon_count() == old(memo)@.canon_count() + final(memo)@.n() - old(memo)@.n(),
    decreases *node,
{
    match &*node {
        BindRelNode::Scan(s) => {
            let r = memo.add_expr(MemoRelNode::Scan(*s));
            proof {
                assert(memo@.find(r.0 as int) == r.0 as int);
            }
            r
        },
        BindRelNode::Join(j) => {
            let l = add_binding_inner(memo, j.left.clone());
            let ghost s1 = memo@;
            proof {
                lemma_binding_ok_grow(old(memo)@.n(), memo@.n(), &*j.right);
                lemma_binding_ok_grow(old(memo)@.n(), memo@.n(), &*j.cond);
            }
            let r2 = add_binding_inner(memo, j.right.clone());
            let ghost s2 = memo@;
            proof {
                lemma_binding_ok_grow(old(memo)@.n(), memo@.n(), &*j.cond);
            }
            let c = add_binding_inner(memo, j.cond.clone());
            let e = MemoRelNode::Join(MemoJoin { left: l, right: r2, cond: c });
            let ghost s3 = memo@;
            proof {
                assert(MemoSnap::children_of(e) =~= seq![l.0 as int, r2.0 as int, c.0 as int]);
                match (&*j.left, &*j.right, &*j.cond) {
                    (
                        BindRelNode::Group(gl),
                        BindRelNode::Group(gr),
                        BindRelNode::Group(gc),
                    ) => {
                        assert(binding_ok(old(memo)@.n(), *j.left));
                        assert(binding_ok(old(memo)@.n(), *j.right));
                        assert(binding_ok(old(memo)@.n(), *j.cond));
                        assert(shallow_join_node(old(memo)@, &*node) matches Some(e2) && e2 == e);
                    },
                    _ => {
                        assert(shallow_join_node(old(memo)@, &*node) is None);
                    },
                }
            }
            let r = memo.add_expr(e);
            proof {
                let t = memo@;
                lemma_bic_extends(s2, s1, &*j.left, l.0 as int);
                lemma_bic_extends(s3, s2, &*j.left, l.0 as int);
                lemma_bic_extends(t, s3, &*j.left, l.0 as int);
                lemma_bic_extends(s3, s2, &*j.right, r2.0 as int);
                lemma_bic_extends(t, s3, &*j.right, r2.0 as int);
                lemma_bic_extends(t, s3, &*j.cond, c.0 as int);
                assert(t.find(r.0 as int) == r.0 as int);
                assert(t.node_canonical(e)) by {
                    assert(t.canonical(l.0 as int));
                    assert(t.canonical(r2.0 as int));
                    assert(t.canonical(c.0 as int));
                }
                crate::memo::lemma_canon_of_canonical(t, e);
                assert(t.groups[r.0 as int].contains(e));
                assert(t.canon_node(
                    MemoRelNode::Join(
                        MemoJoin { left: GroupId(l.0), right: GroupId(r2.0), cond: GroupId(c.0) },
                    ),
                ) == e);
                assert(t.groups[t.find(r.0 as int)].contains(
                    t.canon_node(
                        MemoRelNode::Join(
                            MemoJoin { left: GroupId(l.0), right: GroupId(r2.0), cond: GroupId(c.0) },
                        ),
                    ),
                ));
            }
            r
        },
        BindRelNode::Filter(f) => {
            let ch = add_binding_inner(memo, f.child.clone());
            let ghost s1 = memo@;
            proof {
                lemma_binding_ok_grow(old(memo)@.n(), memo@.n(), &*f.predicate);
            }
            let p = add_binding_inner(memo, f.predicate.clone());
            let e = MemoRelNode::Filter(MemoFilter { child: ch, predicate: p });
            let ghost s2 = memo@;
            proof {
                assert(MemoSnap::children_of(e) =~= seq![ch.0 as int, p.0 as int]);
            }
            let r = memo.add_expr(e);
            proof {
                let t = memo@;
                lemma_bic_extends(s2, s1, &*f.child, ch.0 as int);
                lemma_bic_extends(t, s2, &*f.child, ch.0 as int);
                lemma_bic_extends(t, s2, &*f.predicate, p.0 as int);
                assert(t.find(r.0 as int) == r.0 as int);
                assert(t.node_canonical(e)) by {
                    assert(t.canonical(ch.0 as int));
                    assert(t.canonical(p.0 as int));
                }
                crate::memo::lemma_canon_of_canonical(t, e);
                assert(t.groups[r.0 as int].contains(e));
                assert(t.canon_node(
                    MemoRelNode::Filter(MemoFilter { child: GroupId(ch.0), predicate: GroupId(p.0) }),
                ) == e);
                assert(t.groups[t.find(r.0 as int)].contains(
                    t.canon_node(
                        MemoRelNode::Filter(
                            MemoFilter { child: GroupId(ch.0), predicate: GroupId(p.0) },
                        ),
                    ),
                ));
            }
            r
        },
        BindRelNode::Eq(q) => {
            let l = add_binding_inner(memo, q.left.clone());
            let ghost s1 = memo@;
            proof {
                lemma_binding_ok_grow(old(memo)@.n(), memo@.n(), &*q.right);
            }
            let r2 = add_binding_inner(memo, q.right.clone());
            let e = MemoRelNode::Eq(MemoEqPred { left: l, right: r2 });
            let ghost s2 = memo@;
            proof {
                assert(MemoSnap::children_of(e) =~= seq![l.0 as int, r2.0 as int]);
            }
            let r = memo.add_expr(e);
            proof {
                let t = memo@;
                lemma_bic_extends(s2, s1, &*q.left, l.0 as int);
                lemma_bic_extends(t, s2, &*q.left, l.0 as int);
                lemma_bic_extends(t, s2, &*q.right, r2.0 as int);
                assert(t.find(r.0 as int) == r.0 as int);
                assert(t.node_canonical(e)) by {
                    assert(t.canonical(l.0 as int));
                    assert(t.canonical(r2.0 as int));
                }
                crate::memo::lemma_canon_of_canonical(t, e);
                assert(t.groups[r.0 as int].contains(e));
                assert(t.canon_node(
                    MemoRelNode::Eq(MemoEqPred { left: GroupId(l.0), right: GroupId(r2.0) }),
                ) == e);
                assert(t.groups[t.find(r.0 as int)].contains(
                    t.canon_node(
                        MemoRelNode::Eq(MemoEqPred { left: GroupId(l.0), right: GroupId(r2.0) }),
                    ),
                ));
            }
            r
        },
        BindRelNode::ColumnRef(c) => {
            let r = memo.add_expr(MemoRelNode::ColumnRef(*c));
            proof {
                assert(memo@.find(r.0 as int) == r.0 as int);
            }
            r
        },
        BindRelNode::Const(c) => {
            let r = memo.add_expr(MemoRelNode::Const(*c));
            proof {
                assert(memo@.find(r.0 as int) == r.0 as int);
            }
            r
        },
        BindRelNode::Group(g) => {
            let r = memo.find(*g);
            proof {
                crate::memo::lemma_find_idempotent(memo@, g.0 as int);
                assert(memo@.find(r.0 as int) == r.0 as int);
            }
            r
        },
    }
}

/// Registers a rewritten binding as an alternative for `group`: the binding
/// is canonicalized into the memo, and the group it lands in is merged with
/// `group` when the two differ.
pub fn add_binding_to_memo(memo: &mut Memo, group: GroupId, node: Arc<BindRelNode>) -> (r: GroupId)
    requires
        old(memo)@.wf(),
        group.0 < old(memo)@.n(),
        binding_ok(old(memo)@.n(), *node),
    ensures
        final(memo)@.wf(),
        final(memo)@.n() >= old(memo)@.n(),
        final(memo)@.canonical(r.0 as int),
        final(memo)@.find(group.0 as int) == r.0 as int,
        shallow_join_node(old(memo)@, &*node) matches Some(e) ==> final(memo)@.groups[
            final(memo)@.find(group.0 as int)
        ].contains(final(memo)@.canon_node(e)),
        crate::memo::preserves_history(final(memo)@, old(memo)@),
        binding_in_class(final(memo)@, &*node, group.0 as int),
        extends(final(memo)@, old(memo)@) || final(memo)@.canon_count() < old(memo)@.canon_count()
            + final(memo)@.n() - old(memo)@.n(),
    {
    let ghost sj = shallow_join_node(old(memo)@, &*node);
    let new_group = add_binding_inner(memo, node.clone());
    let g = memo.find(group);
    let ghost s1 = memo@;
    proof {
        crate::memo::lemma_extends_history(s1, old(memo)@);
    }
    if g.0 != new_group.0 {
        let r = memo.merge_group(g, new_group);
        proof {
            assert(memo@.find(g.0 as int) == r.0 as int);
            assert(memo@.find(group.0 as int) == memo@.find(s1.find(group.0 as int)));
            if sj is Some {
                let e = sj->Some_0;
                let k = choose|k: int|
                    0 <= k < s1.groups[new_group.0 as int].len() && s1.groups[
                        new_group.0 as int
                    ][k] == e;
                assert(memo@.groups[memo@.find(new_group.0 as int)].contains(
                    memo@.canon_node(e),
                ));
            }
            crate::memo::lemma_history_trans(memo@, s1, old(memo)@);
            lemma_bic_history(memo@, s1, &*node, new_group.0 as int);
            assert(memo@.find(new_group.0 as int) == r.0 as int);
            lemma_bic_same_class(memo@, &*node, new_group.0 as int, group.0 as int);
        }
        r
    } else {
        proof {
            if sj is Some {
                let e = sj->Some_0;
                assert(s1.node_canonical(e)) by {
                    let k = choose|k: int|
                        0 <= k < s1.groups[g.0 as int].len() && s1.groups[g.0 as int][k] == e;
                }
                lemma_canon_of_canonical(s1, e);
                assert(memo@.find(group.0 as int) == g.0 as int);
            }
            assert(s1.find(new_group.0 as int) == new_group.0 as int);
            assert(s1.find(group.0 as int) == g.0 as int);
            lemma_bic_same_class(memo@, &*node, new_group.0 as int, group.0 as int);
        }
        g
    }
}

/// Offers one memo node to the join-commute rule: a join member yields a
/// commuted binding over its child groups, which is registered as an
/// alternative for `group`.
pub fn apply_join_commute_rules_on_node(memo: &mut Memo, group: GroupId, node: MemoRelNode)
    requires
        old(memo)@.wf(),
        group.0 < old(memo)@.n(),
        old(memo)@.node_valid(node),
    ensures
        final(memo)@.wf(),
        final(memo)@.n() >= old(memo)@.n(),
        crate::memo::preserves_history(final(memo)@, old(memo)@),
        !(node is Join) ==> final(memo)@ == old(memo)@,
        node matches MemoRelNode::Join(mj) ==> commuted_in_class(final(memo)@, mj, group.0 as int),
        node matches MemoRelNode::Join(mj) ==> final(memo)@.groups[
            final(memo)@.find(group.0 as int)
        ].contains(
            final(memo)@.canon_node(
                MemoRelNode::Join(
                    MemoJoin {
                        left: GroupId(old(memo)@.find(mj.right.0 as int) as usize),
                        right: GroupId(old(memo)@.find(mj.left.0 as int) as usize),
                        cond: GroupId(old(memo)@.find(mj.cond.0 as int) as usize),
                    },
                ),
            ),
        ),
    {
    proof {
        crate::memo::lemma_history_refl(old(memo)@);
    }
    if let MemoRelNode::Join(node) = node {
        proof {
            assert(MemoSnap::children_of(MemoRelNode::Join(node)) =~= seq![
                node.left.0 as int,
                node.right.0 as int,
                node.cond.0 as int,
            ]);
            assert(MemoSnap::children_of(MemoRelNode::Join(node)).contains(node.left.0 as int));
            assert(MemoSnap::children_of(MemoRelNode::Join(node)).contains(node.right.0 as int));
            assert(MemoSnap::children_of(MemoRelNode::Join(node)).contains(node.cond.0 as int));
        }
        let binding = BindJoin {
            left: Arc::new(BindRelNode::Group(node.left)),
            right: Arc::new(BindRelNode::Group(node.right)),
            cond: Arc::new(BindRelNode::Group(node.cond)),
        };
        if let Some(applied) = join_commute(Arc::new(BindRelNode::Join(binding))) {
            proof {
                let n = memo@.n();
                assert(binding_ok(n, BindRelNode::Group(node.left)));
                assert(binding_ok(n, BindRelNode::Group(node.right)));
                assert(binding_ok(n, BindRelNode::Group(node.cond)));
                assert(binding_ok(n, *applied));
                assert(shallow_join_node(memo@, &*applied) matches Some(e2) && e2
                    == MemoRelNode::Join(
                    MemoJoin {
                        left: GroupId(memo@.find(node.right.0 as int) as usize),
                        right: GroupId(memo@.find(node.left.0 as int) as usize),
                        cond: GroupId(memo@.find(node.cond.0 as int) as usize),
                    },
                ));
            }
            add_binding_to_memo(memo, group, applied);
            proof {
                let t = memo@;
                let o = old(memo)@;
                crate::memo::lemma_find_le(o, node.left.0 as int);
                crate::memo::lemma_find_le(o, node.right.0 as int);
                crate::memo::lemma_find_le(o, node.cond.0 as int);
                let x = MemoRelNode::Join(
                    MemoJoin { left: node.right, right: node.left, cond: node.cond },
                );
                let y = MemoRelNode::Join(
                    MemoJoin {
                        left: GroupId(o.find(node.right.0 as int) as usize),
                        right: GroupId(o.find(node.left.0 as int) as usize),
                        cond: GroupId(o.find(node.cond.0 as int) as usize),
                    },
                );
                assert(t.canon_node(x) == t.canon_node(y)) by {
                    assert(t.find(o.find(node.right.0 as int)) == t.find(node.right.0 as int));
                    assert(t.find(o.find(node.left.0 as int)) == t.find(node.left.0 as int));
                    assert(t.find(o.find(node.cond.0 as int)) == t.find(node.cond.0 as int));
                }
            }
        }
    }
}

/// Offers one memo node to the join-associativity rule, once per join
/// member of its left child group: each match yields a rotated binding,
/// registered as an alternative for `group`.
pub fn apply_join_assoc_rules_on_node(memo: &mut Memo, group: GroupId, node: MemoRelNode)
    requires
        old(memo)@.wf(),
        group.0 < old(memo)@.n(),
        old(memo)@.node_valid(node),
    ensures
        final(memo)@.wf(),
        final(memo)@.n() >= old(memo)@.n(),
        crate::memo::preserves_history(final(memo)@, old(memo)@),
        !(node is Join) ==> final(memo)@ == old(memo)@,
        node matches MemoRelNode::Join(n1) ==> forall|k: int|
            0 <= k < old(memo)@.groups[old(memo)@.find(n1.left.0 as int)].len() ==> (
            #[trigger] old(memo)@.groups[old(memo)@.find(n1.left.0 as int)][k] matches
                MemoRelNode::Join(n2) ==> rotated_in_class(final(memo)@, n1, n2, group.0 as int)),
    {
    proof {
        crate::memo::lemma_history_refl(old(memo)@);
    }
    if let MemoRelNode::Join(node1) = node {
        proof {
            assert(MemoSnap::children_of(MemoRelNode::Join(node1)) =~= seq![
                node1.left.0 as int,
                node1.right.0 as int,
                node1.cond.0 as int,
            ]);
            assert(MemoSnap::children_of(MemoRelNode::Join(node1)).contains(node1.left.0 as int));
            assert(MemoSnap::children_of(MemoRelNode::Join(node1)).contains(node1.right.0 as int));
            assert(MemoSnap::children_of(MemoRelNode::Join(node1)).contains(node1.cond.0 as int));
        }
        let ghost n0 = memo@.n();
        let exprs = memo.get_all_exprs_in_group(node1.left);
        proof {
            let s = memo@;
            crate::memo::lemma_find_canonical(s, node1.left.0 as int);
            assert forall|k: int, c: int|
                0 <= k < exprs@.len() && #[trigger] MemoSnap::children_of(exprs@[k]).contains(c)
                implies 0 <= c < n0 by {
                let g = s.find(node1.left.0 as int);
                assert(s.node_valid(s.groups[g][k]));
            }
        }
        let mut i: usize = 0;
        while i < exprs.len()
            invariant
                memo@.wf(),
                n0 <= memo@.n(),
                n0 == old(memo)@.n(),
                group.0 < memo@.n(),
                node1.left.0 < n0,
                node1.right.0 < n0,
                node1.cond.0 < n0,
                node == MemoRelNode::Join(node1),
                old(memo)@.wf(),
                old(memo)@.node_valid(node),
                exprs@ == old(memo)@.groups[old(memo)@.find(node1.left.0 as int)],
                crate::memo::preserves_history(memo@, old(memo)@),
                forall|k: int, c: int|
                    0 <= k < exprs@.len() && #[trigger] MemoSnap::children_of(exprs@[k]).contains(c)
                        ==> 0 <= c < n0,
                forall|k2: int|
                    0 <= k2 < i ==> (#[trigger] exprs@[k2] matches MemoRelNode::Join(n2)
                        ==> rotated_in_class(memo@, node1, n2, group.0 as int)),
            decreases exprs@.len() - i,
        {
            let ghost scur = memo@;
            let expr = exprs[i];
            if let MemoRelNode::Join(node2) = expr {
                proof {
                    assert(MemoSnap::children_of(exprs@[i as int]) =~= seq![
                        node2.left.0 as int,
                        node2.right.0 as int,
                        node2.cond.0 as int,
                    ]);
                    assert(MemoSnap::children_of(exprs@[i as int]).contains(node2.left.0 as int));
                    assert(MemoSnap::children_of(exprs@[i as int]).contains(node2.right.0 as int));
                    assert(MemoSnap::children_of(exprs@[i as int]).contains(node2.cond.0 as int));
                }
                let binding = BindJoin {
                    left: Arc::new(BindRelNode::Join(
                        BindJoin {
                            left: Arc::new(BindRelNode::Group(node2.left)),
                            right: Arc::new(BindRelNode::Group(node2.right)),
                            cond: Arc::new(BindRelNode::Group(node2.cond)),
                        },
                    )),
                    right: Arc::new(BindRelNode::Group(node1.right)),
                    cond: Arc::new(BindRelNode::Group(node1.cond)),
                };
                if let Some(applied) = join_assoc(Arc::new(BindRelNode::Join(binding))) {
                    proof {
                        let n = memo@.n();
                        assert(binding_ok(n, BindRelNode::Group(node2.left)));
                        assert(binding_ok(n, BindRelNode::Group(node2.right)));
                        assert(binding_ok(n, BindRelNode::Group(node2.cond)));
                        assert(binding_ok(n, BindRelNode::Group(node1.right)));
                        assert(binding_ok(n, BindRelNode::Group(node1.cond)));
                        assert(*applied matches BindRelNode::Join(o) && binding_ok(n, *o.left)
                            && binding_ok(n, *o.cond) && binding_ok(n, *o.right));
                        assert(binding_ok(n, *applied));
                    }
                    add_binding_to_memo(memo, group, applied.clone());
                    proof {
                        let t = memo@;
                        lemma_rotation_from_binding(t, &*applied, node1, node2, group.0 as int);
                        crate::memo::lemma_history_trans(t, scur, old(memo)@);
                        assert forall|k2: int| 0 <= k2 < i + 1 implies (
                            #[trigger] exprs@[k2] matches MemoRelNode::Join(n2)
                                ==> rotated_in_class(t, node1, n2, group.0 as int)) by {
                            if k2 < i {
                                match exprs@[k2] {
                                    MemoRelNode::Join(n2p) => {
                                        assert(scur.node_valid(MemoRelNode::Join(n2p))) by {
                                            assert(exprs@[k2] == MemoRelNode::Join(n2p));
                                        }
                                        assert(scur.node_valid(node));
                                        lemma_ric_history(t, scur, node1, n2p, group.0 as int);
                                    },
                                    _ => {},
                                }
                            }
                        }
                    }
                }
            }
            i = i + 1;
        }
    }
}

/// Reads the rotation claim off the registered-shape relation of the
/// binding the associativity rule produced.
proof fn lemma_rotation_from_binding(
    t: MemoSnap,
    applied: &BindRelNode,
    n1: MemoJoin,
    n2: MemoJoin,
    g: int,
)
    requires
        t.wf(),
        binding_in_class(t, applied, g),
        0 <= g < t.n(),
        *applied matches BindRelNode::Join(o) && (*o.left == BindRelNode::Group(n2.left)) && (
        *o.cond == BindRelNode::Group(n2.cond)) && (*o.right matches BindRelNode::Join(inner) && (
        *inner.left == BindRelNode::Group(n2.right)) && (*inner.right == BindRelNode::Group(
            n1.right,
        )) && (*inner.cond == BindRelNode::Group(n1.cond))),
    ensures
        rotated_in_class(t, n1, n2, g),
{
    match applied {
        BindRelNode::Join(o) => match &*o.right {
            BindRelNode::Join(inner) => {
            let (cl, ci, cc) = choose|cl: usize, ci: usize, cc: usize|
                {
                    &&& (cl as int) < t.n()
                    &&& (ci as int) < t.n()
                    &&& (cc as int) < t.n()
                    &&& binding_in_class(t, &*o.left, cl as int)
                    &&& binding_in_class(t, &*o.right, ci as int)
                    &&& binding_in_class(t, &*o.cond, cc as int)
                    &&& t.groups[t.find(g)].contains(
                        #[trigger] t.canon_node(
                            MemoRelNode::Join(
                                MemoJoin { left: GroupId(cl), right: GroupId(ci), cond: GroupId(cc) },
                            ),
                        ),
                    )
                };
                let (il, ir, ic) = choose|il: usize, ir: usize, ic: usize|
                {
                    &&& (il as int) < t.n()
                    &&& (ir as int) < t.n()
                    &&& (ic as int) < t.n()
                    &&& binding_in_class(t, &*inner.left, il as int)
                    &&& binding_in_class(t, &*inner.right, ir as int)
                    &&& binding_in_class(t, &*inner.cond, ic as int)
                    &&& t.groups[t.find(ci as int)].contains(
                        #[trigger] t.canon_node(
                            MemoRelNode::Join(
                                MemoJoin { left: GroupId(il), right: GroupId(ir), cond: GroupId(ic) },
                            ),
                        ),
                    )
                };
            assert(t.find(n2.right.0 as int) == t.find(il as int));
            assert(t.find(n1.right.0 as int) == t.find(ir as int));
            assert(t.find(n1.cond.0 as int) == t.find(ic as int));
            assert(t.find(n2.left.0 as int) == t.find(cl as int));
            assert(t.find(n2.cond.0 as int) == t.find(cc as int));
            let xi = MemoRelNode::Join(MemoJoin { left: n2.right, right: n1.right, cond: n1.cond });
            let xr = MemoRelNode::Join(MemoJoin { left: n2.left, right: GroupId(ci), cond: n2.cond });
            assert(t.canon_node(xi) == t.canon_node(
                MemoRelNode::Join(MemoJoin { left: GroupId(il), right: GroupId(ir), cond: GroupId(ic) }),
            )) by {
                crate::memo::lemma_find_le(t, n2.right.0 as int);
                crate::memo::lemma_find_le(t, n1.right.0 as int);
                crate::memo::lemma_find_le(t, n1.cond.0 as int);
                crate::memo::lemma_find_le(t, il as int);
                crate::memo::lemma_find_le(t, ir as int);
                crate::memo::lemma_find_le(t, ic as int);
            }
            assert(t.canon_node(xr) == t.canon_node(
                MemoRelNode::Join(MemoJoin { left: GroupId(cl), right: GroupId(ci), cond: GroupId(cc) }),
            )) by {
                crate::memo::lemma_find_le(t, n2.left.0 as int);
                crate::memo::lemma_find_le(t, n2.cond.0 as int);
                crate::memo::lemma_find_le(t, cl as int);
                crate::memo::lemma_find_le(t, cc as int);
            }
            assert((ci as int) < t.n() && t.groups[t.find(ci as int)].contains(t.canon_node(xi))
                && t.groups[t.find(g)].contains(t.canon_node(xr)));

            },
            _ => {},
        },
        _ => {},
    }
}

} // verus!

verus! {

/// The binding's shape is registered in the class of `g`: a wildcard means
/// the two classes coincide, and a concrete level means some choice of
/// child classes has the corresponding memo node, canonicalized, stored in
/// `g`'s class.
pub open spec fn binding_in_class(m: MemoSnap, b: &BindRelNode, g: int) -> bool
    decreases *b,
{
    match b {
        BindRelNode::Scan(s) => m.groups[m.find(g)].contains(MemoRelNode::Scan(*s)),
        BindRelNode::Join(j) => exists|cl: usize, cr: usize, cc: usize|
            #![trigger m.canon_node(MemoRelNode::Join(MemoJoin { left: GroupId(cl), right: GroupId(cr), cond: GroupId(cc) }))]
            {
                &&& (cl as int) < m.n()
                &&& (cr as int) < m.n()
                &&& (cc as int) < m.n()
                &&& binding_in_class(m, &*j.left, cl as int)
                &&& binding_in_class(m, &*j.right, cr as int)
                &&& binding_in_class(m, &*j.cond, cc as int)
                &&& m.groups[m.find(g)].contains(
                    m.canon_node(
                        MemoRelNode::Join(
                            MemoJoin { left: GroupId(cl), right: GroupId(cr), cond: GroupId(cc) },
                        ),
                    ),
                )
            },
        BindRelNode::Filter(f) => exists|cl: usize, cr: usize|
            #![trigger m.canon_node(MemoRelNode::Filter(MemoFilter { child: GroupId(cl), predicate: GroupId(cr) }))]
            {
                &&& (cl as int) < m.n()
                &&& (cr as int) < m.n()
                &&& binding_in_class(m, &*f.child, cl as int)
                &&& binding_in_class(m, &*f.predicate, cr as int)
                &&& m.groups[m.find(g)].contains(
                    m.canon_node(
                        MemoRelNode::Filter(MemoFilter { child: GroupId(cl), predicate: GroupId(cr) }),
                    ),
                )
            },
        BindRelNode::Eq(e) => exists|cl: usize, cr: usize|
            #![trigger m.canon_node(MemoRelNode::Eq(MemoEqPred { left: GroupId(cl), right: GroupId(cr) }))]
            {
                &&& (cl as int) < m.n()
                &&& (cr as int) < m.n()
                &&& binding_in_class(m, &*e.left, cl as int)
                &&& binding_in_class(m, &*e.right, cr as int)
                &&& m.groups[m.find(g)].contains(
                    m.canon_node(
                        MemoRelNode::Eq(MemoEqPred { left: GroupId(cl), right: GroupId(cr) }),
                    ),
                )
            },
        BindRelNode::ColumnRef(c) => m.groups[m.find(g)].contains(MemoRelNode::ColumnRef(*c)),
        BindRelNode::Const(c) => m.groups[m.find(g)].contains(MemoRelNode::Const(*c)),
        BindRelNode::Group(gr) => m.find(gr.0 as int) == m.find(g),
    }
}

/// The registered-shape relation only depends on the class of `g`.
proof fn lemma_bic_same_class(m: MemoSnap, b: &BindRelNode, g1: int, g2: int)
    requires
        binding_in_class(m, b, g1),
        m.find(g1) == m.find(g2),
    ensures
        binding_in_class(m, b, g2),
    decreases *b,
{
}

} // verus!

verus! {

/// The registered-shape relation survives appending fresh groups.
proof fn lemma_bic_extends(m2: MemoSnap, m1: MemoSnap, b: &BindRelNode, g: int)
    requires
        m1.wf(),
        extends(m2, m1),
        binding_in_class(m1, b, g),
        0 <= g < m1.n(),
    ensures
        binding_in_class(m2, b, g),
    decreases *b,
{
    lemma_find_extends(m2, m1, g);
    crate::memo::lemma_find_le(m1, g);
    crate::memo::lemma_find_canonical(m1, g);
    assert(m2.groups[m1.find(g)] == m1.groups[m1.find(g)]);
    match b {
        BindRelNode::Join(j) => {
            let (cl, cr, cc) = choose|cl: usize, cr: usize, cc: usize|
                {
                    &&& (cl as int) < m1.n()
                    &&& (cr as int) < m1.n()
                    &&& (cc as int) < m1.n()
                    &&& binding_in_class(m1, &*j.left, cl as int)
                    &&& binding_in_class(m1, &*j.right, cr as int)
                    &&& binding_in_class(m1, &*j.cond, cc as int)
                    &&& m1.groups[m1.find(g)].contains(
                        #[trigger] m1.canon_node(
                            MemoRelNode::Join(
                                MemoJoin {
                                    left: GroupId(cl),
                                    right: GroupId(cr),
                                    cond: GroupId(cc),
                                },
                            ),
                        ),
                    )
                };
            lemma_bic_extends(m2, m1, &*j.left, cl as int);
            lemma_bic_extends(m2, m1, &*j.right, cr as int);
            lemma_bic_extends(m2, m1, &*j.cond, cc as int);
            let e = MemoRelNode::Join(
                MemoJoin { left: GroupId(cl), right: GroupId(cr), cond: GroupId(cc) },
            );
            lemma_find_extends(m2, m1, cl as int);
            lemma_find_extends(m2, m1, cr as int);
            lemma_find_extends(m2, m1, cc as int);
            assert(MemoSnap::children_of(e) =~= seq![cl as int, cr as int, cc as int]);
            assert(m2.canon_node(e) == m1.canon_node(e));
            assert(m2.groups[m2.find(g)].contains(m2.canon_node(e)));
        },
        BindRelNode::Filter(f) => {
            let (cl, cr) = choose|cl: usize, cr: usize|
                {
                    &&& (cl as int) < m1.n()
                    &&& (cr as int) < m1.n()
                    &&& binding_in_class(m1, &*f.child, cl as int)
                    &&& binding_in_class(m1, &*f.predicate, cr as int)
                    &&& m1.groups[m1.find(g)].contains(
                        #[trigger] m1.canon_node(
                            MemoRelNode::Filter(
                                MemoFilter { child: GroupId(cl), predicate: GroupId(cr) },
                            ),
                        ),
                    )
                };
            lemma_bic_extends(m2, m1, &*f.child, cl as int);
            lemma_bic_extends(m2, m1, &*f.predicate, cr as int);
            let e = MemoRelNode::Filter(MemoFilter { child: GroupId(cl), predicate: GroupId(cr) });
            lemma_find_extends(m2, m1, cl as int);
            lemma_find_extends(m2, m1, cr as int);
            assert(MemoSnap::children_of(e) =~= seq![cl as int, cr as int]);
            assert(m2.canon_node(e) == m1.canon_node(e));
            assert(m2.groups[m2.find(g)].contains(m2.canon_node(e)));
        },
        BindRelNode::Eq(q) => {
            let (cl, cr) = choose|cl: usize, cr: usize|
                {
                    &&& (cl as int) < m1.n()
                    &&& (cr as int) < m1.n()
                    &&& binding_in_class(m1, &*q.left, cl as int)
                    &&& binding_in_class(m1, &*q.right, cr as int)
                    &&& m1.groups[m1.find(g)].contains(
                        #[trigger] m1.canon_node(
                            MemoRelNode::Eq(MemoEqPred { left: GroupId(cl), right: GroupId(cr) }),
                        ),
                    )
                };
            lemma_bic_extends(m2, m1, &*q.left, cl as int);
            lemma_bic_extends(m2, m1, &*q.right, cr as int);
            let e = MemoRelNode::Eq(MemoEqPred { left: GroupId(cl), right: GroupId(cr) });
            lemma_find_extends(m2, m1, cl as int);
            lemma_find_extends(m2, m1, cr as int);
            assert(MemoSnap::children_of(e) =~= seq![cl as int, cr as int]);
            assert(m2.canon_node(e) == m1.canon_node(e));
            assert(m2.groups[m2.find(g)].contains(m2.canon_node(e)));
        },
        BindRelNode::Group(gr) => {
            if gr.0 as int >= m1.n() {
                assert(m1.find(gr.0 as int) == gr.0 as int);
                assert(m1.find(g) < m1.n()) by {
                    crate::memo::lemma_find_canonical(m1, g);
                }
            }
            lemma_find_extends(m2, m1, gr.0 as int);
        },
        _ => {},
    }
}

/// The registered-shape relation survives any history-preserving step.
proof fn lemma_bic_history(m2: MemoSnap, m1: MemoSnap, b: &BindRelNode, g: int)
    requires
        m1.wf(),
        m2.wf(),
        crate::memo::preserves_history(m2, m1),
        binding_in_class(m1, b, g),
        0 <= g < m1.n(),
    ensures
        binding_in_class(m2, b, g),
    decreases *b,
{
    crate::memo::lemma_find_le(m1, g);
    crate::memo::lemma_find_canonical(m1, g);
    match b {
        BindRelNode::Join(j) => {
            let (cl, cr, cc) = choose|cl: usize, cr: usize, cc: usize|
                {
                    &&& (cl as int) < m1.n()
                    &&& (cr as int) < m1.n()
                    &&& (cc as int) < m1.n()
                    &&& binding_in_class(m1, &*j.left, cl as int)
                    &&& binding_in_class(m1, &*j.right, cr as int)
                    &&& binding_in_class(m1, &*j.cond, cc as int)
                    &&& m1.groups[m1.find(g)].contains(
                        #[trigger] m1.canon_node(
                            MemoRelNode::Join(
                                MemoJoin {
                                    left: GroupId(cl),
                                    right: GroupId(cr),
                                    cond: GroupId(cc),
                                },
                            ),
                        ),
                    )
                };
            lemma_bic_history(m2, m1, &*j.left, cl as int);
            lemma_bic_history(m2, m1, &*j.right, cr as int);
            lemma_bic_history(m2, m1, &*j.cond, cc as int);
            let e = MemoRelNode::Join(
                MemoJoin { left: GroupId(cl), right: GroupId(cr), cond: GroupId(cc) },
            );
            assert(MemoSnap::children_of(e) =~= seq![cl as int, cr as int, cc as int]);
            crate::memo::lemma_member_claim_history(m2, m1, e, g);
        },
        BindRelNode::Filter(f) => {
            let (cl, cr) = choose|cl: usize, cr: usize|
                {
                    &&& (cl as int) < m1.n()
                    &&& (cr as int) < m1.n()
                    &&& binding_in_class(m1, &*f.child, cl as int)
                    &&& binding_in_class(m1, &*f.predicate, cr as int)
                    &&& m1.groups[m1.find(g)].contains(
                        #[trigger] m1.canon_node(
                            MemoRelNode::Filter(
                                MemoFilter { child: GroupId(cl), predicate: GroupId(cr) },
                            ),
                        ),
                    )
                };
            lemma_bic_history(m2, m1, &*f.child, cl as int);
            lemma_bic_history(m2, m1, &*f.predicate, cr as int);
            let e = MemoRelNode::Filter(MemoFilter { child: GroupId(cl), predicate: GroupId(cr) });
            assert(MemoSnap::children_of(e) =~= seq![cl as int, cr as int]);
            crate::memo::lemma_member_claim_history(m2, m1, e, g);
        },
        BindRelNode::Eq(q) => {
            let (cl, cr) = choose|cl: usize, cr: usize|
                {
                    &&& (cl as int) < m1.n()
                    &&& (cr as int) < m1.n()
                    &&& binding_in_class(m1, &*q.left, cl as int)
                    &&& binding_in_class(m1, &*q.right, cr as int)
                    &&& m1.groups[m1.find(g)].contains(
                        #[trigger] m1.canon_node(
                            MemoRelNode::Eq(MemoEqPred { left: GroupId(cl), right: GroupId(cr) }),
                        ),
                    )
                };
            lemma_bic_history(m2, m1, &*q.left, cl as int);
            lemma_bic_history(m2, m1, &*q.right, cr as int);
            let e = MemoRelNode::Eq(MemoEqPred { left: GroupId(cl), right: GroupId(cr) });
            assert(MemoSnap::children_of(e) =~= seq![cl as int, cr as int]);
            crate::memo::lemma_member_claim_history(m2, m1, e, g);
        },
        BindRelNode::Scan(sc) => {
            let e = MemoRelNode::Scan(*sc);
            assert(m1.canon_node(e) == e);
            assert(m2.canon_node(e) == e);
            crate::memo::lemma_member_claim_history(m2, m1, e, g);
        },
        BindRelNode::ColumnRef(c) => {
            let e = MemoRelNode::ColumnRef(*c);
            assert(m1.canon_node(e) == e);
            assert(m2.canon_node(e) == e);
            crate::memo::lemma_member_claim_history(m2, m1, e, g);
        },
        BindRelNode::Const(c) => {
            let e = MemoRelNode::Const(*c);
            assert(m1.canon_node(e) == e);
            assert(m2.canon_node(e) == e);
            crate::memo::lemma_member_claim_history(m2, m1, e, g);
        },
        BindRelNode::Group(gr) => {
            if gr.0 as int >= m1.n() {
                assert(m1.find(gr.0 as int) == gr.0 as int);
                assert(m1.find(g) < m1.n()) by {
                    crate::memo::lemma_find_canonical(m1, g);
                }
            }
            assert(m2.find(m1.find(gr.0 as int)) == m2.find(gr.0 as int));
            assert(m2.find(m1.find(g)) == m2.find(g));
        },
    }
}

} // verus!

verus! {

/// The commuted form of join member `mj` is registered in the class of
/// `g`.
pub open spec fn commuted_in_class(m: MemoSnap, mj: MemoJoin, g: int) -> bool {
    m.groups[m.find(g)].contains(
        m.canon_node(MemoRelNode::Join(MemoJoin { left: mj.right, right: mj.left, cond: mj.cond })),
    )
}

/// The left-rotation of outer join `n1` over inner join `n2` is registered
/// in the class of `g`: some class holds the new inner join of `n2`'s
/// right side with `n1`'s right side and condition, and `g`'s class holds
/// the join of `n2`'s left side with that class under `n2`'s condition.
pub open spec fn rotated_in_class(m: MemoSnap, n1: MemoJoin, n2: MemoJoin, g: int) -> bool {
    exists|ci: usize|
        #![trigger m.find(ci as int)]
        (ci as int) < m.n() && m.groups[m.find(ci as int)].contains(
            m.canon_node(
                MemoRelNode::Join(MemoJoin { left: n2.right, right: n1.right, cond: n1.cond }),
            ),
        ) && m.groups[m.find(g)].contains(
            m.canon_node(
                MemoRelNode::Join(MemoJoin { left: n2.left, right: GroupId(ci), cond: n2.cond }),
            ),
        )
}

/// A registered commuted form survives any history-preserving step.
pub proof fn lemma_cic_history(m2: MemoSnap, m1: MemoSnap, mj: MemoJoin, g: int)
    requires
        m1.wf(),
        crate::memo::preserves_history(m2, m1),
        m1.node_valid(MemoRelNode::Join(mj)),
        0 <= g < m1.n(),
        commuted_in_class(m1, mj, g),
    ensures
        commuted_in_class(m2, mj, g),
{
    let x = MemoRelNode::Join(MemoJoin { left: mj.right, right: mj.left, cond: mj.cond });
    assert(MemoSnap::children_of(x) =~= seq![mj.right.0 as int, mj.left.0 as int, mj.cond.0 as int]);
    assert(MemoSnap::children_of(MemoRelNode::Join(mj)) =~= seq![
        mj.left.0 as int,
        mj.right.0 as int,
        mj.cond.0 as int,
    ]);
    assert(MemoSnap::children_of(MemoRelNode::Join(mj)).contains(mj.left.0 as int));
    assert(MemoSnap::children_of(MemoRelNode::Join(mj)).contains(mj.right.0 as int));
    assert(MemoSnap::children_of(MemoRelNode::Join(mj)).contains(mj.cond.0 as int));
    assert(m1.node_valid(x)) by {
        assert forall|c: int| MemoSnap::children_of(x).contains(c) implies 0 <= c < m1.n() by {
            let idx = choose|idx: int|
                0 <= idx < MemoSnap::children_of(x).len() && MemoSnap::children_of(x)[idx] == c;
        }
    }
    crate::memo::lemma_member_claim_history(m2, m1, x, g);
}

/// A registered rotation survives any history-preserving step.
proof fn lemma_ric_history(m2: MemoSnap, m1: MemoSnap, n1: MemoJoin, n2: MemoJoin, g: int)
    requires
        m1.wf(),
        crate::memo::preserves_history(m2, m1),
        m1.node_valid(MemoRelNode::Join(n1)),
        m1.node_valid(MemoRelNode::Join(n2)),
        0 <= g < m1.n(),
        rotated_in_class(m1, n1, n2, g),
    ensures
        rotated_in_class(m2, n1, n2, g),
{
    assert(MemoSnap::children_of(MemoRelNode::Join(n1)) =~= seq![
        n1.left.0 as int,
        n1.right.0 as int,
        n1.cond.0 as int,
    ]);
    assert(MemoSnap::children_of(MemoRelNode::Join(n2)) =~= seq![
        n2.left.0 as int,
        n2.right.0 as int,
        n2.cond.0 as int,
    ]);
    let ci = choose|ci: usize|
        (ci as int) < m1.n() && m1.groups[#[trigger] m1.find(ci as int)].contains(
            m1.canon_node(
                MemoRelNode::Join(MemoJoin { left: n2.right, right: n1.right, cond: n1.cond }),
            ),
        ) && m1.groups[m1.find(g)].contains(
            m1.canon_node(
                MemoRelNode::Join(MemoJoin { left: n2.left, right: GroupId(ci), cond: n2.cond }),
            ),
        );
    let xi = MemoRelNode::Join(MemoJoin { left: n2.right, right: n1.right, cond: n1.cond });
    let xr = MemoRelNode::Join(MemoJoin { left: n2.left, right: GroupId(ci), cond: n2.cond });
    assert(MemoSnap::children_of(xi) =~= seq![n2.right.0 as int, n1.right.0 as int, n1.cond.0 as int]);
    assert(MemoSnap::children_of(xr) =~= seq![n2.left.0 as int, ci as int, n2.cond.0 as int]);
    assert(MemoSnap::children_of(MemoRelNode::Join(n1)).contains(n1.right.0 as int));
    assert(MemoSnap::children_of(MemoRelNode::Join(n1)).contains(n1.cond.0 as int));
    assert(MemoSnap::children_of(MemoRelNode::Join(n2)).contains(n2.left.0 as int));
    assert(MemoSnap::children_of(MemoRelNode::Join(n2)).contains(n2.right.0 as int));
    assert(MemoSnap::children_of(MemoRelNode::Join(n2)).contains(n2.cond.0 as int));
    assert(m1.node_valid(xi)) by {
        assert forall|c: int| MemoSnap::children_of(xi).contains(c) implies 0 <= c < m1.n() by {
            let idx = choose|idx: int|
                0 <= idx < MemoSnap::children_of(xi).len() && MemoSnap::children_of(xi)[idx] == c;
        }
    }
    assert(m1.node_valid(xr)) by {
        assert forall|c: int| MemoSnap::children_of(xr).contains(c) implies 0 <= c < m1.n() by {
            let idx = choose|idx: int|
                0 <= idx < MemoSnap::children_of(xr).len() && MemoSnap::children_of(xr)[idx] == c;
        }
    }
    crate::memo::lemma_member_claim_history(m2, m1, xi, ci as int);
    crate::memo::lemma_member_claim_history(m2, m1, xr, g);
    assert((ci as int) < m2.n());
    assert(m2.find(ci as int) >= 0) by {
        crate::memo::lemma_find_le(m2, ci as int);
    }
}

} // verus!

verus! {

/// A commuted form registered for the canonicalized copy of a join member
/// counts for the member itself, once resolution has only coarsened.
pub proof fn lemma_commuted_canon_shift(t: MemoSnap, civ: MemoSnap, mj: MemoJoin, mj0: MemoJoin, g: int)
    requires
        commuted_in_class(t, mj0, g),
        mj0.left.0 as int == civ.find(mj.left.0 as int),
        mj0.right.0 as int == civ.find(mj.right.0 as int),
        mj0.cond.0 as int == civ.find(mj.cond.0 as int),
        (mj.left.0 as int) < civ.n(),
        (mj.right.0 as int) < civ.n(),
        (mj.cond.0 as int) < civ.n(),
        forall|x: int| 0 <= x < civ.n() ==> t.find(#[trigger] civ.find(x)) == t.find(x),
    ensures
        commuted_in_class(t, mj, g),
{
    crate::memo::lemma_find_le(civ, mj.left.0 as int);
    crate::memo::lemma_find_le(civ, mj.right.0 as int);
    crate::memo::lemma_find_le(civ, mj.cond.0 as int);
    let x0 = MemoRelNode::Join(MemoJoin { left: mj0.right, right: mj0.left, cond: mj0.cond });
    let x = MemoRelNode::Join(MemoJoin { left: mj.right, right: mj.left, cond: mj.cond });
    assert(t.canon_node(x0) == t.canon_node(x)) by {
        assert(t.find(civ.find(mj.right.0 as int)) == t.find(mj.right.0 as int));
        assert(t.find(civ.find(mj.left.0 as int)) == t.find(mj.left.0 as int));
        assert(t.find(civ.find(mj.cond.0 as int)) == t.find(mj.cond.0 as int));
    }
}

} // verus!
