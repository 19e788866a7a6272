//! The memo store: a registry of equivalence groups of memo nodes, with
//! hash-consed insertion, union-find over group handles, and congruence
//! closure on merges.
//!
//! A memo node is an operator node whose children are group handles rather
//! than sub-trees.  A group is a non-empty set of memo nodes known to denote
//! the same relational expression.  Handles are never invalidated: after a
//! merge, a handle resolves through `find` to its live canonical handle.

use std::sync::Arc;
use vstd::prelude::*;

use crate::rel::ColumnRefPred;
use crate::rel::ConstPred;
use crate::rel::EqPred;
use crate::rel::Filter;
use crate::rel::Join;
use crate::rel::RelNode;
use crate::rel::Scan;

verus! {

pub type MemoScan = Scan;

pub type MemoColumnRefPred = ColumnRefPred;

pub type MemoConstPred = ConstPred;

/// A stable, opaque handle of an equivalence group.
#[derive(Debug, Clone, Copy, PartialEq, Eq, Hash, Structural)]
pub struct GroupId(pub usize);

/// A join whose children are group handles.
#[derive(Debug, Clone, Copy, PartialEq, Eq, Hash, Structural)]
pub struct MemoJoin {
    pub left: GroupId,
    pub right: GroupId,
    pub cond: GroupId,
}

/// A filter whose children are group handles.
#[derive(Debug, Clone, Copy, PartialEq, Eq, Hash, Structural)]
pub struct MemoFilter {
    pub child: GroupId,
    pub predicate: GroupId,
}

/// An equality predicate whose children are group handles.
#[derive(Debug, Clone, Copy, PartialEq, Eq, Hash, Structural)]
pub struct MemoEqPred {
    pub left: GroupId,
    pub right: GroupId,
}

/// One memo node: an operator with group handles for children.
#[derive(Debug, Clone, Copy, PartialEq, Eq, Hash, Structural)]
pub enum MemoRelNode {
    Scan(MemoScan),
    Join(MemoJoin),
    Filter(MemoFilter),
    Eq(MemoEqPred),
    ColumnRef(MemoColumnRefPred),
    Const(MemoConstPred),
}

/// The mathematical model of a memo: the member list of every group, and the
/// union-find parent of every handle.
pub struct MemoSnap {
    pub groups: Seq<Seq<MemoRelNode>>,
    pub parent: Seq<int>,
}

/// The memo store.  `groups[i]` holds the members of the group with handle
/// `i`; a handle absorbed by a merge has an empty member list and its
/// `parent` entry points at a smaller handle.
pub struct Memo {
    groups: Vec<Vec<MemoRelNode>>,
    parent: Vec<usize>,
}

impl View for Memo {
    type V = MemoSnap;

    closed spec fn view(&self) -> MemoSnap {
        MemoSnap {
            groups: self.groups@.map_values(|g: Vec<MemoRelNode>| g@),
            parent: self.parent@.map_values(|p: usize| p as int),
        }
    }
}

impl MemoSnap {
    /// Number of handles ever allocated.
    pub open spec fn n(self) -> int {
        self.groups.len() as int
    }

    /// The canonical handle that `i` resolves to.
    pub open spec fn find(self, i: int) -> int
        decreases i,
    {
        if 0 <= i < self.parent.len() {
            let p = self.parent[i];
            if 0 <= p < i {
                self.find(p)
            } else {
                i
            }
        } else {
            i
        }
    }

    /// `i` is a live group handle.
    pub open spec fn canonical(self, i: int) -> bool {
        0 <= i < self.n() && self.parent[i] == i
    }

    /// The ordered child handles of a memo node.
    pub open spec fn children_of(e: MemoRelNode) -> Seq<int> {
        match e {
            MemoRelNode::Scan(_) => Seq::empty(),
            MemoRelNode::Join(j) => seq![j.left.0 as int, j.right.0 as int, j.cond.0 as int],
            MemoRelNode::Filter(f) => seq![f.child.0 as int, f.predicate.0 as int],
            MemoRelNode::Eq(e) => seq![e.left.0 as int, e.right.0 as int],
            MemoRelNode::ColumnRef(_) => Seq::empty(),
            MemoRelNode::Const(_) => Seq::empty(),
        }
    }

    /// Every child handle of `e` is a valid handle.
    pub open spec fn node_valid(self, e: MemoRelNode) -> bool {
        forall|c: int| Self::children_of(e).contains(c) ==> 0 <= c < self.n()
    }

    /// Every child handle of `e` is canonical.
    pub open spec fn node_canonical(self, e: MemoRelNode) -> bool {
        forall|c: int| Self::children_of(e).contains(c) ==> self.canonical(c)
    }

    /// `e` with each child handle resolved to its canonical handle.
    pub open spec fn canon_node(self, e: MemoRelNode) -> MemoRelNode {
        match e {
            MemoRelNode::Scan(s) => MemoRelNode::Scan(s),
            MemoRelNode::Join(j) => MemoRelNode::Join(
                MemoJoin {
                    left: GroupId(self.find(j.left.0 as int) as usize),
                    right: GroupId(self.find(j.right.0 as int) as usize),
                    cond: GroupId(self.find(j.cond.0 as int) as usize),
                },
            ),
            MemoRelNode::Filter(f) => MemoRelNode::Filter(
                MemoFilter {
                    child: GroupId(self.find(f.child.0 as int) as usize),
                    predicate: GroupId(self.find(f.predicate.0 as int) as usize),
                },
            ),
            MemoRelNode::Eq(e) => MemoRelNode::Eq(
                MemoEqPred {
                    left: GroupId(self.find(e.left.0 as int) as usize),
                    right: GroupId(self.find(e.right.0 as int) as usize),
                },
            ),
            MemoRelNode::ColumnRef(c) => MemoRelNode::ColumnRef(c),
            MemoRelNode::Const(c) => MemoRelNode::Const(c),
        }
    }

    /// Structural part of well-formedness: lengths agree, parents only point
    /// downward, and exactly the live groups are non-empty, with valid
    /// children everywhere.
    pub open spec fn wf_basic(self) -> bool {
        &&& self.parent.len() == self.groups.len()
        &&& forall|i: int| 0 <= i < self.n() ==> 0 <= #[trigger] self.parent[i] <= i
        &&& forall|i: int| 0 <= i < self.n() ==> (self.parent[i] == i <==> #[trigger] self.groups[i].len() >= 1)
        &&& forall|i: int, k: int|
            0 <= i < self.n() && 0 <= k < self.groups[i].len() ==> self.node_valid(
                #[trigger] self.groups[i][k],
            )
    }

    /// Full well-formedness: additionally, every stored node is canonical,
    /// no group holds a duplicate member, and no two live groups share a
    /// member (the hash-consing invariant).
    pub open spec fn wf(self) -> bool {
        &&& self.wf_basic()
        &&& forall|i: int, k: int|
            0 <= i < self.n() && 0 <= k < self.groups[i].len() ==> self.node_canonical(
                #[trigger] self.groups[i][k],
            )
        &&& forall|i: int, k1: int, k2: int|
            0 <= i < self.n() && 0 <= k1 < k2 < self.groups[i].len() ==> #[trigger] self.groups[i][k1]
                != #[trigger] self.groups[i][k2]
        &&& forall|i: int, j: int, k1: int, k2: int|
            0 <= i < self.n() && 0 <= j < self.n() && i != j && 0 <= k1 < self.groups[i].len() && 0
                <= k2 < self.groups[j].len() ==> #[trigger] self.groups[i][k1]
                != #[trigger] self.groups[j][k2]
    }

    /// Every stored member references only strictly older groups; this holds
    /// as long as no merge has been performed, and gives a termination
    /// measure for extraction.
    pub open spec fn ordered(self) -> bool {
        forall|i: int, k: int, c: int|
            0 <= i < self.n() && 0 <= k < self.groups[i].len() && #[trigger] Self::children_of(
                self.groups[i][k],
            ).contains(c) ==> c < i
    }

    /// The first handle at or after `from` whose group holds `e`; `-1` when
    /// there is none.
    pub open spec fn lookup_from(self, e: MemoRelNode, from: int) -> int
        decreases self.n() - from,
    {
        if 0 <= from < self.n() {
            if self.groups[from].contains(e) {
                from
            } else {
                self.lookup_from(e, from + 1)
            }
        } else {
            -1
        }
    }

    /// The handle of the group holding `e`, or `-1` when no group does.
    pub open spec fn lookup(self, e: MemoRelNode) -> int {
        self.lookup_from(e, 0)
    }

    /// Hash-consed insertion at the model level: a node already registered
    /// resolves to its group; a new node gets a fresh singleton group.
    pub open spec fn add_node(self, e: MemoRelNode) -> (MemoSnap, int) {
        let f = self.lookup(e);
        if f >= 0 {
            (self, f)
        } else {
            (
                MemoSnap {
                    groups: self.groups.push(seq![e]),
                    parent: self.parent.push(self.n()),
                },
                self.n(),
            )
        }
    }

    /// Number of live groups.
    pub open spec fn canon_count_upto(self, i: int) -> nat
        decreases i,
    {
        if i <= 0 {
            0
        } else {
            self.canon_count_upto(i - 1) + (if self.parent[i - 1] == i - 1 {
                1nat
            } else {
                0nat
            })
        }
    }

    /// Number of live groups.
    pub open spec fn canon_count(self) -> nat {
        self.canon_count_upto(self.n())
    }
}

impl Memo {
    /// A fresh memo with no groups.
    pub fn new() -> (r: Self)
        ensures
            r@.wf(),
            r@.ordered(),
            r@.n() == 0,
            r@ == empty_memo(),
    {
        let r = Memo { groups: Vec::new(), parent: Vec::new() };
        proof {
            assert(r@.groups =~= empty_memo().groups);
            assert(r@.parent =~= empty_memo().parent);
        }
        r
    }

    /// Number of live (canonical) groups.
    pub fn num_groups(&self) -> (r: usize)
        requires
            self@.wf_basic(),
        ensures
            r == self@.canon_count(),
    {
        let mut i: usize = 0;
        let mut count: usize = 0;
        while i < self.parent.len()
            invariant
                i <= self.parent.len(),
                count == self@.canon_count_upto(i as int),
                count <= i,
            decreases self.parent.len() - i,
        {
            if self.parent[i] == i {
                count = count + 1;
            }
            i = i + 1;
        }
        count
    }

    /// Number of handles ever allocated, live and absorbed alike.
    pub fn groups_len(&self) -> (r: usize)
        ensures
            r == self@.n(),
    {
        self.groups.len()
    }

    /// Total number of stored members over all groups, capped at the
    /// largest representable count.
    pub(crate) fn total_members(&self) -> usize {
        let mut i: usize = 0;
        let mut count: usize = 0;
        while i < self.groups.len()
            invariant
                i <= self.groups@.len(),
            decreases self.groups@.len() - i,
        {
            let len = self.groups[i].len();
            if len <= usize::MAX - count {
                count = count + len;
            }
            i = i + 1;
        }
        count
    }

    /// Resolves a handle to its live canonical handle.
    pub fn find(&self, g: GroupId) -> (r: GroupId)
        requires
            self@.wf_basic(),
            g.0 < self@.n(),
        ensures
            r.0 as int == self@.find(g.0 as int),
            self@.canonical(r.0 as int),
    {
        let mut cur: usize = g.0;
        loop
            invariant
                self@.wf_basic(),
                cur < self@.n(),
                self@.find(cur as int) == self@.find(g.0 as int),
            decreases cur,
        {
            let p = self.parent[cur];
            if p == cur {
                return GroupId(cur);
            }
            cur = p;
        }
    }

    /// The group holding `expr`, when one does.
    pub fn get_group(&self, expr: MemoRelNode) -> (r: Option<GroupId>)
        ensures
            match r {
                Some(g) => self@.lookup(expr) == g.0 as int && g.0 < self@.n(),
                None => self@.lookup(expr) == -1,
            },
    {
        let mut i: usize = 0;
        while i < self.groups.len()
            invariant
                i <= self@.n(),
                self@.lookup(expr) == self@.lookup_from(expr, i as int),
            decreases self@.n() - i,
        {
            if group_contains(&self.groups[i], expr) {
                return Some(GroupId(i));
            }
            i = i + 1;
        }
        None
    }

    /// Hash-consed insertion: returns the handle of the group holding
    /// `expr`, allocating a fresh singleton group when none does.  Inserting
    /// the same node twice never grows any group.
    pub fn add_expr(&mut self, expr: MemoRelNode) -> (r: GroupId)
        requires
            old(self)@.wf(),
            old(self)@.node_valid(expr),
            old(self)@.node_canonical(expr),
        ensures
            final(self)@ == old(self)@.add_node(expr).0,
            r.0 as int == old(self)@.add_node(expr).1,
            final(self)@.wf(),
            r.0 < final(self)@.n(),
            final(self)@.canonical(r.0 as int),
            final(self)@.groups[r.0 as int].contains(expr),
            old(self)@.ordered() ==> final(self)@.ordered(),
            final(self)@.canon_count() == old(self)@.canon_count() + final(self)@.n() - old(self)@.n(),
    {
        if let Some(group_id) = self.get_group(expr) {
            proof {
                lemma_lookup_found(self@, expr);
            }
            return group_id;
        }
        let id = GroupId(self.groups.len());
        let mut member: Vec<MemoRelNode> = Vec::new();
        member.push(expr);
        self.groups.push(member);
        self.parent.push(id.0);
        proof {
            let s0 = old(self)@;
            let s1 = self@;
            assert(s1.groups =~= s0.groups.push(seq![expr]));
            assert(s1.parent =~= s0.parent.push(s0.n()));
            lemma_add_fresh_wf(s0, expr);
            lemma_ccu_push(s0, s1, 0);
        }
        id
    }

    /// The members of a group, in insertion order.
    pub fn get_all_exprs_in_group(&self, group: GroupId) -> (r: Vec<MemoRelNode>)
        requires
            self@.wf_basic(),
            group.0 < self@.n(),
        ensures
            r@ == self@.groups[self@.find(group.0 as int)],
    {
        let g = self.find(group);
        let mut out: Vec<MemoRelNode> = Vec::new();
        let mut k: usize = 0;
        while k < self.groups[g.0].len()
            invariant
                self@.wf_basic(),
                g.0 < self@.n(),
                k <= self@.groups[g.0 as int].len(),
                out@ == self@.groups[g.0 as int].subrange(0, k as int),
            decreases self@.groups[g.0 as int].len() - k,
        {
            out.push(self.groups[g.0][k]);
            k = k + 1;
        }
        proof {
            assert(out@ =~= self@.groups[g.0 as int]);
        }
        out
    }
}

/// Member `k2` of group `j` in `t` is the canonicalization, as of `o`, of
/// one of the members group `j` had in `o`.
pub open spec fn repaired_member(t: MemoSnap, o: MemoSnap, j: int, k2: int) -> bool {
    exists|k0: int|
        0 <= k0 < o.groups[j].len() && t.groups[j][k2] == o.canon_node(#[trigger] o.groups[j][k0])
}

/// Whether a member list holds `e`.
fn group_contains(v: &Vec<MemoRelNode>, e: MemoRelNode) -> (r: bool)
    ensures
        r == v@.contains(e),
{
    let mut k: usize = 0;
    while k < v.len()
        invariant
            k <= v@.len(),
            forall|j: int| 0 <= j < k ==> v@[j] != e,
        decreases v@.len() - k,
    {
        if v[k] == e {
            return true;
        }
        k = k + 1;
    }
    false
}

/// A lookup hit names a group that really holds the node.
pub proof fn lemma_lookup_found(s: MemoSnap, e: MemoRelNode)
    ensures
        s.lookup(e) >= 0 ==> 0 <= s.lookup(e) < s.n() && s.groups[s.lookup(e)].contains(e),
        s.lookup(e) == -1 ==> forall|i: int|
            0 <= i < s.n() ==> !#[trigger] s.groups[i].contains(e),
        s.lookup(e) == -1 || s.lookup(e) >= 0,
{
    lemma_lookup_from_found(s, e, 0);
}

proof fn lemma_lookup_from_found(s: MemoSnap, e: MemoRelNode, from: int)
    requires
        from >= 0,
    ensures
        s.lookup_from(e, from) >= 0 ==> from <= s.lookup_from(e, from) < s.n() && s.groups[
            s.lookup_from(e, from)
        ].contains(e),
        s.lookup_from(e, from) == -1 ==> forall|i: int|
            from <= i < s.n() ==> !#[trigger] s.groups[i].contains(e),
        s.lookup_from(e, from) == -1 || s.lookup_from(e, from) >= 0,
    decreases s.n() - from,
{
    if from < s.n() {
        if !s.groups[from].contains(e) {
            lemma_lookup_from_found(s, e, from + 1);
        }
    }
}

/// A group that holds a member is canonical, under well-formedness.
pub proof fn lemma_member_group_canonical(s: MemoSnap, i: int)
    requires
        s.wf_basic(),
        0 <= i < s.n(),
        s.groups[i].len() >= 1,
    ensures
        s.canonical(i),
{
}

/// Inserting a fresh node as a new singleton group preserves the invariants.
proof fn lemma_add_fresh_wf(s: MemoSnap, e: MemoRelNode)
    requires
        s.wf(),
        s.node_valid(e),
        s.node_canonical(e),
        s.lookup(e) == -1,
    ensures
        ({
            let s2 = MemoSnap { groups: s.groups.push(seq![e]), parent: s.parent.push(s.n()) };
            &&& s2.wf()
            &&& (s.ordered() ==> s2.ordered())
            &&& s2.canonical(s.n())
            &&& s2.groups[s.n()].contains(e)
        }),
{
    let s2 = MemoSnap { groups: s.groups.push(seq![e]), parent: s.parent.push(s.n()) };
    lemma_lookup_found(s, e);
    assert forall|i: int| 0 <= i < s2.n() implies (s2.parent[i] == i <==> #[trigger] s2.groups[i].len()
        >= 1) by {
        if i < s.n() {
            assert(s2.parent[i] == s.parent[i]);
            assert(s2.groups[i] == s.groups[i]);
        }
    }
    assert(s2.groups[s.n()].contains(e)) by {
        assert(s2.groups[s.n()] == seq![e]);
        assert(s2.groups[s.n()][0] == e);
    }
    assert forall|i: int, k: int|
        0 <= i < s2.n() && 0 <= k < s2.groups[i].len() implies s2.node_canonical(
        #[trigger] s2.groups[i][k],
    ) by {
        let node = s2.groups[i][k];
        if i < s.n() {
            assert(s2.groups[i] == s.groups[i]);
            assert(s.node_canonical(node));
        } else {
            assert(s2.groups[i] == seq![e]);
            assert(node == e);
        }
        assert forall|c: int| MemoSnap::children_of(node).contains(c) implies s2.canonical(c) by {
            if i < s.n() {
                assert(s.canonical(c));
            } else {
                assert(s.canonical(c));
            }
            assert(s2.parent[c] == s.parent[c]);
        }
    }
    assert forall|i: int, j: int, k1: int, k2: int|
        0 <= i < s2.n() && 0 <= j < s2.n() && i != j && 0 <= k1 < s2.groups[i].len() && 0 <= k2
        < s2.groups[j].len() implies #[trigger] s2.groups[i][k1] != #[trigger] s2.groups[j][k2] by {
        if i < s.n() && j < s.n() {
        } else if i == s.n() {
            assert(s2.groups[i] == seq![e]);
            assert(s2.groups[i][k1] == e);
            assert(s2.groups[j] == s.groups[j]);
            assert(!s.groups[j].contains(e));
            assert(s.groups[j][k2] == s2.groups[j][k2]);
        } else {
            assert(s2.groups[j] == seq![e]);
            assert(s2.groups[j][k2] == e);
            assert(s2.groups[i] == s.groups[i]);
            assert(!s.groups[i].contains(e));
        }
    }
}

/// `s2` has every group and every union-find entry of `s1`, unchanged, and
/// possibly fresh groups after them.
pub open spec fn extends(s2: MemoSnap, s1: MemoSnap) -> bool {
    &&& s1.groups.len() <= s2.groups.len()
    &&& s1.parent.len() <= s2.parent.len()
    &&& forall|i: int| 0 <= i < s1.groups.len() ==> #[trigger] s2.groups[i] == s1.groups[i]
    &&& forall|i: int| 0 <= i < s1.parent.len() ==> #[trigger] s2.parent[i] == s1.parent[i]
}

/// A handle resolves to a handle between zero and itself.
pub proof fn lemma_find_le(s: MemoSnap, i: int)
    ensures
        s.find(i) <= i,
        i >= 0 ==> s.find(i) >= 0,
    decreases i,
{
    if 0 <= i < s.parent.len() {
        let p = s.parent[i];
        if 0 <= p < i {
            lemma_find_le(s, p);
        }
    }
}

/// Under the structural invariant, resolution ends at a canonical handle.
pub proof fn lemma_find_canonical(s: MemoSnap, i: int)
    requires
        s.wf_basic(),
        0 <= i < s.n(),
    ensures
        s.canonical(s.find(i)),
    decreases i,
{
    let p = s.parent[i];
    if 0 <= p < i {
        lemma_find_canonical(s, p);
    }
}

/// The canonical shape a group stands for, read off its first member: `t` is
/// the expression obtained by resolving `g`, taking the first member of its
/// group, and extracting every child group the same way.
pub open spec fn represents(s: MemoSnap, g: int, t: &RelNode) -> bool
    decreases *t,
{
    let gg = s.find(g);
    &&& 0 <= gg < s.n()
    &&& s.groups[gg].len() >= 1
    &&& match (s.groups[gg][0], t) {
        (MemoRelNode::Scan(a), RelNode::Scan(b)) => a == *b,
        (MemoRelNode::Join(a), RelNode::Join(b)) => {
            &&& represents(s, a.left.0 as int, &*b.left)
            &&& represents(s, a.right.0 as int, &*b.right)
            &&& represents(s, a.cond.0 as int, &*b.cond)
        },
        (MemoRelNode::Filter(a), RelNode::Filter(b)) => {
            &&& represents(s, a.child.0 as int, &*b.child)
            &&& represents(s, a.predicate.0 as int, &*b.predicate)
        },
        (MemoRelNode::Eq(a), RelNode::Eq(b)) => {
            &&& represents(s, a.left.0 as int, &*b.left)
            &&& represents(s, a.right.0 as int, &*b.right)
        },
        (MemoRelNode::ColumnRef(a), RelNode::ColumnRef(b)) => a == *b,
        (MemoRelNode::Const(a), RelNode::Const(b)) => a == *b,
        _ => false,
    }
}

/// Canonicalizing a concrete expression into the memo, at the model level:
/// children first, then a hash-consed insertion of the node over the
/// children's canonical handles.
pub open spec fn memorize_spec(s: MemoSnap, t: &RelNode) -> (MemoSnap, int)
    decreases *t,
{
    match t {
        RelNode::Scan(sc) => s.add_node(MemoRelNode::Scan(*sc)),
        RelNode::Join(j) => {
            let (s1, l) = memorize_spec(s, &*j.left);
            let (s2, r) = memorize_spec(s1, &*j.right);
            let (s3, c) = memorize_spec(s2, &*j.cond);
            s3.add_node(
                MemoRelNode::Join(
                    MemoJoin {
                        left: GroupId(l as usize),
                        right: GroupId(r as usize),
                        cond: GroupId(c as usize),
                    },
                ),
            )
        },
        RelNode::Filter(f) => {
            let (s1, ch) = memorize_spec(s, &*f.child);
            let (s2, p) = memorize_spec(s1, &*f.predicate);
            s2.add_node(
                MemoRelNode::Filter(
                    MemoFilter { child: GroupId(ch as usize), predicate: GroupId(p as usize) },
                ),
            )
        },
        RelNode::Eq(e) => {
            let (s1, l) = memorize_spec(s, &*e.left);
            let (s2, r) = memorize_spec(s1, &*e.right);
            s2.add_node(
                MemoRelNode::Eq(MemoEqPred { left: GroupId(l as usize), right: GroupId(r as usize) }),
            )
        },
        RelNode::ColumnRef(c) => s.add_node(MemoRelNode::ColumnRef(*c)),
        RelNode::Const(c) => s.add_node(MemoRelNode::Const(*c)),
    }
}

/// Recursively canonicalizes a concrete expression into memo form and
/// returns the handle of its group.  Inserting the same tree twice returns
/// the same handle and leaves the memo unchanged.
pub fn memorize_rel(memo: &mut Memo, rel: Arc<RelNode>) -> (r: GroupId)
    requires
        old(memo)@.wf(),
    ensures
        final(memo)@ == memorize_spec(old(memo)@, &*rel).0,
        r.0 as int == memorize_spec(old(memo)@, &*rel).1,
        final(memo)@.wf(),
        final(memo)@.canonical(r.0 as int),
        extends(final(memo)@, old(memo)@),
        old(memo)@.ordered() ==> final(memo)@.ordered(),
    decreases *rel,
{
    match &*rel {
        RelNode::Scan(sc) => memo.add_expr(MemoRelNode::Scan(*sc)),
        RelNode::Join(j) => {
            let l = memorize_rel(memo, j.left.clone());
            let r2 = memorize_rel(memo, j.right.clone());
            let c = memorize_rel(memo, j.cond.clone());
            let node = MemoRelNode::Join(MemoJoin { left: l, right: r2, cond: c });
            proof {
                assert(MemoSnap::children_of(node) =~= seq![
                    l.0 as int,
                    r2.0 as int,
                    c.0 as int,
                ]);
            }
            memo.add_expr(node)
        },
        RelNode::Filter(f) => {
            let ch = memorize_rel(memo, f.child.clone());
            let p = memorize_rel(memo, f.predicate.clone());
            let node = MemoRelNode::Filter(MemoFilter { child: ch, predicate: p });
            proof {
                assert(MemoSnap::children_of(node) =~= seq![ch.0 as int, p.0 as int]);
            }
            memo.add_expr(node)
        },
        RelNode::Eq(e) => {
            let l = memorize_rel(memo, e.left.clone());
            let r2 = memorize_rel(memo, e.right.clone());
            let node = MemoRelNode::Eq(MemoEqPred { left: l, right: r2 });
            proof {
                assert(MemoSnap::children_of(node) =~= seq![l.0 as int, r2.0 as int]);
            }
            memo.add_expr(node)
        },
        RelNode::ColumnRef(c) => memo.add_expr(MemoRelNode::ColumnRef(*c)),
        RelNode::Const(c) => memo.add_expr(MemoRelNode::Const(*c)),
    }
}

impl Memo {
    /// Materializes one concrete expression from a group by always taking
    /// the first (oldest) member, recursively.  Extraction cannot loop: the
    /// acyclicity certificate strictly decreases along every child
    /// reference.
    pub fn generate_one_binding(&self, group: GroupId) -> (r: Arc<RelNode>)
        requires
            self@.wf(),
            acyclic(self@),
            group.0 < self@.n(),
        ensures
            represents(self@, group.0 as int, &*r),
        decreases extraction_rank(self@)[self@.find(group.0 as int)],
    {
        let g = self.find(group);
        proof {
            lemma_find_le(self@, group.0 as int);
            assert(rank_ok(self@, extraction_rank(self@)));
            assert(self@.groups[g.0 as int] == self.groups@[g.0 as int]@);
            assert(self@.groups[g.0 as int].len() >= 1);
        }
        let expr = self.groups[g.0][0];
        proof {
            assert(expr == self@.groups[g.0 as int][0]);
            assert(self@.node_canonical(expr)) by {
                assert((g.0 as int) < self@.n());
                assert(self@.groups[g.0 as int].len() > 0);
            }
            assert forall|c: int|
                MemoSnap::children_of(expr).contains(c) implies self@.find(c) == c
                && extraction_rank(self@)[c] < extraction_rank(self@)[self@.find(
                group.0 as int,
            )] by {
                assert((g.0 as int) < self@.n());
                assert(self@.groups[g.0 as int].len() > 0);
                assert(self@.canonical(c));
                assert(extraction_rank(self@)[c] < extraction_rank(self@)[g.0 as int]);
            }
        }
        match expr {
            MemoRelNode::Scan(sc) => Arc::new(RelNode::Scan(sc)),
            MemoRelNode::Join(j) => {
                proof {
                    assert(MemoSnap::children_of(expr) =~= seq![
                        j.left.0 as int,
                        j.right.0 as int,
                        j.cond.0 as int,
                    ]);
                    assert(MemoSnap::children_of(expr).contains(j.left.0 as int));
                    assert(MemoSnap::children_of(expr).contains(j.right.0 as int));
                    assert(MemoSnap::children_of(expr).contains(j.cond.0 as int));
                }
                let l = self.generate_one_binding(j.left);
                let r2 = self.generate_one_binding(j.right);
                let c = self.generate_one_binding(j.cond);
                Arc::new(RelNode::Join(Join { left: l, right: r2, cond: c }))
            },
            MemoRelNode::Filter(f) => {
                proof {
                    assert(MemoSnap::children_of(expr) =~= seq![
                        f.child.0 as int,
                        f.predicate.0 as int,
                    ]);
                    assert(MemoSnap::children_of(expr).contains(f.child.0 as int));
                    assert(MemoSnap::children_of(expr).contains(f.predicate.0 as int));
                }
                let ch = self.generate_one_binding(f.child);
                let p = self.generate_one_binding(f.predicate);
                Arc::new(RelNode::Filter(Filter { child: ch, predicate: p }))
            },
            MemoRelNode::Eq(e) => {
                proof {
                    assert(MemoSnap::children_of(expr) =~= seq![e.left.0 as int, e.right.0 as int]);
                    assert(MemoSnap::children_of(expr).contains(e.left.0 as int));
                    assert(MemoSnap::children_of(expr).contains(e.right.0 as int));
                }
                let l = self.generate_one_binding(e.left);
                let r2 = self.generate_one_binding(e.right);
                Arc::new(RelNode::Eq(EqPred { left: l, right: r2 }))
            },
            MemoRelNode::ColumnRef(c) => Arc::new(RelNode::ColumnRef(c)),
            MemoRelNode::Const(c) => Arc::new(RelNode::Const(c)),
        }
    }
}

/// Resolution is idempotent: a canonical handle resolves to itself.
pub proof fn lemma_find_idempotent(s: MemoSnap, i: int)
    requires
        s.wf_basic(),
        0 <= i < s.n(),
    ensures
        s.find(s.find(i)) == s.find(i),
    decreases i,
{
    lemma_find_canonical(s, i);
}

/// A node whose children are canonical is its own canonical form.
pub proof fn lemma_canon_of_canonical(s: MemoSnap, e: MemoRelNode)
    requires
        s.node_canonical(e),
    ensures
        s.canon_node(e) == e,
{
    match e {
        MemoRelNode::Join(j) => {
            assert(MemoSnap::children_of(e).contains(j.left.0 as int));
            assert(MemoSnap::children_of(e).contains(j.right.0 as int));
            assert(MemoSnap::children_of(e).contains(j.cond.0 as int));
            assert(s.canonical(j.left.0 as int));
            assert(s.canonical(j.right.0 as int));
            assert(s.canonical(j.cond.0 as int));
            assert(s.find(j.left.0 as int) == j.left.0 as int);
            assert(s.find(j.right.0 as int) == j.right.0 as int);
            assert(s.find(j.cond.0 as int) == j.cond.0 as int);
        },
        MemoRelNode::Filter(f) => {
            assert(MemoSnap::children_of(e).contains(f.child.0 as int));
            assert(MemoSnap::children_of(e).contains(f.predicate.0 as int));
            assert(s.canonical(f.child.0 as int));
            assert(s.canonical(f.predicate.0 as int));
            assert(s.find(f.child.0 as int) == f.child.0 as int);
            assert(s.find(f.predicate.0 as int) == f.predicate.0 as int);
        },
        MemoRelNode::Eq(p) => {
            assert(MemoSnap::children_of(e).contains(p.left.0 as int));
            assert(MemoSnap::children_of(e).contains(p.right.0 as int));
            assert(s.canonical(p.left.0 as int));
            assert(s.canonical(p.right.0 as int));
            assert(s.find(p.left.0 as int) == p.left.0 as int);
            assert(s.find(p.right.0 as int) == p.right.0 as int);
        },
        _ => {},
    }
}

/// Resolving one child handle twice is the same as resolving it once, with
/// the round trip through the handle type accounted for.
proof fn lemma_child_find_idempotent(s: MemoSnap, c: int)
    requires
        s.wf_basic(),
        0 <= c < s.n(),
        c <= usize::MAX as int,
    ensures
        0 <= s.find(c) < s.n(),
        s.find(s.find(c) as usize as int) == s.find(c),
{
    lemma_find_le(s, c);
    lemma_find_idempotent(s, c);
}

/// Canonicalizing a node twice is the same as canonicalizing it once.
proof fn lemma_canon_idempotent(s: MemoSnap, e: MemoRelNode)
    requires
        s.wf_basic(),
        s.node_valid(e),
    ensures
        s.canon_node(s.canon_node(e)) == s.canon_node(e),
{
    match e {
        MemoRelNode::Join(j) => {
            assert(MemoSnap::children_of(e).contains(j.left.0 as int));
            assert(MemoSnap::children_of(e).contains(j.right.0 as int));
            assert(MemoSnap::children_of(e).contains(j.cond.0 as int));
            lemma_child_find_idempotent(s, j.left.0 as int);
            lemma_child_find_idempotent(s, j.right.0 as int);
            lemma_child_find_idempotent(s, j.cond.0 as int);
        },
        MemoRelNode::Filter(f) => {
            assert(MemoSnap::children_of(e).contains(f.child.0 as int));
            assert(MemoSnap::children_of(e).contains(f.predicate.0 as int));
            lemma_child_find_idempotent(s, f.child.0 as int);
            lemma_child_find_idempotent(s, f.predicate.0 as int);
        },
        MemoRelNode::Eq(p) => {
            assert(MemoSnap::children_of(e).contains(p.left.0 as int));
            assert(MemoSnap::children_of(e).contains(p.right.0 as int));
            lemma_child_find_idempotent(s, p.left.0 as int);
            lemma_child_find_idempotent(s, p.right.0 as int);
        },
        _ => {},
    }
}

/// States with the same union-find entries resolve every handle alike.
proof fn lemma_parent_eq_find(s1: MemoSnap, s2: MemoSnap, x: int)
    requires
        s1.parent == s2.parent,
    ensures
        s1.find(x) == s2.find(x),
    decreases x,
{
    if 0 <= x < s1.parent.len() {
        let p = s1.parent[x];
        if 0 <= p < x {
            lemma_parent_eq_find(s1, s2, p);
        }
    }
}

/// States with the same union-find entries canonicalize every node alike.
proof fn lemma_parent_eq_canon(s1: MemoSnap, s2: MemoSnap, e: MemoRelNode)
    requires
        s1.parent == s2.parent,
    ensures
        s1.canon_node(e) == s2.canon_node(e),
{
    match e {
        MemoRelNode::Join(j) => {
            lemma_parent_eq_find(s1, s2, j.left.0 as int);
            lemma_parent_eq_find(s1, s2, j.right.0 as int);
            lemma_parent_eq_find(s1, s2, j.cond.0 as int);
        },
        MemoRelNode::Filter(f) => {
            lemma_parent_eq_find(s1, s2, f.child.0 as int);
            lemma_parent_eq_find(s1, s2, f.predicate.0 as int);
        },
        MemoRelNode::Eq(p) => {
            lemma_parent_eq_find(s1, s2, p.left.0 as int);
            lemma_parent_eq_find(s1, s2, p.right.0 as int);
        },
        _ => {},
    }
}

/// The live-group count only reads the union-find entries.
proof fn lemma_ccu_congruent(s1: MemoSnap, s2: MemoSnap, m: int)
    requires
        forall|x: int| 0 <= x < m ==> s1.parent[x] == #[trigger] s2.parent[x],
    ensures
        s1.canon_count_upto(m) == s2.canon_count_upto(m),
    decreases m,
{
    if m > 0 {
        lemma_ccu_congruent(s1, s2, m - 1);
    }
}

/// Appending a handle that is its own parent raises the live-group count
/// of the full range by one.
proof fn lemma_ccu_push(s1: MemoSnap, s2: MemoSnap, m: int)
    requires
        0 <= m <= s1.parent.len(),
        s2.parent.len() == s1.parent.len() + 1,
        forall|x: int| 0 <= x < s1.parent.len() ==> s2.parent[x] == #[trigger] s1.parent[x],
        s2.parent[s1.parent.len() as int] == s1.parent.len(),
    ensures
        s2.canon_count_upto(m) == s1.canon_count_upto(m),
        s2.canon_count_upto(s1.parent.len() as int + 1) == s1.canon_count_upto(
            s1.parent.len() as int,
        ) + 1,
{
    lemma_ccu_agree(s1, s2, m);
    lemma_ccu_agree(s1, s2, s1.parent.len() as int);
}

/// The counts agree wherever the entries agree.
proof fn lemma_ccu_agree(s1: MemoSnap, s2: MemoSnap, m: int)
    requires
        forall|x: int| 0 <= x < m ==> s2.parent[x] == #[trigger] s1.parent[x],
    ensures
        s2.canon_count_upto(m) == s1.canon_count_upto(m),
    decreases m,
{
    if m > 0 {
        lemma_ccu_agree(s1, s2, m - 1);
    }
}

/// Redirecting one live handle to another lowers the live-group count by one
/// in every prefix behind it.
proof fn lemma_ccu_update(s: MemoSnap, s2: MemoSnap, j: int, m: int)
    requires
        0 <= j < s.parent.len(),
        s.parent[j] == j,
        s2.parent[j] != j,
        forall|x: int| 0 <= x < s.parent.len() && x != j ==> s2.parent[x] == #[trigger] s.parent[x],
        s2.parent.len() == s.parent.len(),
        0 <= m <= s.parent.len(),
    ensures
        s2.canon_count_upto(m) == s.canon_count_upto(m) - (if m > j {
            1int
        } else {
            0int
        }),
    decreases m,
{
    if m > 0 {
        lemma_ccu_update(s, s2, j, m - 1);
    }
}

/// After redirecting live handle `j` to live handle `i`, every handle that
/// resolved to `j` resolves to `i`, and every other handle is unmoved.
proof fn lemma_find_after_union(s: MemoSnap, s2: MemoSnap, i: int, j: int, x: int)
    requires
        s.wf_basic(),
        s.canonical(i),
        s.canonical(j),
        i < j,
        s2.parent.len() == s.parent.len(),
        s2.parent[j] == i,
        forall|y: int| 0 <= y < s.parent.len() && y != j ==> s2.parent[y] == #[trigger] s.parent[y],
    ensures
        s2.find(x) == if s.find(x) == j {
            i
        } else {
            s.find(x)
        },
    decreases x,
{
    if 0 <= x < s.parent.len() {
        if x == j {
            assert(s.find(j) == j);
            assert(s2.parent[x] == i);
            if 0 <= i < x {
                lemma_find_after_union(s, s2, i, j, i);
                assert(s.find(i) == i);
            }
        } else {
            let p = s.parent[x];
            assert(s2.parent[x] == p);
            if 0 <= p < x {
                lemma_find_after_union(s, s2, i, j, p);
            } else {
                assert(s.find(x) == x);
                assert(s2.find(x) == x);
                assert(x != j);
            }
        }
    }
}

/// Nodes that canonicalized alike before a union still do after it.
proof fn lemma_union_canon_eq(s: MemoSnap, s2: MemoSnap, i: int, j: int, e1: MemoRelNode, e2: MemoRelNode)
    requires
        s.wf_basic(),
        s.canonical(i),
        s.canonical(j),
        i < j,
        s2.parent.len() == s.parent.len(),
        s2.parent[j] == i,
        forall|y: int| 0 <= y < s.parent.len() && y != j ==> s2.parent[y] == #[trigger] s.parent[y],
        s.canon_node(e1) == s.canon_node(e2),
    ensures
        s2.canon_node(e1) == s2.canon_node(e2),
{
    match e1 {
        MemoRelNode::Join(a) => {
            let b = e2->Join_0;
            lemma_union_find_pair(s, s2, i, j, a.left.0 as int, b.left.0 as int);
            lemma_union_find_pair(s, s2, i, j, a.right.0 as int, b.right.0 as int);
            lemma_union_find_pair(s, s2, i, j, a.cond.0 as int, b.cond.0 as int);
        },
        MemoRelNode::Filter(a) => {
            let b = e2->Filter_0;
            lemma_union_find_pair(s, s2, i, j, a.child.0 as int, b.child.0 as int);
            lemma_union_find_pair(s, s2, i, j, a.predicate.0 as int, b.predicate.0 as int);
        },
        MemoRelNode::Eq(a) => {
            let b = e2->Eq_0;
            lemma_union_find_pair(s, s2, i, j, a.left.0 as int, b.left.0 as int);
            lemma_union_find_pair(s, s2, i, j, a.right.0 as int, b.right.0 as int);
        },
        _ => {},
    }
}

/// Two child handles that resolved alike before a union resolve alike after
/// it.
proof fn lemma_union_find_pair(s: MemoSnap, s2: MemoSnap, i: int, j: int, c1: int, c2: int)
    requires
        s.wf_basic(),
        s.canonical(i),
        s.canonical(j),
        i < j,
        s2.parent.len() == s.parent.len(),
        s2.parent[j] == i,
        forall|y: int| 0 <= y < s.parent.len() && y != j ==> s2.parent[y] == #[trigger] s.parent[y],
        0 <= c1 <= usize::MAX as int,
        0 <= c2 <= usize::MAX as int,
        s.find(c1) as usize == s.find(c2) as usize,
    ensures
        s2.find(c1) as usize == s2.find(c2) as usize,
        s2.find(c1) >= 0,
        s2.find(c2) >= 0,
{
    lemma_find_le(s, c1);
    lemma_find_le(s, c2);
    lemma_find_le(s2, c1);
    lemma_find_le(s2, c2);
    lemma_find_after_union(s, s2, i, j, c1);
    lemma_find_after_union(s, s2, i, j, c2);
}

impl Memo {
    /// Resolves every child handle of `e` to its canonical handle.
    fn canon_node_exec(&self, e: MemoRelNode) -> (r: MemoRelNode)
        requires
            self@.wf_basic(),
            self@.node_valid(e),
        ensures
            r == self@.canon_node(e),
            self@.node_valid(r),
            self@.node_canonical(r),
    {
        match e {
            MemoRelNode::Scan(s) => MemoRelNode::Scan(s),
            MemoRelNode::Join(j) => {
                proof {
                    assert(MemoSnap::children_of(e).contains(j.left.0 as int));
                    assert(MemoSnap::children_of(e).contains(j.right.0 as int));
                    assert(MemoSnap::children_of(e).contains(j.cond.0 as int));
                }
                let l = self.find(j.left);
                let r2 = self.find(j.right);
                let c = self.find(j.cond);
                let out = MemoRelNode::Join(MemoJoin { left: l, right: r2, cond: c });
                proof {
                    assert(MemoSnap::children_of(out) =~= seq![l.0 as int, r2.0 as int, c.0 as int]);
                }
                out
            },
            MemoRelNode::Filter(f) => {
                proof {
                    assert(MemoSnap::children_of(e).contains(f.child.0 as int));
                    assert(MemoSnap::children_of(e).contains(f.predicate.0 as int));
                }
                let ch = self.find(f.child);
                let p = self.find(f.predicate);
                let out = MemoRelNode::Filter(MemoFilter { child: ch, predicate: p });
                proof {
                    assert(MemoSnap::children_of(out) =~= seq![ch.0 as int, p.0 as int]);
                }
                out
            },
            MemoRelNode::Eq(q) => {
                proof {
                    assert(MemoSnap::children_of(e).contains(q.left.0 as int));
                    assert(MemoSnap::children_of(e).contains(q.right.0 as int));
                }
                let l = self.find(q.left);
                let r2 = self.find(q.right);
                let out = MemoRelNode::Eq(MemoEqPred { left: l, right: r2 });
                proof {
                    assert(MemoSnap::children_of(out) =~= seq![l.0 as int, r2.0 as int]);
                }
                out
            },
            MemoRelNode::ColumnRef(c) => MemoRelNode::ColumnRef(c),
            MemoRelNode::Const(c) => MemoRelNode::Const(c),
        }
    }
}

/// Whether two member lists share a node.
fn groups_share(a: &Vec<MemoRelNode>, b: &Vec<MemoRelNode>) -> (r: bool)
    ensures
        r == exists|e: MemoRelNode| #[trigger] a@.contains(e) && b@.contains(e),
{
    let mut k: usize = 0;
    while k < a.len()
        invariant
            k <= a@.len(),
            forall|kk: int| 0 <= kk < k ==> !b@.contains(#[trigger] a@[kk]),
        decreases a@.len() - k,
    {
        if group_contains(b, a[k]) {
            proof {
                assert(a@.contains(a@[k as int]));
            }
            return true;
        }
        k = k + 1;
    }
    proof {
        assert forall|e: MemoRelNode| #[trigger] a@.contains(e) implies !b@.contains(e) by {
            let kk = choose|kk: int| 0 <= kk < a@.len() && a@[kk] == e;
            assert(!b@.contains(a@[kk]));
        }
    }
    false
}

impl Memo {
    /// Moves every member of live group `hi` into live group `lo` and
    /// redirects handle `hi` to `lo`.
    fn union_raw(&mut self, lo: usize, hi: usize)
        requires
            old(self)@.wf_basic(),
            old(self)@.canonical(lo as int),
            old(self)@.canonical(hi as int),
            lo < hi,
        ensures
            final(self)@.wf_basic(),
            final(self)@.n() == old(self)@.n(),
            final(self)@.parent == old(self)@.parent.update(hi as int, lo as int),
            final(self)@.groups[lo as int] == old(self)@.groups[lo as int] + old(self)@.groups[
                hi as int
            ],
            final(self)@.groups[hi as int] == Seq::<MemoRelNode>::empty(),
            forall|x: int|
                0 <= x < old(self)@.n() && x != lo as int && x != hi as int ==> final(self)@.groups[x]
                    == #[trigger] old(self)@.groups[x],
    {
        let mut moved: Vec<MemoRelNode> = Vec::new();
        core::mem::swap(&mut moved, &mut self.groups[hi]);
        let ghost mid = self@;
        proof {
            assert(mid.groups =~= old(self)@.groups.update(hi as int, Seq::<MemoRelNode>::empty()));
            assert(mid.parent == old(self)@.parent);
        }
        let mut k: usize = 0;
        while k < moved.len()
            invariant
                k <= moved@.len(),
                lo < hi,
                hi < self@.n(),
                self@.n() == mid.n(),
                self@.parent == mid.parent,
                self@.groups[lo as int] == mid.groups[lo as int] + moved@.subrange(0, k as int),
                forall|x: int|
                    0 <= x < mid.n() && x != lo as int ==> self@.groups[x] == #[trigger] mid.groups[
                        x
                    ],
            decreases moved@.len() - k,
        {
            let e = moved[k];
            self.groups[lo].push(e);
            proof {
                assert(self@.groups[lo as int] =~= mid.groups[lo as int] + moved@.subrange(
                    0,
                    k as int + 1,
                ));
            }
            k = k + 1;
        }
        self.parent[hi] = lo;
        proof {
            let o = old(self)@;
            let f = self@;
            assert(moved@ == o.groups[hi as int]);
            assert(f.parent =~= o.parent.update(hi as int, lo as int));
            assert(f.groups[lo as int] == mid.groups[lo as int] + moved@.subrange(
                0,
                moved@.len() as int,
            ));
            assert(moved@.subrange(0, moved@.len() as int) =~= moved@);
            assert(f.groups[lo as int] =~= o.groups[lo as int] + o.groups[hi as int]);
            assert(f.groups[hi as int] == mid.groups[hi as int]);
            assert(f.groups[hi as int] =~= Seq::<MemoRelNode>::empty());
            assert forall|x: int|
                0 <= x < o.n() && x != lo as int && x != hi as int implies f.groups[x]
                == #[trigger] o.groups[x] by {
                assert(f.groups[x] == mid.groups[x]);
            }
            assert forall|i: int| 0 <= i < f.n() implies (f.parent[i] == i <==> #[trigger] f.groups[i].len() >= 1) by {
                if i == hi as int {
                } else if i == lo as int {
                    assert(o.groups[lo as int].len() >= 1);
                } else {
                    assert(f.groups[i] == mid.groups[i]);
                    assert(f.groups[i] == o.groups[i]);
                    assert(f.parent[i] == o.parent[i]);
                }
            }
            assert forall|i: int, k2: int|
                0 <= i < f.n() && 0 <= k2 < f.groups[i].len() implies f.node_valid(
                #[trigger] f.groups[i][k2],
            ) by {
                if i == lo as int {
                    let a = o.groups[lo as int];
                    let b = o.groups[hi as int];
                    if k2 < a.len() {
                        assert(f.groups[i][k2] == a[k2]);
                        assert(o.node_valid(a[k2]));
                    } else {
                        assert(f.groups[i][k2] == b[k2 - a.len()]);
                        assert(o.node_valid(b[k2 - a.len()]));
                    }
                } else {
                    assert(f.groups[i] == mid.groups[i]);
                    assert(f.groups[i] == o.groups[i]);
                    assert(o.node_valid(o.groups[i][k2]));
                }
            }
        }
    }

    /// Rewrites every stored member to its canonical form and removes
    /// duplicates inside each group.  The union-find entries are untouched.
    fn repair_all(&mut self)
        requires
            old(self)@.wf_basic(),
        ensures
            final(self)@.wf_basic(),
            final(self)@.n() == old(self)@.n(),
            final(self)@.parent == old(self)@.parent,
            forall|i: int, k: int|
                0 <= i < final(self)@.n() && 0 <= k < final(self)@.groups[i].len() ==> final(self)@.node_canonical(#[trigger] final(self)@.groups[i][k]),
            forall|i: int, k1: int, k2: int|
                0 <= i < final(self)@.n() && 0 <= k1 < k2 < final(self)@.groups[i].len()
                    ==> #[trigger] final(self)@.groups[i][k1] != #[trigger] final(self)@.groups[i][k2],
            forall|i: int, e: MemoRelNode|
                0 <= i < old(self)@.n() && #[trigger] old(self)@.groups[i].contains(e) ==> final(self)@.groups[i].contains(old(self)@.canon_node(e)),
            forall|i: int, k2: int|
                0 <= i < final(self)@.n() && 0 <= k2 < final(self)@.groups[i].len()
                    ==> #[trigger] repaired_member(final(self)@, old(self)@, i, k2),
    {
        let n = self.groups.len();
        let mut i: usize = 0;
        while i < n
            invariant
                i <= n,
                n == self@.n(),
                self@.wf_basic(),
                self@.parent == old(self)@.parent,
                self@.n() == old(self)@.n(),
                forall|j: int| i <= j < n ==> self@.groups[j] == #[trigger] old(self)@.groups[j],
                forall|j: int, k: int|
                    0 <= j < i && 0 <= k < self@.groups[j].len() ==> self@.node_canonical(
                        #[trigger] self@.groups[j][k],
                    ),
                forall|j: int, k1: int, k2: int|
                    0 <= j < i && 0 <= k1 < k2 < self@.groups[j].len() ==> #[trigger] self@.groups[j][k1] != #[trigger] self@.groups[j][k2],
                forall|j: int, e: MemoRelNode|
                    0 <= j < i && #[trigger] old(self)@.groups[j].contains(e) ==> self@.groups[j].contains(old(self)@.canon_node(e)),
                forall|j: int, k2: int|
                    0 <= j < i && 0 <= k2 < self@.groups[j].len() ==> #[trigger] repaired_member(
                        self@,
                        old(self)@,
                        j,
                        k2,
                    ),
            decreases n - i,
        {
            let ghost s = self@;
            let mut newlist: Vec<MemoRelNode> = Vec::new();
            let len = self.groups[i].len();
            let mut k: usize = 0;
            while k < len
                invariant
                    k <= len,
                    i < n,
                    n == self@.n(),
                    self@ == s,
                    len == s.groups[i as int].len(),
                    s.wf_basic(),
                    newlist@.len() <= k,
                    forall|kk: int|
                        0 <= kk < newlist@.len() ==> s.node_canonical(#[trigger] newlist@[kk])
                            && s.node_valid(newlist@[kk]),
                    forall|k1: int, k2: int|
                        0 <= k1 < k2 < newlist@.len() ==> #[trigger] newlist@[k1]
                            != #[trigger] newlist@[k2],
                    forall|kk: int|
                        0 <= kk < k ==> newlist@.contains(s.canon_node(#[trigger] s.groups[i as int][kk])),
                    forall|kk: int|
                        0 <= kk < newlist@.len() ==> exists|k0: int|
                            0 <= k0 < s.groups[i as int].len() && #[trigger] newlist@[kk]
                                == s.canon_node(s.groups[i as int][k0]),
                    k >= 1 ==> newlist@.len() >= 1,
                decreases len - k,
            {
                let e = self.groups[i][k];
                proof {
                    assert(e == s.groups[i as int][k as int]);
                }
                let e2 = self.canon_node_exec(e);
                let ghost nl0 = newlist@;
                if !group_contains(&newlist, e2) {
                    newlist.push(e2);
                    proof {
                        assert(newlist@ == nl0.push(e2));
                        assert(newlist@.contains(e2)) by {
                            assert(newlist@[newlist@.len() - 1] == e2);
                        }
                    }
                }
                proof {
                    assert forall|kk: int|
                        0 <= kk < k + 1 implies newlist@.contains(s.canon_node(
                        #[trigger] s.groups[i as int][kk],
                    )) by {
                        if kk < k {
                            let v = s.canon_node(s.groups[i as int][kk]);
                            let idx = choose|idx: int| 0 <= idx < nl0.len() && nl0[idx] == v;
                            assert(newlist@[idx] == v);
                        } else {
                            assert(newlist@.contains(e2));
                        }
                    }
                }
                k = k + 1;
            }
            let ghost newv = newlist@;
            core::mem::swap(&mut newlist, &mut self.groups[i]);
            proof {
                let t = self@;
                assert(t.groups[i as int] == newv);
                assert(t.groups =~= s.groups.update(i as int, newv));
                assert(t.parent == s.parent);
                assert forall|i2: int, k2: int|
                    0 <= i2 < t.n() && 0 <= k2 < t.groups[i2].len() implies t.node_valid(
                    #[trigger] t.groups[i2][k2],
                ) by {
                    if i2 != i as int {
                        assert(t.groups[i2] == s.groups[i2]);
                        assert(s.node_valid(s.groups[i2][k2]));
                    } else {
                        assert(t.groups[i2][k2] == newv[k2]);
                        assert(s.node_valid(newv[k2]));
                    }
                    assert forall|c: int|
                        MemoSnap::children_of(t.groups[i2][k2]).contains(c) implies 0 <= c < t.n() by {
                        assert(s.node_valid(t.groups[i2][k2]));
                    }
                }
                assert forall|i2: int| 0 <= i2 < t.n() implies (t.parent[i2] == i2
                    <==> #[trigger] t.groups[i2].len() >= 1) by {
                    if i2 == i as int {
                        if s.groups[i2].len() >= 1 {
                            assert(t.groups[i2].len() >= 1);
                        } else {
                            assert(t.groups[i2].len() == 0);
                        }
                    } else {
                        assert(t.groups[i2] == s.groups[i2]);
                    }
                }
                assert forall|j: int, k2: int|
                    0 <= j < i as int + 1 && 0 <= k2 < t.groups[j].len() implies t.node_canonical(
                    #[trigger] t.groups[j][k2],
                ) by {
                    if j < i as int {
                        assert(t.groups[j] == s.groups[j]);
                        assert(s.node_canonical(s.groups[j][k2]));
                    } else {
                        assert(t.groups[j][k2] == newv[k2]);
                        assert(s.node_canonical(newv[k2]));
                    }
                    assert forall|c: int|
                        MemoSnap::children_of(t.groups[j][k2]).contains(c) implies t.canonical(c) by {
                        assert(s.node_canonical(t.groups[j][k2]));
                        assert(s.canonical(c));
                        assert(t.parent[c] == s.parent[c]);
                    }
                }
                assert forall|j: int, k1: int, k2: int|
                    0 <= j < i as int + 1 && 0 <= k1 < k2 < t.groups[j].len() implies #[trigger] t.groups[j][k1] != #[trigger] t.groups[j][k2] by {
                    if j < i as int {
                        assert(t.groups[j] == s.groups[j]);
                    } else {
                        assert(t.groups[j][k1] == newv[k1]);
                        assert(t.groups[j][k2] == newv[k2]);
                    }
                }
                assert forall|j: int, k2: int|
                    0 <= j < i as int + 1 && 0 <= k2 < self@.groups[j].len() implies
                    #[trigger] repaired_member(self@, old(self)@, j, k2) by {
                    assert(self@.groups[j][k2] == t.groups[j][k2]);
                    if j == i as int {
                        assert(t.groups[j][k2] == newv[k2]);
                        let k0 = choose|k0: int|
                            0 <= k0 < s.groups[i as int].len() && newv[k2] == s.canon_node(
                                s.groups[i as int][k0],
                            );
                        lemma_parent_eq_canon(s, old(self)@, s.groups[i as int][k0]);
                        assert(s.groups[i as int] == old(self)@.groups[i as int]);
                        assert(self@.groups[j][k2] == old(self)@.canon_node(
                            old(self)@.groups[j][k0],
                        ));
                    } else {
                        assert(t.groups[j] == s.groups[j]);
                        assert(repaired_member(s, old(self)@, j, k2));
                        let k0 = choose|k0: int|
                            0 <= k0 < old(self)@.groups[j].len() && s.groups[j][k2] == old(
                                self,
                            )@.canon_node(old(self)@.groups[j][k0]);
                        assert(self@.groups[j][k2] == old(self)@.canon_node(
                            old(self)@.groups[j][k0],
                        ));
                    }
                }
                assert forall|j: int, e: MemoRelNode|
                    0 <= j < i as int + 1 && #[trigger] old(self)@.groups[j].contains(e) implies t.groups[j].contains(old(self)@.canon_node(e)) by {
                    if j == i as int {
                        let kk = choose|kk: int|
                            0 <= kk < old(self)@.groups[j].len() && old(self)@.groups[j][kk] == e;
                        assert(s.groups[j][kk] == e);
                        assert(newv.contains(s.canon_node(e)));
                        assert(t.groups[j].contains(s.canon_node(e)));
                        lemma_parent_eq_canon(s, old(self)@, e);
                    } else {
                        assert(t.groups[j] == s.groups[j]);
                    }
                }
            }
            i = i + 1;
        }
    }

    /// Looks for one node stored in two distinct groups; reports the pair of
    /// handles when found.
    fn find_collision(&self) -> (r: Option<(usize, usize)>)
        requires
            self@.wf_basic(),
        ensures
            match r {
                None => forall|i: int, j: int, k1: int, k2: int|
                    0 <= i < j < self@.n() && 0 <= k1 < self@.groups[i].len() && 0 <= k2
                        < self@.groups[j].len() ==> #[trigger] self@.groups[i][k1]
                        != #[trigger] self@.groups[j][k2],
                Some((i, j)) => {
                    &&& (i as int) < (j as int)
                    &&& self@.canonical(i as int)
                    &&& self@.canonical(j as int)
                    &&& exists|e: MemoRelNode| #[trigger] self@.groups[i as int].contains(e)
                        && self@.groups[j as int].contains(e)
                },
            },
    {
        let n = self.groups.len();
        let mut i: usize = 0;
        while i < n
            invariant
                i <= n,
                n == self@.n(),
                self@.wf_basic(),
                forall|i2: int, j2: int, k1: int, k2: int|
                    0 <= i2 < i && i2 < j2 < n && 0 <= k1 < self@.groups[i2].len() && 0 <= k2
                        < self@.groups[j2].len() ==> #[trigger] self@.groups[i2][k1]
                        != #[trigger] self@.groups[j2][k2],
            decreases n - i,
        {
            let mut j: usize = i + 1;
            while j < n
                invariant
                    i < j <= n,
                    n == self@.n(),
                    self@.wf_basic(),
                    forall|j2: int, k1: int, k2: int|
                        i < j2 < j && 0 <= k1 < self@.groups[i as int].len() && 0 <= k2
                            < self@.groups[j2].len() ==> #[trigger] self@.groups[i as int][k1]
                            != #[trigger] self@.groups[j2][k2],
                decreases n - j,
            {
                if groups_share(&self.groups[i], &self.groups[j]) {
                    proof {
                        let e = choose|e: MemoRelNode| #[trigger] self@.groups[i as int].contains(e)
                            && self@.groups[j as int].contains(e);
                        assert(self@.groups[i as int].len() >= 1);
                        assert(self@.groups[j as int].len() >= 1);
                    }
                    return Some((i, j));
                }
                proof {
                    assert forall|k1: int, k2: int|
                        0 <= k1 < self@.groups[i as int].len() && 0 <= k2 < self@.groups[j as int].len() implies #[trigger] self@.groups[i as int][k1] != #[trigger] self@.groups[j as int][k2] by {
                        if self@.groups[i as int][k1] == self@.groups[j as int][k2] {
                            let e = self@.groups[i as int][k1];
                            assert(self@.groups[i as int].contains(e));
                            assert(self@.groups[j as int].contains(e));
                        }
                    }
                }
                j = j + 1;
            }
            i = i + 1;
        }
        None
    }
}

/// A handle present before fresh groups were appended resolves as before.
pub proof fn lemma_find_extends(s2: MemoSnap, s: MemoSnap, i: int)
    requires
        extends(s2, s),
        0 <= i < s.parent.len(),
    ensures
        s2.find(i) == s.find(i),
    decreases i,
{
    let p = s.parent[i];
    if 0 <= p < i {
        lemma_find_extends(s2, s, p);
    }
}

/// Member `k` of live group `j` in `m2` originates from the memo `m1`:
/// some member of some `m1`-group that now resolves to `j` canonicalizes,
/// in `m2`, to the same node.  With `m2` well-formed, members are
/// canonical, so the member simply is the canonicalization of its origin.
pub open spec fn member_sourced(m2: MemoSnap, m1: MemoSnap, j: int, k: int) -> bool {
    exists|i0: int, k0: int|
        #![trigger m1.groups[i0][k0]]
        m1.canonical(i0) && 0 <= k0 < m1.groups[i0].len() && m2.find(i0) == j && m2.canon_node(
            m2.groups[j][k],
        ) == m2.canon_node(m1.groups[i0][k0])
}

/// One historical member of group `i`, re-canonicalized, is still present
/// in the group that `i` resolves to.
pub open spec fn member_kept(cur: MemoSnap, o: MemoSnap, i: int, k: int) -> bool {
    exists|e2: MemoRelNode|
        #![trigger cur.canon_node(e2)]
        cur.groups[cur.find(i)].contains(e2) && cur.canon_node(e2) == cur.canon_node(
            o.groups[i][k],
        )
}

/// Every member every group of `o` ever had is still represented in `cur`.
pub open spec fn members_kept(cur: MemoSnap, o: MemoSnap) -> bool {
    forall|i: int, k: int| #![trigger o.groups[i][k]]
        o.canonical(i) && 0 <= k < o.groups[i].len() ==> member_kept(cur, o, i, k)
}

impl Memo {
    /// Union-find merge of two groups, with congruence closure: after the
    /// two classes are united, every stored node is re-canonicalized, and
    /// whenever that makes two distinct groups share a node those groups are
    /// merged in turn, to a fixpoint.  Merging a group with itself changes
    /// nothing.  Every member a group ever had is still present, in
    /// canonical form, in the group its handle now resolves to.
    #[verifier::rlimit(100)]
    pub fn merge_group(&mut self, group1: GroupId, group2: GroupId) -> (r: GroupId)
        requires
            old(self)@.wf(),
            group1.0 < old(self)@.n(),
            group2.0 < old(self)@.n(),
        ensures
            final(self)@.wf(),
            final(self)@.n() == old(self)@.n(),
            final(self)@.canonical(r.0 as int),
            final(self)@.find(group1.0 as int) == r.0 as int,
            final(self)@.find(group2.0 as int) == r.0 as int,
            old(self)@.find(group1.0 as int) == old(self)@.find(group2.0 as int) ==> final(self)@
                == old(self)@ && r.0 as int == old(self)@.find(group1.0 as int),
            forall|x: int|
                0 <= x < old(self)@.n() ==> final(self)@.find(#[trigger] old(self)@.find(x))
                    == final(self)@.find(x),
            forall|i: int, k: int|
                old(self)@.canonical(i) && 0 <= k < old(self)@.groups[i].len()
                    ==> final(self)@.groups[final(self)@.find(i)].contains(
                    final(self)@.canon_node(#[trigger] old(self)@.groups[i][k]),
                ),
            preserves_history(final(self)@, old(self)@),
            old(self)@.find(group1.0 as int) != old(self)@.find(group2.0 as int) ==> r.0 as int
                <= old(self)@.find(group1.0 as int) && r.0 as int <= old(self)@.find(
                group2.0 as int,
            ),
            old(self)@.find(group1.0 as int) != old(self)@.find(group2.0 as int)
                ==> final(self)@.canon_count() < old(self)@.canon_count(),
            forall|j: int, k: int|
                final(self)@.canonical(j) && 0 <= k < final(self)@.groups[j].len()
                    ==> #[trigger] member_sourced(final(self)@, old(self)@, j, k),
    {
        let ghost o = old(self)@;
        let ga = self.find(group1);
        let gb = self.find(group2);
        if ga.0 == gb.0 {
            proof {
                lemma_history_refl(o);
                assert forall|x: int| 0 <= x < o.n() implies self@.find(#[trigger] o.find(x))
                    == self@.find(x) by {
                    lemma_find_idempotent(o, x);
                }
                assert forall|i: int, k: int|
                    o.canonical(i) && 0 <= k < o.groups[i].len() implies self@.groups[self@.find(
                    i,
                )].contains(self@.canon_node(#[trigger] o.groups[i][k])) by {
                    let e = o.groups[i][k];
                    assert(o.node_canonical(e));
                    lemma_canon_of_canonical(o, e);
                    assert(o.find(i) == i);
                    assert(o.groups[i].contains(e));
                }
            }
            return ga;
        }
        let lo = if ga.0 < gb.0 {
            ga.0
        } else {
            gb.0
        };
        let hi = if ga.0 < gb.0 {
            gb.0
        } else {
            ga.0
        };
        let ghost n0 = o.n();
        self.union_raw(lo, hi);
        proof {
            let t = self@;
            assert forall|x: int| true implies t.find(x) == (if o.find(x) == hi as int {
                lo as int
            } else {
                o.find(x)
            }) by {
                lemma_find_after_union(o, t, lo as int, hi as int, x);
            }
            assert forall|x: int| 0 <= x < n0 implies t.find(#[trigger] o.find(x)) == t.find(x) by {
                lemma_find_idempotent(o, x);
            }
            assert(t.find(ga.0 as int) == t.find(gb.0 as int)) by {
                assert(o.find(ga.0 as int) == ga.0 as int);
                assert(o.find(gb.0 as int) == gb.0 as int);
            }
            lemma_ccu_update(o, t, hi as int, o.parent.len() as int);
            assert(t.canon_count() < o.canon_count());
            assert forall|i: int, k: int| #![trigger o.groups[i][k]]
                o.canonical(i) && 0 <= k < o.groups[i].len() implies member_kept(t, o, i, k) by {
                let e = o.groups[i][k];
                assert(o.find(i) == i);
                if i == hi as int {
                    assert(t.find(i) == lo as int);
                    assert(t.groups[lo as int][o.groups[lo as int].len() + k] == e);
                    assert(t.groups[t.find(i)].contains(e));
                } else if i == lo as int {
                    assert(t.find(i) == lo as int);
                    assert(t.groups[lo as int][k] == e);
                    assert(t.groups[t.find(i)].contains(e));
                } else {
                    assert(t.find(i) == i);
                    assert(t.groups[i] == o.groups[i]);
                    assert(t.groups[t.find(i)].contains(e));
                }
                assert(t.canon_node(e) == t.canon_node(o.groups[i][k]));
            }
            assert(members_kept(t, o));
            assert forall|j: int, k: int|
                t.canonical(j) && 0 <= k < t.groups[j].len() implies #[trigger] member_sourced(
                t,
                o,
                j,
                k,
            ) by {
                if j == lo as int {
                    if k < o.groups[lo as int].len() {
                        assert(t.groups[j][k] == o.groups[lo as int][k]);
                        assert(o.groups[lo as int][k] == o.groups[j][k]);
                        assert(t.find(lo as int) == lo as int);
                    } else {
                        let k0 = k - o.groups[lo as int].len();
                        assert(t.groups[j][k] == o.groups[hi as int][k0]);
                        assert(t.find(hi as int) == lo as int);
                    }
                } else {
                    assert(t.groups[j] == o.groups[j]);
                    assert(o.parent[j] == j);
                    assert(t.find(j) == j);
                    assert(o.groups[j][k] == t.groups[j][k]);
                }
            }
        }
        let mut done = false;
        #[verifier::loop_isolation(false)]
        while !done
            invariant
                self@.wf_basic(),
                self@.n() == n0,
                self@.find(ga.0 as int) == self@.find(gb.0 as int),
                self@.find(ga.0 as int) <= lo as int,
                self@.canon_count() < o.canon_count(),
                forall|x: int| 0 <= x < n0 ==> self@.find(#[trigger] o.find(x)) == self@.find(x),
                members_kept(self@, o),
                forall|j: int, k: int|
                    self@.canonical(j) && 0 <= k < self@.groups[j].len()
                        ==> #[trigger] member_sourced(self@, o, j, k),
                done ==> forall|i: int, k: int|
                    0 <= i < self@.n() && 0 <= k < self@.groups[i].len() ==> self@.node_canonical(
                        #[trigger] self@.groups[i][k],
                    ),
                done ==> forall|i: int, k1: int, k2: int|
                    0 <= i < self@.n() && 0 <= k1 < k2 < self@.groups[i].len()
                        ==> #[trigger] self@.groups[i][k1] != #[trigger] self@.groups[i][k2],
                done ==> forall|i: int, j: int, k1: int, k2: int|
                    0 <= i < j < self@.n() && 0 <= k1 < self@.groups[i].len() && 0 <= k2
                        < self@.groups[j].len() ==> #[trigger] self@.groups[i][k1]
                        != #[trigger] self@.groups[j][k2],
            decreases self@.canon_count(), (if done {
                0int
            } else {
                1int
            }),
        {
            let ghost sa = self@;
            self.repair_all();
            let ghost sb = self@;
            proof {
                lemma_ccu_congruent(sa, sb, sa.parent.len() as int);
                assert(sb.canon_count() == sa.canon_count());
                assert forall|x: int| true implies sb.find(x) == sa.find(x) by {
                    lemma_parent_eq_find(sa, sb, x);
                }
                assert forall|i: int, k: int| #![trigger o.groups[i][k]]
                    o.canonical(i) && 0 <= k < o.groups[i].len() implies member_kept(sb, o, i, k) by {
                    let orig = o.groups[i][k];
                    assert(0 <= i < o.n());
                    assert(sa.n() == o.n());
                    assert(member_kept(sa, o, i, k));
                    let g = sa.find(i);
                    let e2 = choose|e2: MemoRelNode|
                        #![trigger sa.canon_node(e2)]
                        sa.groups[g].contains(e2) && sa.canon_node(e2) == sa.canon_node(orig);
                    lemma_find_canonical(sa, i);
                    assert(0 <= g < sa.n());
                    let e3 = sa.canon_node(e2);
                    assert(sb.groups[g].contains(e3));
                    assert(sa.node_valid(e2)) by {
                        let kk = choose|kk: int| 0 <= kk < sa.groups[g].len() && sa.groups[g][kk]
                            == e2;
                    }
                    lemma_canon_idempotent(sa, e2);
                    lemma_parent_eq_canon(sa, sb, e3);
                    lemma_parent_eq_canon(sa, sb, orig);
                    assert(sb.canon_node(e3) == sb.canon_node(orig));
                    assert(sb.find(i) == g);
                }
                assert(members_kept(sb, o));
                assert forall|j: int, k: int|
                    sb.canonical(j) && 0 <= k < sb.groups[j].len() implies
                    #[trigger] member_sourced(sb, o, j, k) by {
                    assert(repaired_member(sb, sa, j, k));
                    let k0p = choose|k0p: int|
                        0 <= k0p < sa.groups[j].len() && sb.groups[j][k] == sa.canon_node(
                            #[trigger] sa.groups[j][k0p],
                        );
                    assert(sa.canonical(j)) by {
                        assert(sa.parent[j] == sb.parent[j]);
                    }
                    assert(member_sourced(sa, o, j, k0p));
                    let (i0, k0) = choose|i0: int, k0: int|
                        #![trigger o.groups[i0][k0]]
                        o.canonical(i0) && 0 <= k0 < o.groups[i0].len() && sa.find(i0) == j
                            && sa.canon_node(sa.groups[j][k0p]) == sa.canon_node(o.groups[i0][k0]);
                    lemma_parent_eq_find(sa, sb, i0);
                    lemma_parent_eq_canon(sa, sb, sb.groups[j][k]);
                    lemma_parent_eq_canon(sa, sb, o.groups[i0][k0]);
                    assert(sa.node_valid(sa.groups[j][k0p]));
                    lemma_canon_idempotent(sa, sa.groups[j][k0p]);
                    assert(sb.canon_node(sb.groups[j][k]) == sb.canon_node(o.groups[i0][k0]));
                }
            }
            match self.find_collision() {
                None => {
                    done = true;
                },
                Some((i2, j2)) => {
                    let ghost sc = self@;
                    self.union_raw(i2, j2);
                    proof {
                        let t = self@;
                        assert forall|x: int| true implies t.find(x) == (if sc.find(x) == j2 as int {
                            i2 as int
                        } else {
                            sc.find(x)
                        }) by {
                            lemma_find_after_union(sc, t, i2 as int, j2 as int, x);
                        }
                        lemma_ccu_update(sc, t, j2 as int, sc.parent.len() as int);
                        assert(t.canon_count() < sa.canon_count());
                        assert forall|i: int, k: int| #![trigger o.groups[i][k]]
                            o.canonical(i) && 0 <= k < o.groups[i].len() implies member_kept(
                            t,
                            o,
                            i,
                            k,
                        ) by {
                            let orig = o.groups[i][k];
                            assert(0 <= i < o.n());
                            assert(member_kept(sc, o, i, k));
                            let g = sc.find(i);
                            lemma_find_canonical(sc, i);
                            assert(0 <= g < sc.n());
                            let e2 = choose|e2: MemoRelNode|
                                #![trigger sc.canon_node(e2)]
                                sc.groups[g].contains(e2) && sc.canon_node(e2)
                                    == sc.canon_node(orig);
                            let kk = choose|kk: int|
                                0 <= kk < sc.groups[g].len() && sc.groups[g][kk] == e2;
                            lemma_union_canon_eq(sc, t, i2 as int, j2 as int, e2, orig);
                            if g == j2 as int {
                                assert(t.find(i) == i2 as int);
                                assert(t.groups[i2 as int][sc.groups[i2 as int].len() + kk] == e2);
                                assert(t.groups[t.find(i)].contains(e2));
                            } else if g == i2 as int {
                                assert(t.find(i) == i2 as int);
                                assert(t.groups[i2 as int][kk] == e2);
                                assert(t.groups[t.find(i)].contains(e2));
                            } else {
                                assert(t.find(i) == g);
                                assert(t.groups[g] == sc.groups[g]);
                                assert(t.groups[t.find(i)].contains(e2));
                            }
                        }
                        assert(members_kept(t, o));
                        assert forall|j: int, k: int|
                            t.canonical(j) && 0 <= k < t.groups[j].len() implies
                            #[trigger] member_sourced(t, o, j, k) by {
                            if j == i2 as int {
                                if k < sc.groups[i2 as int].len() {
                                    let el = sc.groups[i2 as int][k];
                                    assert(t.groups[j][k] == el);
                                    assert(member_sourced(sc, o, i2 as int, k));
                                    let (i0, k0) = choose|i0: int, k0: int|
                                        #![trigger o.groups[i0][k0]]
                                        o.canonical(i0) && 0 <= k0 < o.groups[i0].len() && sc.find(
                                            i0,
                                        ) == i2 as int && sc.canon_node(sc.groups[i2 as int][k])
                                            == sc.canon_node(o.groups[i0][k0]);
                                    lemma_union_canon_eq(sc, t, i2 as int, j2 as int, el, o.groups[i0][k0]);
                                    assert(t.find(i0) == i2 as int);
                                } else {
                                    let k0p = k - sc.groups[i2 as int].len();
                                    let el = sc.groups[j2 as int][k0p];
                                    assert(t.groups[j][k] == el);
                                    assert(sc.canonical(j2 as int));
                                    assert(member_sourced(sc, o, j2 as int, k0p));
                                    let (i0, k0) = choose|i0: int, k0: int|
                                        #![trigger o.groups[i0][k0]]
                                        o.canonical(i0) && 0 <= k0 < o.groups[i0].len() && sc.find(
                                            i0,
                                        ) == j2 as int && sc.canon_node(sc.groups[j2 as int][k0p])
                                            == sc.canon_node(o.groups[i0][k0]);
                                    lemma_union_canon_eq(sc, t, i2 as int, j2 as int, el, o.groups[i0][k0]);
                                    assert(t.find(i0) == i2 as int);
                                }
                            } else {
                                assert(t.groups[j] == sc.groups[j]);
                                assert(sc.canonical(j)) by {
                                    assert(t.parent[j] == sc.parent[j]);
                                }
                                assert(member_sourced(sc, o, j, k));
                                let (i0, k0) = choose|i0: int, k0: int|
                                    #![trigger o.groups[i0][k0]]
                                    o.canonical(i0) && 0 <= k0 < o.groups[i0].len() && sc.find(i0)
                                        == j && sc.canon_node(sc.groups[j][k]) == sc.canon_node(
                                        o.groups[i0][k0],
                                    );
                                lemma_union_canon_eq(sc, t, i2 as int, j2 as int, t.groups[j][k], o.groups[i0][k0]);
                                assert(t.find(i0) == j);
                            }
                        }
                    }
                },
            }
        }
        proof {
            let t = self@;
            assert forall|i: int, j: int, k1: int, k2: int|
                0 <= i < t.n() && 0 <= j < t.n() && i != j && 0 <= k1 < t.groups[i].len() && 0 <= k2
                < t.groups[j].len() implies #[trigger] t.groups[i][k1] != #[trigger] t.groups[j][k2] by {
                if i < j {
                } else {
                    assert(t.groups[j][k2] != t.groups[i][k1]);
                }
            }
            assert(t.wf());
            assert forall|i: int, k: int|
                o.canonical(i) && 0 <= k < o.groups[i].len() implies t.groups[t.find(i)].contains(
                t.canon_node(#[trigger] o.groups[i][k]),
            ) by {
                let orig = o.groups[i][k];
                assert(member_kept(t, o, i, k));
                let e2 = choose|e2: MemoRelNode|
                    #![trigger t.canon_node(e2)]
                    t.groups[t.find(i)].contains(e2) && t.canon_node(e2) == t.canon_node(orig);
                lemma_find_canonical(t, i);
                assert(t.node_canonical(e2)) by {
                    let g = t.find(i);
                    let kk = choose|kk: int| 0 <= kk < t.groups[g].len() && t.groups[g][kk] == e2;
                }
                lemma_canon_of_canonical(t, e2);
            }
        }
        let r = self.find(group1);
        proof {
            assert(self@.find(ga.0 as int) == self@.find(group1.0 as int));
            assert(self@.find(gb.0 as int) == self@.find(group2.0 as int));
        }
        r
    }
}

/// Whether `g` is one of the child handles of `e`.
fn node_mentions(e: MemoRelNode, g: usize) -> (r: bool)
    ensures
        r == MemoSnap::children_of(e).contains(g as int),
{
    let r = match e {
        MemoRelNode::Scan(_) => false,
        MemoRelNode::Join(j) => j.left.0 == g || j.right.0 == g || j.cond.0 == g,
        MemoRelNode::Filter(f) => f.child.0 == g || f.predicate.0 == g,
        MemoRelNode::Eq(q) => q.left.0 == g || q.right.0 == g,
        MemoRelNode::ColumnRef(_) => false,
        MemoRelNode::Const(_) => false,
    };
    proof {
        let cs = MemoSnap::children_of(e);
        if r {
            match e {
                MemoRelNode::Join(j) => {
                    assert(cs =~= seq![j.left.0 as int, j.right.0 as int, j.cond.0 as int]);
                    if j.left.0 == g {
                        assert(cs[0] == g as int);
                    } else if j.right.0 == g {
                        assert(cs[1] == g as int);
                    } else {
                        assert(cs[2] == g as int);
                    }
                },
                MemoRelNode::Filter(f) => {
                    assert(cs =~= seq![f.child.0 as int, f.predicate.0 as int]);
                    if f.child.0 == g {
                        assert(cs[0] == g as int);
                    } else {
                        assert(cs[1] == g as int);
                    }
                },
                MemoRelNode::Eq(q) => {
                    assert(cs =~= seq![q.left.0 as int, q.right.0 as int]);
                    if q.left.0 == g {
                        assert(cs[0] == g as int);
                    } else {
                        assert(cs[1] == g as int);
                    }
                },
                _ => {},
            }
        } else {
            if cs.contains(g as int) {
                let idx = choose|idx: int| 0 <= idx < cs.len() && cs[idx] == g as int;
                match e {
                    MemoRelNode::Join(j) => {
                        assert(cs =~= seq![j.left.0 as int, j.right.0 as int, j.cond.0 as int]);
                        assert(idx == 0 || idx == 1 || idx == 2);
                    },
                    MemoRelNode::Filter(f) => {
                        assert(cs =~= seq![f.child.0 as int, f.predicate.0 as int]);
                        assert(idx == 0 || idx == 1);
                    },
                    MemoRelNode::Eq(q) => {
                        assert(cs =~= seq![q.left.0 as int, q.right.0 as int]);
                        assert(idx == 0 || idx == 1);
                    },
                    _ => {
                        assert(cs.len() == 0);
                    },
                }
            }
        }
    }
    r
}

impl Memo {
    /// Inserts an alternative node into an existing group.  A node already
    /// registered under a different group cannot belong to two groups at
    /// once: the two groups are merged instead.  A node that would make the
    /// group a child of itself is rejected, and the memo is unchanged.
    pub fn add_expr_to_group(&mut self, group: GroupId, expr: MemoRelNode)
        requires
            old(self)@.wf(),
            group.0 < old(self)@.n(),
            old(self)@.node_valid(expr),
            old(self)@.node_canonical(expr),
        ensures
            final(self)@.wf(),
            final(self)@.n() == old(self)@.n(),
            MemoSnap::children_of(expr).contains(old(self)@.find(group.0 as int)) ==> final(self)@
                == old(self)@,
            !MemoSnap::children_of(expr).contains(old(self)@.find(group.0 as int))
                ==> final(self)@.groups[final(self)@.find(group.0 as int)].contains(
                final(self)@.canon_node(expr),
            ),
            forall|x: int|
                0 <= x < old(self)@.n() ==> final(self)@.find(#[trigger] old(self)@.find(x))
                    == final(self)@.find(x),
            preserves_history(final(self)@, old(self)@),
            !MemoSnap::children_of(expr).contains(old(self)@.find(group.0 as int)) && old(self)@.lookup(
                expr,
            ) == -1 ==> final(self)@.parent == old(self)@.parent && final(self)@.groups == old(
                self,
            )@.groups.update(
                old(self)@.find(group.0 as int),
                old(self)@.groups[old(self)@.find(group.0 as int)].push(expr),
            ),
            !MemoSnap::children_of(expr).contains(old(self)@.find(group.0 as int)) && old(self)@.lookup(
                expr,
            ) == old(self)@.find(group.0 as int) ==> final(self)@ == old(self)@,
            forall|i: int|
                old(self)@.canonical(i) && old(self)@.groups[i].contains(expr)
                    && !MemoSnap::children_of(expr).contains(old(self)@.find(group.0 as int))
                    ==> final(self)@.find(#[trigger] old(self)@.find(i)) == final(self)@.find(
                    group.0 as int,
                ),
    {
        let g = self.find(group);
        if node_mentions(expr, g.0) {
            proof {
                lemma_history_refl(old(self)@);
                assert forall|x: int| 0 <= x < old(self)@.n() implies self@.find(
                    #[trigger] old(self)@.find(x),
                ) == self@.find(x) by {
                    lemma_find_idempotent(old(self)@, x);
                }
            }
            return ;
        }
        match self.get_group(expr) {
            Some(h) => {
                proof {
                    lemma_lookup_found(self@, expr);
                    assert(self@.groups[h.0 as int].contains(expr));
                    lemma_member_group_canonical(self@, h.0 as int);
                }
                if h.0 != g.0 {
                    let r = self.merge_group(g, h);
                    proof {
                        let o = old(self)@;
                        let t = self@;
                        assert(o.canonical(h.0 as int));
                        let k = choose|k: int|
                            0 <= k < o.groups[h.0 as int].len() && o.groups[h.0 as int][k] == expr;
                        assert(t.groups[t.find(h.0 as int)].contains(t.canon_node(expr)));
                        assert(t.find(g.0 as int) == t.find(h.0 as int));
                        assert(t.find(group.0 as int) == t.find(o.find(group.0 as int)));
                    }
                } else {
                    proof {
                        let o = old(self)@;
                        lemma_history_refl(o);
                        lemma_canon_of_canonical(o, expr);
                        assert(o.find(group.0 as int) == g.0 as int);
                        lemma_find_idempotent(o, group.0 as int);
                        assert forall|x: int| 0 <= x < o.n() implies self@.find(
                            #[trigger] o.find(x),
                        ) == self@.find(x) by {
                            lemma_find_idempotent(o, x);
                        }
                    }
                }
            },
            None => {
                proof {
                    lemma_lookup_found(self@, expr);
                }
                let ghost s = self@;
                self.groups[g.0].push(expr);
                proof {
                    let t = self@;
                    let gi = g.0 as int;
                    assert(t.parent == s.parent);
                    assert(t.groups =~= s.groups.update(gi, s.groups[gi].push(expr)));
                    assert forall|x: int| true implies t.find(x) == s.find(x) by {
                        lemma_parent_eq_find(s, t, x);
                    }
                    assert forall|i: int| 0 <= i < t.n() implies (t.parent[i] == i
                        <==> #[trigger] t.groups[i].len() >= 1) by {
                        if i != gi {
                            assert(t.groups[i] == s.groups[i]);
                        }
                    }
                    assert forall|i: int, k: int|
                        0 <= i < t.n() && 0 <= k < t.groups[i].len() implies t.node_valid(
                        #[trigger] t.groups[i][k],
                    ) && t.node_canonical(t.groups[i][k]) by {
                        if i != gi {
                            assert(t.groups[i] == s.groups[i]);
                            assert(s.node_valid(s.groups[i][k]));
                            assert(s.node_canonical(s.groups[i][k]));
                        } else {
                            if k < s.groups[gi].len() {
                                assert(t.groups[i][k] == s.groups[gi][k]);
                                assert(s.node_valid(s.groups[gi][k]));
                                assert(s.node_canonical(s.groups[gi][k]));
                            } else {
                                assert(t.groups[i][k] == expr);
                                assert(s.node_valid(expr));
                                assert(s.node_canonical(expr));
                            }
                        }
                        assert forall|c: int|
                            MemoSnap::children_of(t.groups[i][k]).contains(c) implies 0 <= c
                            < t.n() && t.canonical(c) by {
                            assert(s.node_valid(t.groups[i][k]));
                            assert(s.node_canonical(t.groups[i][k]));
                            assert(s.canonical(c));
                            assert(t.parent[c] == s.parent[c]);
                        }
                    }
                    assert forall|i: int, k1: int, k2: int|
                        0 <= i < t.n() && 0 <= k1 < k2 < t.groups[i].len() implies #[trigger] t.groups[i][k1] != #[trigger] t.groups[i][k2] by {
                        if i == gi && k2 == s.groups[gi].len() {
                            assert(t.groups[i][k1] == s.groups[gi][k1]);
                            assert(!s.groups[gi].contains(expr));
                            if t.groups[i][k1] == expr {
                                assert(s.groups[gi].contains(expr));
                            }
                        } else if i == gi {
                            assert(t.groups[i][k1] == s.groups[gi][k1]);
                            assert(t.groups[i][k2] == s.groups[gi][k2]);
                        } else {
                            assert(t.groups[i] == s.groups[i]);
                        }
                    }
                    assert forall|i: int, j: int, k1: int, k2: int|
                        0 <= i < t.n() && 0 <= j < t.n() && i != j && 0 <= k1 < t.groups[i].len()
                        && 0 <= k2 < t.groups[j].len() implies #[trigger] t.groups[i][k1]
                        != #[trigger] t.groups[j][k2] by {
                        if i == gi && k1 == s.groups[gi].len() {
                            assert(t.groups[i][k1] == expr);
                            assert(t.groups[j] == s.groups[j]);
                            assert(!s.groups[j].contains(expr));
                            if t.groups[j][k2] == expr {
                                assert(s.groups[j].contains(expr));
                            }
                        } else if j == gi && k2 == s.groups[gi].len() {
                            assert(t.groups[j][k2] == expr);
                            assert(t.groups[i] == s.groups[i]);
                            assert(!s.groups[i].contains(expr));
                            if t.groups[i][k1] == expr {
                                assert(s.groups[i].contains(expr));
                            }
                        } else {
                            if i == gi {
                                assert(t.groups[i][k1] == s.groups[gi][k1]);
                            } else {
                                assert(t.groups[i][k1] == s.groups[i][k1]);
                            }
                            if j == gi {
                                assert(t.groups[j][k2] == s.groups[gi][k2]);
                            } else {
                                assert(t.groups[j][k2] == s.groups[j][k2]);
                            }
                        }
                    }
                    lemma_canon_of_canonical(s, expr);
                    lemma_parent_eq_canon(s, t, expr);
                    assert(s.find(group.0 as int) == g.0 as int);
                    assert(t.find(group.0 as int) == g.0 as int);
                    assert(t.groups[gi][s.groups[gi].len() as int] == expr);
                    assert(t.groups[gi].contains(expr));
                    assert forall|x: int| 0 <= x < s.n() implies t.find(#[trigger] s.find(x))
                        == t.find(x) by {
                        lemma_find_idempotent(s, x);
                    }
                    assert forall|i: int, k: int|
                        s.canonical(i) && 0 <= k < s.groups[i].len() implies t.groups[t.find(
                        i,
                    )].contains(t.canon_node(#[trigger] s.groups[i][k])) by {
                        let e = s.groups[i][k];
                        assert(t.find(i) == s.find(i));
                        assert(s.find(i) == i);
                        if i == gi {
                            assert(t.groups[i][k] == e);
                        } else {
                            assert(t.groups[i] == s.groups[i]);
                        }
                        assert(t.groups[i].contains(e));
                        assert(s.node_canonical(e));
                        assert forall|c: int|
                            MemoSnap::children_of(e).contains(c) implies t.canonical(c) by {
                            assert(s.canonical(c));
                            assert(t.parent[c] == s.parent[c]);
                        }
                        lemma_canon_of_canonical(t, e);
                    }
                }
            },
        }
    }
}

} // verus!

verus! {

/// The memo a fresh store starts from: no groups, no handles.
pub open spec fn empty_memo() -> MemoSnap {
    MemoSnap { groups: Seq::empty(), parent: Seq::empty() }
}

/// Number of nodes in a concrete expression tree.
pub open spec fn tree_size(t: &RelNode) -> int
    decreases *t,
{
    match t {
        RelNode::Scan(_) => 1,
        RelNode::Join(j) => 1 + tree_size(&*j.left) + tree_size(&*j.right) + tree_size(&*j.cond),
        RelNode::Filter(f) => 1 + tree_size(&*f.child) + tree_size(&*f.predicate),
        RelNode::Eq(e) => 1 + tree_size(&*e.left) + tree_size(&*e.right),
        RelNode::ColumnRef(_) => 1,
        RelNode::Const(_) => 1,
    }
}

/// Every tree has at least one node.
pub proof fn lemma_tree_size_pos(t: &RelNode)
    ensures
        tree_size(t) >= 1,
    decreases *t,
{
    match t {
        RelNode::Join(j) => {
            lemma_tree_size_pos(&*j.left);
            lemma_tree_size_pos(&*j.right);
            lemma_tree_size_pos(&*j.cond);
        },
        RelNode::Filter(f) => {
            lemma_tree_size_pos(&*f.child);
            lemma_tree_size_pos(&*f.predicate);
        },
        RelNode::Eq(e) => {
            lemma_tree_size_pos(&*e.left);
            lemma_tree_size_pos(&*e.right);
        },
        _ => {},
    }
}

/// `extends` is transitive.
proof fn lemma_extends_trans(s3: MemoSnap, s2: MemoSnap, s1: MemoSnap)
    requires
        extends(s3, s2),
        extends(s2, s1),
    ensures
        extends(s3, s1),
{
}

/// The first hit of a scan is pinned by a witness position and misses
/// before it.
proof fn lemma_lookup_from_eq(s: MemoSnap, e: MemoRelNode, from: int, target: int)
    requires
        0 <= from <= target < s.n(),
        s.groups[target].contains(e),
        forall|i: int| from <= i < target ==> !#[trigger] s.groups[i].contains(e),
    ensures
        s.lookup_from(e, from) == target,
    decreases target - from,
{
    if from < target {
        lemma_lookup_from_eq(s, e, from + 1, target);
    }
}

/// A positive lookup is unchanged in any extension of the memo.
proof fn lemma_lookup_extends(s2: MemoSnap, s1: MemoSnap, e: MemoRelNode)
    requires
        extends(s2, s1),
        s1.lookup(e) >= 0,
    ensures
        s2.lookup(e) == s1.lookup(e),
{
    lemma_lookup_found(s1, e);
    let target = s1.lookup(e);
    assert(s2.groups[target] == s1.groups[target]);
    assert forall|i: int| 0 <= i < target implies !#[trigger] s2.groups[i].contains(e) by {
        lemma_lookup_from_found(s1, e, 0);
        assert(s2.groups[i] == s1.groups[i]);
        lemma_lookup_miss_below(s1, e, 0, target);
    }
    lemma_lookup_from_eq(s2, e, 0, target);
}

/// A scan that hits at `target` missed every group before it.
proof fn lemma_lookup_miss_below(s: MemoSnap, e: MemoRelNode, from: int, target: int)
    requires
        from >= 0,
        s.lookup_from(e, from) == target,
        target >= from,
    ensures
        forall|i: int| from <= i < target ==> !#[trigger] s.groups[i].contains(e),
    decreases target - from,
{
    if from < target && from < s.n() {
        lemma_lookup_miss_below(s, e, from + 1, target);
    }
}

/// Inserting one node extends the memo, preserves its invariants, and
/// leaves the node registered under the returned handle.
proof fn lemma_add_node(s: MemoSnap, e: MemoRelNode)
    requires
        s.wf(),
        s.node_valid(e),
        s.node_canonical(e),
    ensures
        ({
            let (s2, g) = s.add_node(e);
            &&& s2.wf()
            &&& extends(s2, s)
            &&& s.n() <= s2.n() <= s.n() + 1
            &&& 0 <= g < s2.n()
            &&& s2.canonical(g)
            &&& s2.lookup(e) == g
            &&& s2.groups[g].contains(e)
            &&& (s.ordered() ==> s2.ordered())
            &&& (forall|i: int| 0 <= i < s.n() ==> #[trigger] s2.parent[i] == s.parent[i])
        }),
{
    let (s2, g) = s.add_node(e);
    lemma_lookup_found(s, e);
    if s.lookup(e) >= 0 {
    } else {
        lemma_add_fresh_wf(s, e);
        assert(s2.groups[g].contains(e));
        assert forall|i: int| 0 <= i < g implies !#[trigger] s2.groups[i].contains(e) by {
            lemma_lookup_found(s, e);
            assert(s2.groups[i] == s.groups[i]);
        }
        lemma_lookup_from_eq(s2, e, 0, g);
    }
}

/// Canonicalizing a tree preserves the invariants, only appends groups, and
/// yields a live handle.
pub proof fn lemma_memorize_wf(s: MemoSnap, t: &RelNode)
    requires
        s.wf(),
        s.n() + tree_size(t) <= usize::MAX as int,
    ensures
        ({
            let (s2, g) = memorize_spec(s, t);
            &&& s2.wf()
            &&& extends(s2, s)
            &&& s.n() <= s2.n() <= s.n() + tree_size(t)
            &&& 0 <= g < s2.n()
            &&& s2.canonical(g)
            &&& (s.ordered() ==> s2.ordered())
            &&& (forall|i: int| 0 <= i < s.n() ==> #[trigger] s2.parent[i] == s.parent[i])
        }),
    decreases *t,
{
    match t {
        RelNode::Scan(sc) => {
            lemma_add_node(s, MemoRelNode::Scan(*sc));
        },
        RelNode::Join(j) => {
            lemma_tree_size_pos(&*j.left);
            lemma_tree_size_pos(&*j.right);
            lemma_tree_size_pos(&*j.cond);
            lemma_memorize_wf(s, &*j.left);
            let (s1, l) = memorize_spec(s, &*j.left);
            lemma_memorize_wf(s1, &*j.right);
            let (s2, r) = memorize_spec(s1, &*j.right);
            lemma_memorize_wf(s2, &*j.cond);
            let (s3, c) = memorize_spec(s2, &*j.cond);
            let e = MemoRelNode::Join(
                MemoJoin {
                    left: GroupId(l as usize),
                    right: GroupId(r as usize),
                    cond: GroupId(c as usize),
                },
            );
            assert(MemoSnap::children_of(e) =~= seq![l, r, c]) by {
                assert(0 <= l <= usize::MAX as int);
                assert(0 <= r <= usize::MAX as int);
                assert(0 <= c <= usize::MAX as int);
            }
            assert(s3.canonical(l)) by {
                assert(s2.parent[l] == s1.parent[l]);
                assert(s3.parent[l] == s2.parent[l]);
            }
            assert(s3.canonical(r)) by {
                assert(s3.parent[r] == s2.parent[r]);
            }
            lemma_add_node(s3, e);
            lemma_extends_trans(s3.add_node(e).0, s3, s2);
            lemma_extends_trans(s3.add_node(e).0, s2, s1);
            lemma_extends_trans(s3.add_node(e).0, s1, s);
        },
        RelNode::Filter(f) => {
            lemma_tree_size_pos(&*f.child);
            lemma_tree_size_pos(&*f.predicate);
            lemma_memorize_wf(s, &*f.child);
            let (s1, ch) = memorize_spec(s, &*f.child);
            lemma_memorize_wf(s1, &*f.predicate);
            let (s2, p) = memorize_spec(s1, &*f.predicate);
            let e = MemoRelNode::Filter(
                MemoFilter { child: GroupId(ch as usize), predicate: GroupId(p as usize) },
            );
            assert(MemoSnap::children_of(e) =~= seq![ch, p]) by {
                assert(0 <= ch <= usize::MAX as int);
                assert(0 <= p <= usize::MAX as int);
            }
            assert(s2.canonical(ch)) by {
                assert(s2.parent[ch] == s1.parent[ch]);
            }
            lemma_add_node(s2, e);
            lemma_extends_trans(s2.add_node(e).0, s2, s1);
            lemma_extends_trans(s2.add_node(e).0, s1, s);
        },
        RelNode::Eq(q) => {
            lemma_tree_size_pos(&*q.left);
            lemma_tree_size_pos(&*q.right);
            lemma_memorize_wf(s, &*q.left);
            let (s1, l) = memorize_spec(s, &*q.left);
            lemma_memorize_wf(s1, &*q.right);
            let (s2, r) = memorize_spec(s1, &*q.right);
            let e = MemoRelNode::Eq(
                MemoEqPred { left: GroupId(l as usize), right: GroupId(r as usize) },
            );
            assert(MemoSnap::children_of(e) =~= seq![l, r]) by {
                assert(0 <= l <= usize::MAX as int);
                assert(0 <= r <= usize::MAX as int);
            }
            assert(s2.canonical(l)) by {
                assert(s2.parent[l] == s1.parent[l]);
            }
            lemma_add_node(s2, e);
            lemma_extends_trans(s2.add_node(e).0, s2, s1);
            lemma_extends_trans(s2.add_node(e).0, s1, s);
        },
        RelNode::ColumnRef(c) => {
            lemma_add_node(s, MemoRelNode::ColumnRef(*c));
        },
        RelNode::Const(c) => {
            lemma_add_node(s, MemoRelNode::Const(*c));
        },
    }
}

} // verus!

verus! {

/// Once a tree has been canonicalized, canonicalizing it again in any
/// extension of that memo finds every node already registered: the same
/// handle comes back and the memo is untouched.
#[verifier::rlimit(60)]
proof fn lemma_memorize_stable(s: MemoSnap, t: &RelNode, s3: MemoSnap)
    requires
        s.wf(),
        s.n() + tree_size(t) <= usize::MAX as int,
        extends(s3, memorize_spec(s, t).0),
    ensures
        memorize_spec(s3, t) == (s3, memorize_spec(s, t).1),
    decreases *t,
{
    lemma_memorize_wf(s, t);
    let (s2, g) = memorize_spec(s, t);
    match t {
        RelNode::Scan(sc) => {
            let e = MemoRelNode::Scan(*sc);
            lemma_add_node(s, e);
            lemma_lookup_extends(s3, s2, e);
        },
        RelNode::Join(j) => {
            lemma_tree_size_pos(&*j.left);
            lemma_tree_size_pos(&*j.right);
            lemma_tree_size_pos(&*j.cond);
            lemma_memorize_wf(s, &*j.left);
            let (s1, l) = memorize_spec(s, &*j.left);
            lemma_memorize_wf(s1, &*j.right);
            let (s2m, r) = memorize_spec(s1, &*j.right);
            lemma_memorize_wf(s2m, &*j.cond);
            let (s3m, c) = memorize_spec(s2m, &*j.cond);
            let e = MemoRelNode::Join(
                MemoJoin {
                    left: GroupId(l as usize),
                    right: GroupId(r as usize),
                    cond: GroupId(c as usize),
                },
            );
            lemma_add_node(s3m, e);
            lemma_extends_trans(s3, s2, s3m);
            lemma_extends_trans(s3, s3m, s2m);
            lemma_extends_trans(s3, s2m, s1);
            lemma_memorize_stable(s, &*j.left, s3);
            lemma_memorize_stable(s1, &*j.right, s3);
            lemma_memorize_stable(s2m, &*j.cond, s3);
            lemma_lookup_extends(s3, s2, e);
        },
        RelNode::Filter(f) => {
            lemma_tree_size_pos(&*f.child);
            lemma_tree_size_pos(&*f.predicate);
            lemma_memorize_wf(s, &*f.child);
            let (s1, ch) = memorize_spec(s, &*f.child);
            lemma_memorize_wf(s1, &*f.predicate);
            let (s2m, p) = memorize_spec(s1, &*f.predicate);
            let e = MemoRelNode::Filter(
                MemoFilter { child: GroupId(ch as usize), predicate: GroupId(p as usize) },
            );
            lemma_add_node(s2m, e);
            lemma_extends_trans(s3, s2, s2m);
            lemma_extends_trans(s3, s2m, s1);
            lemma_memorize_stable(s, &*f.child, s3);
            lemma_memorize_stable(s1, &*f.predicate, s3);
            lemma_lookup_extends(s3, s2, e);
        },
        RelNode::Eq(q) => {
            lemma_tree_size_pos(&*q.left);
            lemma_tree_size_pos(&*q.right);
            lemma_memorize_wf(s, &*q.left);
            let (s1, l) = memorize_spec(s, &*q.left);
            lemma_memorize_wf(s1, &*q.right);
            let (s2m, r) = memorize_spec(s1, &*q.right);
            let e = MemoRelNode::Eq(
                MemoEqPred { left: GroupId(l as usize), right: GroupId(r as usize) },
            );
            lemma_add_node(s2m, e);
            lemma_extends_trans(s3, s2, s2m);
            lemma_extends_trans(s3, s2m, s1);
            lemma_memorize_stable(s, &*q.left, s3);
            lemma_memorize_stable(s1, &*q.right, s3);
            lemma_lookup_extends(s3, s2, e);
        },
        RelNode::ColumnRef(cp) => {
            let e = MemoRelNode::ColumnRef(*cp);
            lemma_add_node(s, e);
            lemma_lookup_extends(s3, s2, e);
        },
        RelNode::Const(cp) => {
            let e = MemoRelNode::Const(*cp);
            lemma_add_node(s, e);
            lemma_lookup_extends(s3, s2, e);
        },
    }
}

/// Idempotent insertion: canonicalizing the same expression tree twice
/// returns the same handle both times, and the second call leaves the memo
/// — in particular its total group count — unchanged.
pub proof fn lemma_memorize_idempotent(s: MemoSnap, t: &RelNode)
    requires
        s.wf(),
        s.n() + tree_size(t) <= usize::MAX as int,
    ensures
        ({
            let (s2, g) = memorize_spec(s, t);
            &&& memorize_spec(s2, t) == (s2, g)
            &&& memorize_spec(s2, t).0.canon_count() == s2.canon_count()
        }),
{
    lemma_memorize_wf(s, t);
    lemma_memorize_stable(s, t, memorize_spec(s, t).0);
}

} // verus!

verus! {

/// A memo built by insertion alone: every handle is live and every group
/// still holds exactly the one node it was created with.
pub open spec fn pure_memo(s: MemoSnap) -> bool {
    &&& s.wf()
    &&& forall|i: int| 0 <= i < s.n() ==> #[trigger] s.parent[i] == i
    &&& forall|i: int| 0 <= i < s.n() ==> #[trigger] s.groups[i].len() == 1
}

/// What a group stands for does not change when fresh groups are appended
/// to a merge-free memo.
proof fn lemma_represents_extends(s1: MemoSnap, s2: MemoSnap, g: int, t: &RelNode)
    requires
        represents(s1, g, t),
        extends(s2, s1),
        s1.parent.len() == s1.n(),
        s2.parent.len() == s2.n(),
        forall|i: int| 0 <= i < s1.n() ==> #[trigger] s1.parent[i] == i,
        forall|i: int| 0 <= i < s2.n() ==> #[trigger] s2.parent[i] == i,
    ensures
        represents(s2, g, t),
    decreases *t,
{
    let gg = s1.find(g);
    assert(0 <= gg < s1.n());
    assert(s1.find(g) == g) by {
        if 0 <= g < s1.parent.len() {
            assert(s1.parent[g] == g);
        }
    }
    assert(s2.find(g) == g) by {
        if 0 <= g < s2.parent.len() {
            assert(s2.parent[g] == g);
        }
    }
    assert(s2.groups[g] == s1.groups[g]);
    let e = s1.groups[g][0];
    match t {
        RelNode::Join(b) => {
            let a = e->Join_0;
            lemma_represents_extends(s1, s2, a.left.0 as int, &*b.left);
            lemma_represents_extends(s1, s2, a.right.0 as int, &*b.right);
            lemma_represents_extends(s1, s2, a.cond.0 as int, &*b.cond);
        },
        RelNode::Filter(b) => {
            let a = e->Filter_0;
            lemma_represents_extends(s1, s2, a.child.0 as int, &*b.child);
            lemma_represents_extends(s1, s2, a.predicate.0 as int, &*b.predicate);
        },
        RelNode::Eq(b) => {
            let a = e->Eq_0;
            lemma_represents_extends(s1, s2, a.left.0 as int, &*b.left);
            lemma_represents_extends(s1, s2, a.right.0 as int, &*b.right);
        },
        _ => {},
    }
}

/// Canonicalizing a tree into a merge-free memo keeps the memo merge-free,
/// and the handle that comes back stands for exactly that tree.
#[verifier::rlimit(100)]
proof fn lemma_memorize_represents(s: MemoSnap, t: &RelNode)
    requires
        pure_memo(s),
        s.n() + tree_size(t) <= usize::MAX as int,
    ensures
        ({
            let (s2, g) = memorize_spec(s, t);
            &&& pure_memo(s2)
            &&& represents(s2, g, t)
        }),
    decreases *t,
{
    lemma_memorize_wf(s, t);
    let (s2, g) = memorize_spec(s, t);
    match t {
        RelNode::Scan(sc) => {
            let e = MemoRelNode::Scan(*sc);
            lemma_add_node(s, e);
            lemma_add_pure(s, e);
        },
        RelNode::Join(j) => {
            lemma_tree_size_pos(&*j.left);
            lemma_tree_size_pos(&*j.right);
            lemma_tree_size_pos(&*j.cond);
            lemma_memorize_wf(s, &*j.left);
            lemma_memorize_represents(s, &*j.left);
            let (s1, l) = memorize_spec(s, &*j.left);
            lemma_memorize_wf(s1, &*j.right);
            lemma_memorize_represents(s1, &*j.right);
            let (s2m, r) = memorize_spec(s1, &*j.right);
            lemma_memorize_wf(s2m, &*j.cond);
            lemma_memorize_represents(s2m, &*j.cond);
            let (s3m, c) = memorize_spec(s2m, &*j.cond);
            let e = MemoRelNode::Join(
                MemoJoin {
                    left: GroupId(l as usize),
                    right: GroupId(r as usize),
                    cond: GroupId(c as usize),
                },
            );
            lemma_add_node(s3m, e);
            lemma_add_pure(s3m, e);
            lemma_represents_extends(s1, s2, l, &*j.left);
            lemma_represents_extends(s2m, s2, r, &*j.right);
            lemma_represents_extends(s3m, s2, c, &*j.cond);
            assert(s2.groups[g].contains(e));
            assert(s2.groups[g].len() == 1);
            assert(s2.groups[g][0] == e) by {
                let k = choose|k: int| 0 <= k < s2.groups[g].len() && s2.groups[g][k] == e;
            }
            assert(s2.find(g) == g) by {
                if 0 <= g < s2.parent.len() {
                    assert(s2.parent[g] == g);
                }
            }
        },
        RelNode::Filter(f) => {
            lemma_tree_size_pos(&*f.child);
            lemma_tree_size_pos(&*f.predicate);
            lemma_memorize_wf(s, &*f.child);
            lemma_memorize_represents(s, &*f.child);
            let (s1, ch) = memorize_spec(s, &*f.child);
            lemma_memorize_wf(s1, &*f.predicate);
            lemma_memorize_represents(s1, &*f.predicate);
            let (s2m, p) = memorize_spec(s1, &*f.predicate);
            let e = MemoRelNode::Filter(
                MemoFilter { child: GroupId(ch as usize), predicate: GroupId(p as usize) },
            );
            lemma_add_node(s2m, e);
            lemma_add_pure(s2m, e);
            lemma_represents_extends(s1, s2, ch, &*f.child);
            lemma_represents_extends(s2m, s2, p, &*f.predicate);
            assert(s2.groups[g].contains(e));
            assert(s2.groups[g].len() == 1);
            assert(s2.groups[g][0] == e) by {
                let k = choose|k: int| 0 <= k < s2.groups[g].len() && s2.groups[g][k] == e;
            }
            assert(s2.find(g) == g) by {
                if 0 <= g < s2.parent.len() {
                    assert(s2.parent[g] == g);
                }
            }
        },
        RelNode::Eq(q) => {
            lemma_tree_size_pos(&*q.left);
            lemma_tree_size_pos(&*q.right);
            lemma_memorize_wf(s, &*q.left);
            lemma_memorize_represents(s, &*q.left);
            let (s1, l) = memorize_spec(s, &*q.left);
            lemma_memorize_wf(s1, &*q.right);
            lemma_memorize_represents(s1, &*q.right);
            let (s2m, r) = memorize_spec(s1, &*q.right);
            let e = MemoRelNode::Eq(
                MemoEqPred { left: GroupId(l as usize), right: GroupId(r as usize) },
            );
            lemma_add_node(s2m, e);
            lemma_add_pure(s2m, e);
            lemma_represents_extends(s1, s2, l, &*q.left);
            lemma_represents_extends(s2m, s2, r, &*q.right);
            assert(s2.groups[g].contains(e));
            assert(s2.groups[g].len() == 1);
            assert(s2.groups[g][0] == e) by {
                let k = choose|k: int| 0 <= k < s2.groups[g].len() && s2.groups[g][k] == e;
            }
            assert(s2.find(g) == g) by {
                if 0 <= g < s2.parent.len() {
                    assert(s2.parent[g] == g);
                }
            }
        },
        RelNode::ColumnRef(cp) => {
            let e = MemoRelNode::ColumnRef(*cp);
            lemma_add_node(s, e);
            lemma_add_pure(s, e);
        },
        RelNode::Const(cp) => {
            let e = MemoRelNode::Const(*cp);
            lemma_add_node(s, e);
            lemma_add_pure(s, e);
        },
    }
}

/// Insertion keeps a merge-free memo merge-free, and registers the node as
/// the single member at index zero of its group.
proof fn lemma_add_pure(s: MemoSnap, e: MemoRelNode)
    requires
        pure_memo(s),
        s.node_valid(e),
        s.node_canonical(e),
    ensures
        ({
            let (s2, g) = s.add_node(e);
            &&& pure_memo(s2)
            &&& s2.groups[g].len() == 1
            &&& s2.groups[g][0] == e
            &&& s2.find(g) == g
        }),
{
    lemma_add_node(s, e);
    let (s2, g) = s.add_node(e);
    assert(s2.groups[g].contains(e));
    if s.lookup(e) >= 0 {
        assert(s2.groups[g].len() == 1);
    } else {
        assert(s2.groups[g] == seq![e]);
    }
    assert(s2.groups[g][0] == e) by {
        let k = choose|k: int| 0 <= k < s2.groups[g].len() && s2.groups[g][k] == e;
    }
    assert forall|i: int| 0 <= i < s2.n() implies #[trigger] s2.parent[i] == i by {
        if i < s.n() {
        }
    }
    assert(s2.find(g) == g) by {
        if 0 <= g < s2.parent.len() {
            assert(s2.parent[g] == g);
        }
    }
}

/// A group stands for at most one tree.
proof fn lemma_represents_unique(s: MemoSnap, g: int, t1: &RelNode, t2: &RelNode)
    requires
        represents(s, g, t1),
        represents(s, g, t2),
    ensures
        *t1 == *t2,
    decreases *t1,
{
    let gg = s.find(g);
    let e = s.groups[gg][0];
    match t1 {
        RelNode::Join(b1) => {
            let b2 = (*t2)->Join_0;
            let a = e->Join_0;
            lemma_represents_unique(s, a.left.0 as int, &*b1.left, &*b2.left);
            lemma_represents_unique(s, a.right.0 as int, &*b1.right, &*b2.right);
            lemma_represents_unique(s, a.cond.0 as int, &*b1.cond, &*b2.cond);
        },
        RelNode::Filter(b1) => {
            let b2 = (*t2)->Filter_0;
            let a = e->Filter_0;
            lemma_represents_unique(s, a.child.0 as int, &*b1.child, &*b2.child);
            lemma_represents_unique(s, a.predicate.0 as int, &*b1.predicate, &*b2.predicate);
        },
        RelNode::Eq(b1) => {
            let b2 = (*t2)->Eq_0;
            let a = e->Eq_0;
            lemma_represents_unique(s, a.left.0 as int, &*b1.left, &*b2.left);
            lemma_represents_unique(s, a.right.0 as int, &*b1.right, &*b2.right);
        },
        _ => {},
    }
}

/// Round trip: canonicalizing a tree into a fresh memo yields a group that
/// stands for that tree and no other, so extracting it gives the tree back.
pub proof fn lemma_memorize_round_trip(t: &RelNode)
    requires
        tree_size(t) <= usize::MAX as int,
    ensures
        ({
            let (s2, g) = memorize_spec(empty_memo(), t);
            &&& represents(s2, g, t)
            &&& forall|r: RelNode| represents(s2, g, &r) ==> r == *t
        }),
{
    lemma_memorize_represents(empty_memo(), t);
    let (s2, g) = memorize_spec(empty_memo(), t);
    assert forall|r: RelNode| represents(s2, g, &r) implies r == *t by {
        lemma_represents_unique(s2, g, &r, t);
    }
}

/// Deduplication: a join of a sub-tree with itself canonicalizes into
/// strictly fewer new groups than the tree has nodes, because the repeated
/// sub-tree is registered only once.
pub proof fn lemma_memorize_dedup(s: MemoSnap, t: &RelNode)
    requires
        s.wf(),
        s.n() + tree_size(t) <= usize::MAX as int,
        *t matches RelNode::Join(j) && *j.left == *j.right,
    ensures
        memorize_spec(s, t).0.n() - s.n() < tree_size(t),
{
    let j = (*t)->Join_0;
    lemma_tree_size_pos(&*j.left);
    lemma_tree_size_pos(&*j.right);
    lemma_tree_size_pos(&*j.cond);
    lemma_memorize_wf(s, &*j.left);
    let (s1, l) = memorize_spec(s, &*j.left);
    lemma_memorize_stable(s, &*j.left, s1);
    assert(memorize_spec(s1, &*j.right) == (s1, l)) by {
        assert(memorize_spec(s1, &*j.left) == (s1, l));
    }
    lemma_memorize_wf(s1, &*j.cond);
    let (s2m, c) = memorize_spec(s1, &*j.cond);
    let e = MemoRelNode::Join(
        MemoJoin { left: GroupId(l as usize), right: GroupId(l as usize), cond: GroupId(c as usize) },
    );
    lemma_add_node(s2m, e);
}

/// Congruence propagation: when group `p` holds a node, group `q` holds a
/// node that is structurally identical once canonicalized — as happens when
/// the two nodes differed only in child groups that have since been merged —
/// then after a merge that kept every historical member, `p` and `q`
/// resolve to one group.
pub proof fn lemma_congruence_propagation(
    o: MemoSnap,
    m: MemoSnap,
    p: int,
    q: int,
    kp: int,
    kq: int,
)
    requires
        o.wf(),
        m.wf(),
        m.n() == o.n(),
        forall|i: int, k: int|
            o.canonical(i) && 0 <= k < o.groups[i].len() ==> m.groups[m.find(i)].contains(
                m.canon_node(#[trigger] o.groups[i][k]),
            ),
        o.canonical(p),
        o.canonical(q),
        0 <= kp < o.groups[p].len(),
        0 <= kq < o.groups[q].len(),
        m.canon_node(o.groups[p][kp]) == m.canon_node(o.groups[q][kq]),
    ensures
        m.find(p) == m.find(q),
{
    let c = m.canon_node(o.groups[p][kp]);
    assert(m.groups[m.find(p)].contains(c));
    assert(m.groups[m.find(q)].contains(c));
    lemma_find_canonical(m, p);
    lemma_find_canonical(m, q);
    if m.find(p) != m.find(q) {
        let k1 = choose|k1: int|
            0 <= k1 < m.groups[m.find(p)].len() && m.groups[m.find(p)][k1] == c;
        let k2 = choose|k2: int|
            0 <= k2 < m.groups[m.find(q)].len() && m.groups[m.find(q)][k2] == c;
        assert(m.groups[m.find(p)][k1] != m.groups[m.find(q)][k2]);
    }
}

} // verus!

verus! {

/// The relation every mutating operation maintains toward any earlier
/// state: handles persist, resolution only coarsens, and every member any
/// group ever had is still present, in canonical form, in the group its
/// handle now resolves to.
pub open spec fn preserves_history(m2: MemoSnap, m1: MemoSnap) -> bool {
    &&& m1.n() <= m2.n()
    &&& forall|x: int| 0 <= x < m1.n() ==> m2.find(#[trigger] m1.find(x)) == m2.find(x)
    &&& forall|i: int, k: int|
        m1.canonical(i) && 0 <= k < m1.groups[i].len() ==> m2.groups[m2.find(i)].contains(
            m2.canon_node(#[trigger] m1.groups[i][k]),
        )
}

/// Canonicalizing in an earlier state and then in a later one is the same
/// as canonicalizing in the later one directly.
pub proof fn lemma_canon_compose(m2: MemoSnap, m1: MemoSnap, e: MemoRelNode)
    requires
        m1.node_valid(e),
        forall|x: int| 0 <= x < m1.n() ==> m2.find(#[trigger] m1.find(x)) == m2.find(x),
    ensures
        m2.canon_node(m1.canon_node(e)) == m2.canon_node(e),
{
    match e {
        MemoRelNode::Join(j) => {
            assert(MemoSnap::children_of(e).contains(j.left.0 as int));
            assert(MemoSnap::children_of(e).contains(j.right.0 as int));
            assert(MemoSnap::children_of(e).contains(j.cond.0 as int));
            lemma_find_le(m1, j.left.0 as int);
            lemma_find_le(m1, j.right.0 as int);
            lemma_find_le(m1, j.cond.0 as int);
        },
        MemoRelNode::Filter(f) => {
            assert(MemoSnap::children_of(e).contains(f.child.0 as int));
            assert(MemoSnap::children_of(e).contains(f.predicate.0 as int));
            lemma_find_le(m1, f.child.0 as int);
            lemma_find_le(m1, f.predicate.0 as int);
        },
        MemoRelNode::Eq(p) => {
            assert(MemoSnap::children_of(e).contains(p.left.0 as int));
            assert(MemoSnap::children_of(e).contains(p.right.0 as int));
            lemma_find_le(m1, p.left.0 as int);
            lemma_find_le(m1, p.right.0 as int);
        },
        _ => {},
    }
}

/// A claim of the form "the class of `g` holds the canonical form of `x`"
/// survives any history-preserving step.
pub proof fn lemma_member_claim_history(m2: MemoSnap, m1: MemoSnap, x: MemoRelNode, g: int)
    requires
        m1.wf_basic(),
        preserves_history(m2, m1),
        m1.node_valid(x),
        0 <= g < m1.n(),
        m1.groups[m1.find(g)].contains(m1.canon_node(x)),
    ensures
        m2.groups[m2.find(g)].contains(m2.canon_node(x)),
{
    let gg = m1.find(g);
    lemma_find_canonical(m1, g);
    lemma_find_le(m1, g);
    let k = choose|k: int| 0 <= k < m1.groups[gg].len() && m1.groups[gg][k] == m1.canon_node(x);
    assert(m2.groups[m2.find(gg)].contains(m2.canon_node(m1.canon_node(x))));
    lemma_canon_compose(m2, m1, x);
    assert(m2.find(m1.find(g)) == m2.find(g));
}

/// A state preserves its own history.
pub proof fn lemma_history_refl(m: MemoSnap)
    requires
        m.wf(),
    ensures
        preserves_history(m, m),
{
    assert forall|x: int| 0 <= x < m.n() implies m.find(#[trigger] m.find(x)) == m.find(x) by {
        lemma_find_idempotent(m, x);
    }
    assert forall|i: int, k: int|
        m.canonical(i) && 0 <= k < m.groups[i].len() implies m.groups[m.find(i)].contains(
        m.canon_node(#[trigger] m.groups[i][k]),
    ) by {
        assert(m.find(i) == i);
        assert(m.node_canonical(m.groups[i][k]));
        lemma_canon_of_canonical(m, m.groups[i][k]);
    }
}

/// Appending fresh groups preserves history.
pub proof fn lemma_extends_history(m2: MemoSnap, m1: MemoSnap)
    requires
        m1.wf(),
        extends(m2, m1),
        m1.parent.len() == m1.n(),
    ensures
        preserves_history(m2, m1),
{
    assert forall|x: int| 0 <= x < m1.n() implies m2.find(#[trigger] m1.find(x)) == m2.find(x) by {
        lemma_find_extends(m2, m1, x);
        lemma_find_le(m1, x);
        lemma_find_extends(m2, m1, m1.find(x));
        lemma_find_idempotent(m1, x);
    }
    assert forall|i: int, k: int|
        m1.canonical(i) && 0 <= k < m1.groups[i].len() implies m2.groups[m2.find(i)].contains(
        m2.canon_node(#[trigger] m1.groups[i][k]),
    ) by {
        let e = m1.groups[i][k];
        lemma_find_extends(m2, m1, i);
        assert(m1.find(i) == i);
        assert(m2.groups[i] == m1.groups[i]);
        assert(m1.node_canonical(e));
        assert forall|c: int| MemoSnap::children_of(e).contains(c) implies m2.canonical(c) by {
            assert(m1.canonical(c));
            assert(m2.parent[c] == m1.parent[c]);
        }
        lemma_canon_of_canonical(m2, e);
    }
}

/// History preservation composes.
pub proof fn lemma_history_trans(m3: MemoSnap, m2: MemoSnap, m1: MemoSnap)
    requires
        m1.wf(),
        m2.wf(),
        preserves_history(m2, m1),
        preserves_history(m3, m2),
    ensures
        preserves_history(m3, m1),
{
    assert forall|x: int| 0 <= x < m1.n() implies m3.find(#[trigger] m1.find(x)) == m3.find(x) by {
        lemma_find_le(m1, x);
        assert(m2.find(m1.find(x)) == m2.find(x));
        lemma_find_le(m2, m1.find(x));
        assert(m3.find(m2.find(m1.find(x))) == m3.find(m1.find(x)));
        assert(m3.find(m2.find(x)) == m3.find(x));
    }
    assert forall|i: int, k: int|
        m1.canonical(i) && 0 <= k < m1.groups[i].len() implies m3.groups[m3.find(i)].contains(
        m3.canon_node(#[trigger] m1.groups[i][k]),
    ) by {
        let e = m1.groups[i][k];
        assert(m2.groups[m2.find(i)].contains(m2.canon_node(e)));
        assert(m1.node_valid(e));
        assert(m2.node_valid(e)) by {
            assert forall|c: int| MemoSnap::children_of(e).contains(c) implies 0 <= c < m2.n() by {
                assert(0 <= c < m1.n());
            }
        }
        lemma_member_claim_history(m3, m2, e, i);
    }
}

} // verus!

verus! {

/// `rank` certifies acyclicity: it assigns every handle a height that
/// strictly decreases from every group to every child group referenced by
/// one of its members.
pub open spec fn rank_ok(s: MemoSnap, rank: Seq<nat>) -> bool {
    rank.len() == s.n() && forall|i: int, k: int, c: int|
        0 <= i < s.n() && 0 <= k < s.groups[i].len() && #[trigger] MemoSnap::children_of(
            s.groups[i][k],
        ).contains(c) ==> rank[c] < rank[i]
}

/// Acyclicity of the group graph: some rank assignment strictly decreases
/// along every child reference, so no chain of child references can return
/// to its starting group.
pub open spec fn acyclic(s: MemoSnap) -> bool {
    exists|rank: Seq<nat>| #[trigger] rank_ok(s, rank)
}

/// One rank certificate of an acyclic memo; extraction recurses along it.
pub open spec fn extraction_rank(s: MemoSnap) -> Seq<nat> {
    choose|rank: Seq<nat>| rank_ok(s, rank)
}

/// A merge-free memo is acyclic: its members reference strictly older
/// groups, so the handles themselves rank the graph.
pub proof fn lemma_ordered_acyclic(s: MemoSnap)
    requires
        s.wf_basic(),
        s.ordered(),
    ensures
        acyclic(s),
{
    let rank = Seq::new(s.n() as nat, |i: int| i as nat);
    assert(rank.len() == s.n());
    assert forall|i: int, k: int, c: int|
        0 <= i < s.n() && 0 <= k < s.groups[i].len() && #[trigger] MemoSnap::children_of(
            s.groups[i][k],
        ).contains(c) implies rank[c] < rank[i] by {
        assert(s.node_valid(s.groups[i][k]));
        assert(0 <= c < i);
    }
    assert(rank_ok(s, rank));
}

} // verus!

verus! {

/// Number of entries still unassigned.
pub open spec fn count_false_upto(s: Seq<bool>, i: int) -> nat
    decreases i,
{
    if i <= 0 {
        0
    } else {
        count_false_upto(s, i - 1) + (if !s[i - 1] {
            1nat
        } else {
            0nat
        })
    }
}

/// Assigning one unassigned entry lowers the unassigned count of every
/// prefix behind it by one.
proof fn lemma_count_false_update(s1: Seq<bool>, s2: Seq<bool>, j: int, m: int)
    requires
        0 <= j < s1.len(),
        !s1[j],
        s2[j],
        s2.len() == s1.len(),
        forall|x: int| 0 <= x < s1.len() && x != j ==> s2[x] == #[trigger] s1[x],
        0 <= m <= s1.len(),
    ensures
        count_false_upto(s2, m) == count_false_upto(s1, m) - (if m > j {
            1int
        } else {
            0int
        }),
    decreases m,
{
    if m > 0 {
        lemma_count_false_update(s1, s2, j, m - 1);
    }
}

/// Whether every child of `e` is already assigned a height below `round`.
fn node_children_ready(e: MemoRelNode, assigned: &Vec<bool>, rank: &Vec<usize>, round: usize) -> (r:
    bool)
    requires
        assigned@.len() == rank@.len(),
        forall|c: int| MemoSnap::children_of(e).contains(c) ==> 0 <= c < assigned@.len(),
    ensures
        r == forall|c: int|
            MemoSnap::children_of(e).contains(c) ==> assigned@[c] && (rank@[c] as int) < round as int,
{
    let r = match e {
        MemoRelNode::Scan(_) => true,
        MemoRelNode::Join(j) => {
            proof {
                assert(MemoSnap::children_of(e) =~= seq![
                    j.left.0 as int,
                    j.right.0 as int,
                    j.cond.0 as int,
                ]);
                assert(MemoSnap::children_of(e).contains(j.left.0 as int));
                assert(MemoSnap::children_of(e).contains(j.right.0 as int));
                assert(MemoSnap::children_of(e).contains(j.cond.0 as int));
            }
            assigned[j.left.0] && rank[j.left.0] < round && assigned[j.right.0] && rank[j.right.0]
                < round && assigned[j.cond.0] && rank[j.cond.0] < round
        },
        MemoRelNode::Filter(f) => {
            proof {
                assert(MemoSnap::children_of(e) =~= seq![f.child.0 as int, f.predicate.0 as int]);
                assert(MemoSnap::children_of(e).contains(f.child.0 as int));
                assert(MemoSnap::children_of(e).contains(f.predicate.0 as int));
            }
            assigned[f.child.0] && rank[f.child.0] < round && assigned[f.predicate.0]
                && rank[f.predicate.0] < round
        },
        MemoRelNode::Eq(q) => {
            proof {
                assert(MemoSnap::children_of(e) =~= seq![q.left.0 as int, q.right.0 as int]);
                assert(MemoSnap::children_of(e).contains(q.left.0 as int));
                assert(MemoSnap::children_of(e).contains(q.right.0 as int));
            }
            assigned[q.left.0] && rank[q.left.0] < round && assigned[q.right.0] && rank[q.right.0]
                < round
        },
        MemoRelNode::ColumnRef(_) => true,
        MemoRelNode::Const(_) => true,
    };
    proof {
        if !r {
            assert(exists|c: int|
                MemoSnap::children_of(e).contains(c) && !(assigned@[c] && (rank@[c] as int)
                    < round as int));
        } else {
            assert forall|c: int|
                MemoSnap::children_of(e).contains(c) implies assigned@[c] && (rank@[c] as int)
                < round as int by {
                let cs = MemoSnap::children_of(e);
                let idx = choose|idx: int| 0 <= idx < cs.len() && cs[idx] == c;
            }
        }
    }
    r
}

impl Memo {
    /// Checks the acyclicity invariant at run time by layering the groups:
    /// a group is assigned a height once every child of every member has a
    /// smaller one.  A positive answer certifies that the group graph has
    /// no cycles, so extraction is available; the check is conservative
    /// only in never erring on the positive side.
    pub fn check_acyclic(&self) -> (r: bool)
        requires
            self@.wf_basic(),
        ensures
            r ==> acyclic(self@),
    {
        let n = self.groups.len();
        let mut assigned: Vec<bool> = Vec::new();
        let mut rank: Vec<usize> = Vec::new();
        let mut setup: usize = 0;
        while setup < n
            invariant
                assigned@.len() == setup,
                rank@.len() == setup,
                setup <= n,
                forall|x: int| 0 <= x < setup ==> !#[trigger] assigned@[x],
            decreases n - setup,
        {
            assigned.push(false);
            rank.push(0);
            setup = setup + 1;
        }
        let mut round: usize = 1;
        let mut progress = true;
        while progress
            invariant
                self@.wf_basic(),
                n == self@.n(),
                assigned@.len() == n,
                rank@.len() == n,
                round >= 1,
                forall|i: int|
                    0 <= i < n && #[trigger] assigned@[i] ==> (rank@[i] as int) < round as int,
                forall|i: int, k: int, c: int|
                    0 <= i < n && assigned@[i] && 0 <= k < self@.groups[i].len()
                        && #[trigger] MemoSnap::children_of(self@.groups[i][k]).contains(c)
                        ==> assigned@[c] && (rank@[c] as int) < (rank@[i] as int),
            decreases count_false_upto(assigned@, n as int), (if progress {
                1int
            } else {
                0int
            }),
        {
            progress = false;
            if round == usize::MAX {
                return false;
            }
            let ghost a0 = assigned@;
            let mut i: usize = 0;
            while i < n
                invariant
                    self@.wf_basic(),
                    n == self@.n(),
                    assigned@.len() == n,
                    rank@.len() == n,
                    round >= 1,
                    round < usize::MAX,
                    i <= n,
                    forall|i2: int|
                        0 <= i2 < n && #[trigger] assigned@[i2] ==> (rank@[i2] as int)
                            <= round as int,
                    forall|i2: int, k: int, c: int|
                        0 <= i2 < n && assigned@[i2] && 0 <= k < self@.groups[i2].len()
                            && #[trigger] MemoSnap::children_of(self@.groups[i2][k]).contains(c)
                            ==> assigned@[c] && (rank@[c] as int) < (rank@[i2] as int),
                    count_false_upto(assigned@, n as int) <= count_false_upto(a0, n as int),
                    progress ==> count_false_upto(assigned@, n as int) < count_false_upto(
                        a0,
                        n as int,
                    ),
                    !progress ==> assigned@ == a0,
                decreases n - i,
            {
                if !assigned[i] {
                    let members = &self.groups[i];
                    let mut ready = true;
                    let mut k: usize = 0;
                    while k < members.len()
                        invariant
                            self@.wf_basic(),
                            n == self@.n(),
                            i < n,
                            assigned@.len() == n,
                            rank@.len() == n,
                            members@ == self@.groups[i as int],
                            k <= members@.len(),
                            ready == forall|k2: int, c: int|
                                0 <= k2 < k && #[trigger] MemoSnap::children_of(
                                    members@[k2],
                                ).contains(c) ==> assigned@[c] && (rank@[c] as int) < round as int,
                        decreases members@.len() - k,
                    {
                        proof {
                            assert(self@.node_valid(self@.groups[i as int][k as int]));
                        }
                        let ok = node_children_ready(members[k], &assigned, &rank, round);
                        if !ok {
                            ready = false;
                        }
                        proof {
                            if !ok {
                                let c0 = choose|c0: int|
                                    MemoSnap::children_of(members@[k as int]).contains(c0) && !(
                                    assigned@[c0] && (rank@[c0] as int) < round as int);
                            }
                        }
                        k = k + 1;
                    }
                    if ready {
                        let ghost before = assigned@;
                        assigned.set(i, true);
                        rank.set(i, round);
                        proof {
                            lemma_count_false_update(
                                before,
                                assigned@,
                                i as int,
                                n as int,
                            );
                        }
                        progress = true;
                    }
                }
                i = i + 1;
            }
            if round < usize::MAX {
                round = round + 1;
            }
        }
        let mut all: bool = true;
        let mut i: usize = 0;
        while i < n
            invariant
                i <= n,
                assigned@.len() == n,
                all == forall|x: int| 0 <= x < i ==> #[trigger] assigned@[x],
            decreases n - i,
        {
            if !assigned[i] {
                all = false;
            }
            i = i + 1;
        }
        proof {
            if all {
                let w = Seq::new(n as nat, |x: int| rank@[x] as nat);
                assert forall|i2: int, k: int, c: int|
                    0 <= i2 < self@.n() && 0 <= k < self@.groups[i2].len()
                        && #[trigger] MemoSnap::children_of(self@.groups[i2][k]).contains(c)
                        implies w[c] < w[i2] by {
                    assert(assigned@[i2]);
                    assert(self@.node_valid(self@.groups[i2][k]));
                }
                assert(rank_ok(self@, w));
            }
        }
        all
    }
}

} // verus!
