//! The exploration driver: repeatedly offers every member of every group to
//! the rewrite rules, registering each discovered alternative, until a full
//! sweep changes nothing or an iteration budget is exhausted.  The rules
//! alone are closed under rewriting, so the budget is what bounds the
//! search; reaching it is an expected stopping condition, not a failure.

use vstd::prelude::*;

use crate::binding::apply_join_assoc_rules_on_node;
use crate::binding::apply_join_commute_rules_on_node;
use crate::binding::commuted_in_class;
use crate::binding::lemma_cic_history;
use crate::binding::lemma_commuted_canon_shift;
use crate::memo::lemma_history_refl;
use crate::memo::lemma_history_trans;
use crate::memo::preserves_history;
use crate::memo::GroupId;
use crate::memo::Memo;
use crate::memo::MemoRelNode;
use crate::memo::MemoSnap;

verus! {

/// Every join member a group had in state `o` is valid in the larger state
/// `s` as well.
proof fn lemma_member_valid_later(s: MemoSnap, o: MemoSnap, e: MemoRelNode, i: int, k: int)
    requires
        o.wf(),
        o.canonical(i),
        0 <= k < o.groups[i].len(),
        e == o.groups[i][k],
        o.n() <= s.n(),
    ensures
        s.node_valid(e),
{
    assert(o.node_valid(e));
    assert forall|c: int| MemoSnap::children_of(e).contains(c) implies 0 <= c < s.n() by {
        assert(0 <= c < o.n());
    }
}

/// One full sweep: every member of every group that existed when the sweep
/// started is offered to both join rules; afterwards each join member
/// present at entry has its commuted form registered in its class.
fn explore_pass(memo: &mut Memo)
    requires
        old(memo)@.wf(),
    ensures
        final(memo)@.wf(),
        final(memo)@.n() >= old(memo)@.n(),
        preserves_history(final(memo)@, old(memo)@),
        forall|i: int, k: int|
            old(memo)@.canonical(i) && 0 <= k < old(memo)@.groups[i].len() ==> (
            #[trigger] old(memo)@.groups[i][k] matches MemoRelNode::Join(mj)
                ==> commuted_in_class(final(memo)@, mj, i)),
{
    let n0 = memo.groups_len();
    proof {
        lemma_history_refl(old(memo)@);
    }
    let mut i: usize = 0;
    while i < n0
        invariant
            memo@.wf(),
            n0 == old(memo)@.n(),
            n0 <= memo@.n(),
            old(memo)@.wf(),
            preserves_history(memo@, old(memo)@),
            forall|i2: int, k: int|
                0 <= i2 < i && old(memo)@.canonical(i2) && 0 <= k < old(memo)@.groups[i2].len()
                    ==> (#[trigger] old(memo)@.groups[i2][k] matches MemoRelNode::Join(mj)
                    ==> commuted_in_class(memo@, mj, i2)),
        decreases n0 - i,
    {
        let ghost civ = memo@;
        proof {
            lemma_history_refl(civ);
        }
        let members = memo.get_all_exprs_in_group(GroupId(i));
        proof {
            let s = memo@;
            crate::memo::lemma_find_canonical(s, i as int);
            assert forall|k: int, c: int|
                0 <= k < members@.len() && #[trigger] MemoSnap::children_of(members@[k]).contains(
                    c,
                ) implies 0 <= c < civ.n() by {
                let g = s.find(i as int);
                assert(s.node_valid(s.groups[g][k]));
            }
        }
        let mut k: usize = 0;
        while k < members.len()
            invariant
                memo@.wf(),
                civ.wf(),
                i < n0,
                n0 == old(memo)@.n(),
                n0 <= civ.n() <= memo@.n(),
                old(memo)@.wf(),
                preserves_history(memo@, old(memo)@),
                preserves_history(memo@, civ),
                members@ == civ.groups[civ.find(i as int)],
                forall|k2: int, c: int|
                    0 <= k2 < members@.len() && #[trigger] MemoSnap::children_of(
                        members@[k2],
                    ).contains(c) ==> 0 <= c < civ.n(),
                forall|i2: int, k2: int|
                    0 <= i2 < i && old(memo)@.canonical(i2) && 0 <= k2 < old(memo)@.groups[
                        i2
                    ].len() ==> (#[trigger] old(memo)@.groups[i2][k2] matches MemoRelNode::Join(mj)
                        ==> commuted_in_class(memo@, mj, i2)),
                forall|k2: int|
                    0 <= k2 < k ==> (#[trigger] members@[k2] matches MemoRelNode::Join(mj)
                        ==> commuted_in_class(memo@, mj, i as int)),
            decreases members@.len() - k,
        {
            let expr = members[k];
            let ghost s_a = memo@;
            apply_join_commute_rules_on_node(memo, GroupId(i), expr);
            let ghost s_b = memo@;
            apply_join_assoc_rules_on_node(memo, GroupId(i), expr);
            proof {
                let t = memo@;
                lemma_history_trans(t, s_b, s_a);
                lemma_history_trans(t, s_a, civ);
                lemma_history_trans(t, s_a, old(memo)@);
                assert forall|i2: int, k2: int|
                    0 <= i2 < i && old(memo)@.canonical(i2) && 0 <= k2 < old(memo)@.groups[
                        i2
                    ].len() implies (#[trigger] old(memo)@.groups[i2][k2] matches
                    MemoRelNode::Join(mj) ==> commuted_in_class(t, mj, i2)) by {
                    match old(memo)@.groups[i2][k2] {
                        MemoRelNode::Join(mjp) => {
                            lemma_member_valid_later(
                                s_a,
                                old(memo)@,
                                old(memo)@.groups[i2][k2],
                                i2,
                                k2,
                            );
                            lemma_cic_history(t, s_a, mjp, i2);
                        },
                        _ => {},
                    }
                }
                assert forall|k2: int| 0 <= k2 < k + 1 implies (#[trigger] members@[k2] matches
                    MemoRelNode::Join(mj) ==> commuted_in_class(t, mj, i as int)) by {
                    match members@[k2] {
                        MemoRelNode::Join(mjp) => {
                            crate::memo::lemma_find_canonical(civ, i as int);
                            crate::memo::lemma_find_le(civ, i as int);
                            lemma_member_valid_later(
                                s_a,
                                civ,
                                members@[k2],
                                civ.find(i as int),
                                k2,
                            );
                            if k2 < k {
                                lemma_cic_history(t, s_a, mjp, i as int);
                            } else {
                                lemma_member_valid_later(
                                    s_b,
                                    civ,
                                    members@[k2],
                                    civ.find(i as int),
                                    k2,
                                );
                                lemma_cic_history(t, s_b, mjp, i as int);
                            }
                        },
                        _ => {},
                    }
                }
            }
            k = k + 1;
        }
        proof {
            let t = memo@;
            assert forall|i2: int, k2: int|
                0 <= i2 < i + 1 && old(memo)@.canonical(i2) && 0 <= k2 < old(memo)@.groups[
                    i2
                ].len() implies (#[trigger] old(memo)@.groups[i2][k2] matches MemoRelNode::Join(mj)
                ==> commuted_in_class(t, mj, i2)) by {
                if i2 == i as int {
                    match old(memo)@.groups[i2][k2] {
                        MemoRelNode::Join(mj) => {
                            let e = old(memo)@.groups[i2][k2];
                            assert(civ.groups[civ.find(i2)].contains(civ.canon_node(e)));
                            let k3 = choose|k3: int|
                                0 <= k3 < members@.len() && members@[k3] == civ.canon_node(e);
                            assert(members@[k3] matches MemoRelNode::Join(mj0p)
                                && commuted_in_class(t, mj0p, i as int));
                            match civ.canon_node(e) {
                                MemoRelNode::Join(mj0) => {
                                    assert(old(memo)@.node_valid(e));
                                    assert(MemoSnap::children_of(e) =~= seq![
                                        mj.left.0 as int,
                                        mj.right.0 as int,
                                        mj.cond.0 as int,
                                    ]);
                                    assert(MemoSnap::children_of(e).contains(mj.left.0 as int));
                                    assert(MemoSnap::children_of(e).contains(mj.right.0 as int));
                                    assert(MemoSnap::children_of(e).contains(mj.cond.0 as int));
                                    crate::memo::lemma_find_le(civ, mj.left.0 as int);
                                    crate::memo::lemma_find_le(civ, mj.right.0 as int);
                                    crate::memo::lemma_find_le(civ, mj.cond.0 as int);
                                    lemma_commuted_canon_shift(t, civ, mj, mj0, i as int);
                                },
                                _ => {},
                            }
                        },
                        _ => {},
                    }
                }
            }
        }
        i = i + 1;
    }
}

/// Explores the memo under an iteration budget: sweeps until a sweep
/// changes neither the number of live groups nor the number of stored
/// members, or until `budget` sweeps have run.  Returns how many sweeps
/// ran; exhausting the budget is a normal outcome, not an error.  With any
/// budget at all, every join member present at entry ends up with its
/// commuted form registered in its class, and each sweep registers the
/// rotations the associativity rule's contract states.
pub fn explore(memo: &mut Memo, budget: usize) -> (passes: usize)
    requires
        old(memo)@.wf(),
    ensures
        final(memo)@.wf(),
        passes <= budget,
        preserves_history(final(memo)@, old(memo)@),
        budget > 0 ==> forall|i: int, k: int|
            old(memo)@.canonical(i) && 0 <= k < old(memo)@.groups[i].len() ==> (
            #[trigger] old(memo)@.groups[i][k] matches MemoRelNode::Join(mj)
                ==> commuted_in_class(final(memo)@, mj, i)),
{
    let mut passes: usize = 0;
    proof {
        lemma_history_refl(old(memo)@);
    }
    while passes < budget
        invariant
            memo@.wf(),
            passes <= budget,
            old(memo)@.wf(),
            preserves_history(memo@, old(memo)@),
            passes > 0 ==> forall|i: int, k: int|
                old(memo)@.canonical(i) && 0 <= k < old(memo)@.groups[i].len() ==> (
                #[trigger] old(memo)@.groups[i][k] matches MemoRelNode::Join(mj)
                    ==> commuted_in_class(memo@, mj, i)),
        decreases budget - passes,
    {
        let groups_before = memo.num_groups();
        let members_before = memo.total_members();
        let ghost s_p = memo@;
        explore_pass(memo);
        proof {
            let t = memo@;
            lemma_history_trans(t, s_p, old(memo)@);
            assert forall|i: int, k: int|
                old(memo)@.canonical(i) && 0 <= k < old(memo)@.groups[i].len() implies (
            #[trigger] old(memo)@.groups[i][k] matches MemoRelNode::Join(mj) ==> commuted_in_class(
                t,
                mj,
                i,
            )) by {
                match old(memo)@.groups[i][k] {
                    MemoRelNode::Join(mjp) => {
                        let e = old(memo)@.groups[i][k];
                        assert(s_p.groups[s_p.find(i)].contains(s_p.canon_node(e)));
                        crate::memo::lemma_find_canonical(s_p, i);
                        crate::memo::lemma_find_le(s_p, i);
                        let k3 = choose|k3: int|
                            0 <= k3 < s_p.groups[s_p.find(i)].len() && s_p.groups[s_p.find(i)][k3]
                                == s_p.canon_node(e);
                        match s_p.canon_node(e) {
                            MemoRelNode::Join(mj0) => {
                                assert(commuted_in_class(t, mj0, s_p.find(i)));
                                assert(old(memo)@.node_valid(e));
                                assert(MemoSnap::children_of(e) =~= seq![
                                    mjp.left.0 as int,
                                    mjp.right.0 as int,
                                    mjp.cond.0 as int,
                                ]);
                                assert(MemoSnap::children_of(e).contains(mjp.left.0 as int));
                                assert(MemoSnap::children_of(e).contains(mjp.right.0 as int));
                                assert(MemoSnap::children_of(e).contains(mjp.cond.0 as int));
                                crate::memo::lemma_find_le(s_p, mjp.left.0 as int);
                                crate::memo::lemma_find_le(s_p, mjp.right.0 as int);
                                crate::memo::lemma_find_le(s_p, mjp.cond.0 as int);
                                lemma_commuted_canon_shift(t, s_p, mjp, mj0, s_p.find(i));
                                assert(t.find(s_p.find(i)) == t.find(i));
                            },
                            _ => {},
                        }
                    },
                    _ => {},
                }
            }
        }
        passes = passes + 1;
        if memo.num_groups() == groups_before && memo.total_members() == members_before {
            return passes;
        }
    }
    passes
}

} // verus!
