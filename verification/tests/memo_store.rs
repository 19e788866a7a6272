use relmemo::memo::memorize_rel;
use relmemo::memo::GroupId;
use relmemo::memo::Memo;
use relmemo::memo::MemoEqPred;
use relmemo::memo::MemoJoin;
use relmemo::memo::MemoRelNode;
use relmemo::rel::column_ref_pred;
use relmemo::rel::const_pred;
use relmemo::rel::eq_pred;
use relmemo::rel::filter;
use relmemo::rel::join;
use relmemo::rel::scan;
use relmemo::rel::Scan;
use relmemo::rel::TableId;
use std::sync::Arc;

#[test]
fn test_memorize_rel() {
    let mut memo = Memo::new();

    let rel = join(
        // Do a self-join
        filter(scan(TableId(0)), eq_pred(column_ref_pred(1), const_pred(3))),
        filter(scan(TableId(0)), eq_pred(column_ref_pred(1), const_pred(3))),
        eq_pred(column_ref_pred(1), column_ref_pred(3)),
    );

    let group_id = memorize_rel(&mut memo, Arc::new(rel.clone()));

    assert_eq!(memo.num_groups(), 8);
    assert_eq!(memo.generate_one_binding(group_id).as_ref(), &rel);
}

#[test]
fn memorize_is_idempotent() {
    let mut memo = Memo::new();
    let rel = filter(scan(TableId(4)), eq_pred(column_ref_pred(0), const_pred(9)));
    let first = memorize_rel(&mut memo, Arc::new(rel.clone()));
    let count = memo.num_groups();
    let second = memorize_rel(&mut memo, Arc::new(rel));
    assert_eq!(first, second);
    assert_eq!(memo.num_groups(), count);
}

#[test]
fn round_trip_distinct_subtrees() {
    let mut memo = Memo::new();
    let rel = join(
        scan(TableId(0)),
        scan(TableId(1)),
        eq_pred(column_ref_pred(1), const_pred(42)),
    );
    let g = memorize_rel(&mut memo, Arc::new(rel.clone()));
    assert_eq!(memo.generate_one_binding(g).as_ref(), &rel);
}

fn two_scans() -> (Memo, GroupId, GroupId) {
    let mut memo = Memo::new();
    let a = memorize_rel(&mut memo, Arc::new(scan(TableId(0))));
    let b = memorize_rel(&mut memo, Arc::new(scan(TableId(1))));
    (memo, a, b)
}

#[test]
fn merge_is_idempotent() {
    let (mut memo, a, _) = two_scans();
    let count = memo.num_groups();
    let r = memo.merge_group(a, a);
    assert_eq!(r, memo.find(a));
    assert_eq!(memo.num_groups(), count);
}

#[test]
fn merge_is_commutative() {
    let (mut memo1, a1, b1) = two_scans();
    let (mut memo2, a2, b2) = two_scans();
    let r1 = memo1.merge_group(a1, b1);
    let r2 = memo2.merge_group(b2, a2);
    assert_eq!(r1, r2);
    assert_eq!(
        memo1.get_all_exprs_in_group(r1),
        memo2.get_all_exprs_in_group(r2)
    );
    assert_eq!(memo1.num_groups(), memo2.num_groups());
}

#[test]
fn congruence_propagates_to_parents() {
    let mut memo = Memo::new();
    let cond = eq_pred(column_ref_pred(1), column_ref_pred(3));
    let j1 = join(scan(TableId(0)), scan(TableId(1)), cond.clone());
    let j2 = join(scan(TableId(0)), scan(TableId(2)), cond.clone());
    let g1 = memorize_rel(&mut memo, Arc::new(j1));
    let g2 = memorize_rel(&mut memo, Arc::new(j2));
    assert_ne!(memo.find(g1), memo.find(g2));
    // scan0, scan1, scan2, col1, col3, eq, join1, join2
    assert_eq!(memo.num_groups(), 8);
    let s1 = memo.get_group(MemoRelNode::Scan(Scan { table: TableId(1) })).unwrap();
    let s2 = memo.get_group(MemoRelNode::Scan(Scan { table: TableId(2) })).unwrap();
    memo.merge_group(s1, s2);
    // merging the two scans must also merge the two joins over them
    assert_eq!(memo.find(g1), memo.find(g2));
    assert_eq!(memo.num_groups(), 6);
}

#[test]
fn add_expr_to_group_rejects_self_reference() {
    let mut memo = Memo::new();
    let g = memorize_rel(&mut memo, Arc::new(scan(TableId(0))));
    let count = memo.num_groups();
    let members = memo.get_all_exprs_in_group(g);
    memo.add_expr_to_group(g, MemoRelNode::Join(MemoJoin { left: g, right: g, cond: g }));
    assert_eq!(memo.num_groups(), count);
    assert_eq!(memo.get_all_exprs_in_group(g), members);
}

#[test]
fn add_expr_to_group_registers_alternative() {
    let mut memo = Memo::new();
    let a = memorize_rel(&mut memo, Arc::new(scan(TableId(0))));
    let b = memorize_rel(&mut memo, Arc::new(scan(TableId(1))));
    let g = memorize_rel(
        &mut memo,
        Arc::new(eq_pred(column_ref_pred(0), column_ref_pred(1))),
    );
    let alt = MemoRelNode::Eq(MemoEqPred { left: b, right: a });
    memo.add_expr_to_group(g, alt);
    let members = memo.get_all_exprs_in_group(g);
    assert_eq!(members.len(), 2);
    assert!(members.contains(&alt));
}

#[test]
fn fresh_memo_is_empty() {
    let memo = Memo::new();
    assert_eq!(memo.num_groups(), 0);
    assert_eq!(memo.groups_len(), 0);
}
