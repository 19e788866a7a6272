use relmemo::binding::add_binding_to_memo;
use relmemo::binding::join_assoc;
use relmemo::binding::join_commute;
use relmemo::binding::BindJoin;
use relmemo::binding::BindRelNode;
use relmemo::explore::explore;
use relmemo::memo::memorize_rel;
use relmemo::memo::Memo;
use relmemo::rel::column_ref_pred;
use relmemo::rel::eq_pred;
use relmemo::rel::join;
use relmemo::rel::scan;
use relmemo::rel::TableId;
use std::sync::Arc;

fn group_ref(g: relmemo::memo::GroupId) -> Arc<BindRelNode> {
    Arc::new(BindRelNode::Group(g))
}

#[test]
fn bind_join_commute_swaps_sides() {
    let mut memo = Memo::new();
    let a = memorize_rel(&mut memo, Arc::new(scan(TableId(0))));
    let b = memorize_rel(&mut memo, Arc::new(scan(TableId(1))));
    let c = memorize_rel(
        &mut memo,
        Arc::new(eq_pred(column_ref_pred(0), column_ref_pred(1))),
    );
    let binding = Arc::new(BindRelNode::Join(BindJoin {
        left: group_ref(a),
        right: group_ref(b),
        cond: group_ref(c),
    }));
    let swapped = join_commute(binding).unwrap();
    match swapped.as_ref() {
        BindRelNode::Join(j) => {
            assert_eq!(j.left.as_ref(), &BindRelNode::Group(b));
            assert_eq!(j.right.as_ref(), &BindRelNode::Group(a));
            assert_eq!(j.cond.as_ref(), &BindRelNode::Group(c));
        }
        _ => panic!("expected a join binding"),
    }
    assert!(join_commute(group_ref(a)).is_none());
    assert!(join_assoc(group_ref(a)).is_none());
}

#[test]
fn add_binding_merges_alternative_into_group() {
    let mut memo = Memo::new();
    let plan = join(
        scan(TableId(0)),
        scan(TableId(1)),
        eq_pred(column_ref_pred(1), column_ref_pred(3)),
    );
    let g = memorize_rel(&mut memo, Arc::new(plan));
    let a = memo.get_group(relmemo::memo::MemoRelNode::Scan(relmemo::rel::Scan {
        table: TableId(0),
    }));
    let b = memo.get_group(relmemo::memo::MemoRelNode::Scan(relmemo::rel::Scan {
        table: TableId(1),
    }));
    let c = memo.get_group(relmemo::memo::MemoRelNode::Eq(relmemo::memo::MemoEqPred {
        left: memo
            .get_group(relmemo::memo::MemoRelNode::ColumnRef(
                relmemo::rel::ColumnRefPred { column: 1 },
            ))
            .unwrap(),
        right: memo
            .get_group(relmemo::memo::MemoRelNode::ColumnRef(
                relmemo::rel::ColumnRefPred { column: 3 },
            ))
            .unwrap(),
    }));
    let commuted = Arc::new(BindRelNode::Join(BindJoin {
        left: group_ref(b.unwrap()),
        right: group_ref(a.unwrap()),
        cond: group_ref(c.unwrap()),
    }));
    let before = memo.get_all_exprs_in_group(g).len();
    let r = add_binding_to_memo(&mut memo, g, commuted);
    assert_eq!(memo.find(g), r);
    assert_eq!(memo.get_all_exprs_in_group(r).len(), before + 1);
}

#[test]
fn budget_bounds_exploration() {
    let mut memo = Memo::new();
    let plan = join(
        join(
            scan(TableId(0)),
            scan(TableId(1)),
            eq_pred(column_ref_pred(0), column_ref_pred(2)),
        ),
        scan(TableId(2)),
        eq_pred(column_ref_pred(1), column_ref_pred(4)),
    );
    memorize_rel(&mut memo, Arc::new(plan));
    let passes = explore(&mut memo, 3);
    assert!(passes <= 3);
    // reaching the cap is an expected stopping condition, not a failure
    let more = explore(&mut memo, 1);
    assert!(more <= 1);
}

#[test]
fn exploration_discovers_commuted_join() {
    let mut memo = Memo::new();
    let plan = join(
        scan(TableId(0)),
        scan(TableId(1)),
        eq_pred(column_ref_pred(0), column_ref_pred(2)),
    );
    let g = memorize_rel(&mut memo, Arc::new(plan));
    assert_eq!(memo.get_all_exprs_in_group(g).len(), 1);
    explore(&mut memo, 1);
    // the commuted alternative now shares the group
    assert!(memo.get_all_exprs_in_group(g).len() >= 2);
}

#[test]
fn exploration_discovers_rotated_join() {
    let mut memo = Memo::new();
    let nested = join(
        join(
            scan(TableId(0)),
            scan(TableId(1)),
            eq_pred(column_ref_pred(0), column_ref_pred(2)),
        ),
        scan(TableId(2)),
        eq_pred(column_ref_pred(1), column_ref_pred(4)),
    );
    let g = memorize_rel(&mut memo, Arc::new(nested));
    assert_eq!(memo.get_all_exprs_in_group(g).len(), 1);
    explore(&mut memo, 1);
    // the left-rotated (and commuted) alternatives now share the group
    assert!(memo.get_all_exprs_in_group(g).len() >= 3);
}

#[test]
fn extraction_available_after_exploration() {
    let mut memo = Memo::new();
    let plan = join(
        scan(TableId(0)),
        scan(TableId(1)),
        eq_pred(column_ref_pred(0), column_ref_pred(2)),
    );
    let g = memorize_rel(&mut memo, Arc::new(plan.clone()));
    explore(&mut memo, 2);
    // the memo has been merged; the runtime check certifies acyclicity,
    // which is extraction's precondition
    assert!(memo.check_acyclic());
    // the first (oldest) member of the class is still the original plan
    assert_eq!(memo.generate_one_binding(g).as_ref(), &plan);
}
