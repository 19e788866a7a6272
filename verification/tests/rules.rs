use relmemo::rel::apply_rule_bottom_up;
use relmemo::rel::column_ref_pred;
use relmemo::rel::const_pred;
use relmemo::rel::eq_pred;
use relmemo::rel::filter;
use relmemo::rel::join;
use relmemo::rel::join_assoc;
use relmemo::rel::join_commute;
use relmemo::rel::plan;
use relmemo::rel::scan;
use relmemo::rel::RelNode;
use relmemo::rel::TableId;
use std::sync::Arc;

#[test]
fn test_rule_apply() {
    let initial = join(
        scan(TableId(0)),
        scan(TableId(1)),
        eq_pred(column_ref_pred(1), column_ref_pred(3)),
    );
    let expected = join(
        scan(TableId(1)),
        scan(TableId(0)),
        // the predicate is unchanged: commuting does not remap columns
        eq_pred(column_ref_pred(1), column_ref_pred(3)),
    );
    assert_eq!(join_commute(Arc::new(initial)).unwrap().as_ref(), &expected);
}

#[test]
fn test_bottom_up() {
    let initial = join(
        scan(TableId(0)),
        join(
            scan(TableId(1)),
            scan(TableId(2)),
            eq_pred(column_ref_pred(1), column_ref_pred(3)),
        ),
        eq_pred(column_ref_pred(1), column_ref_pred(3)),
    );
    let expected = join(
        join(
            scan(TableId(2)),
            scan(TableId(1)),
            eq_pred(column_ref_pred(1), column_ref_pred(3)),
        ),
        scan(TableId(0)),
        eq_pred(column_ref_pred(1), column_ref_pred(3)),
    );
    assert_eq!(
        apply_rule_bottom_up(Arc::new(initial), join_commute).as_ref(),
        &expected
    );
}

#[test]
fn join_assoc_rotates_nested_join() {
    let x = scan(TableId(0));
    let y = scan(TableId(1));
    let z = scan(TableId(2));
    let c1 = eq_pred(column_ref_pred(0), column_ref_pred(1));
    let c2 = eq_pred(column_ref_pred(2), column_ref_pred(3));
    let nested = join(
        join(x.clone(), y.clone(), c1.clone()),
        z.clone(),
        c2.clone(),
    );
    let expected = join(x, join(y, z, c2), c1);
    assert_eq!(join_assoc(Arc::new(nested)).unwrap().as_ref(), &expected);
}

#[test]
fn join_assoc_declines_flat_join() {
    let flat = join(
        scan(TableId(0)),
        scan(TableId(1)),
        eq_pred(column_ref_pred(0), column_ref_pred(1)),
    );
    assert!(join_assoc(Arc::new(flat)).is_none());
    assert!(join_assoc(Arc::new(const_pred(7))).is_none());
}

#[test]
fn join_commute_declines_non_join() {
    assert!(join_commute(Arc::new(filter(
        scan(TableId(0)),
        const_pred(1)
    )))
    .is_none());
}

#[test]
fn plan_is_filter_over_join() {
    let p = plan();
    match p {
        RelNode::Filter(f) => match f.child.as_ref() {
            RelNode::Join(_) => {}
            _ => panic!("expected a join under the filter"),
        },
        _ => panic!("expected a filter at the root"),
    }
}
