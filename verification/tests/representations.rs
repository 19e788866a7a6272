use relmemo::rel;
use relmemo::repr;
use relmemo::shape;
use std::sync::Arc;

#[test]
fn repr_wrappers_recover_payloads() {
    let node = Arc::new(repr::scan(repr::TableId(7)));
    let scan = repr::Scan::try_from_relnode(node.clone()).unwrap();
    assert_eq!(scan.table(), repr::TableId(7));
    assert!(repr::Join::try_from_relnode(node).is_none());

    let j = Arc::new(repr::join(
        repr::scan(repr::TableId(0)),
        repr::scan(repr::TableId(1)),
        repr::eq_pred(repr::column_ref_pred(1), repr::const_pred(3)),
    ));
    let join = repr::Join::try_from_relnode(j).unwrap();
    let left = repr::Scan::try_from_relnode(join.left()).unwrap();
    assert_eq!(left.table(), repr::TableId(0));
    let cond = repr::Eq::try_from_relnode(join.cond()).unwrap();
    let lhs = repr::ColumnRef::try_from_relnode(cond.left()).unwrap();
    assert_eq!(lhs.idx(), 1);
    let rhs = repr::Const::try_from_relnode(cond.right()).unwrap();
    assert_eq!(rhs.value(), 3);
}

#[test]
fn repr_plan_has_expected_shape() {
    let p = Arc::new(repr::plan());
    let filter = repr::Filter::try_from_relnode(p).unwrap();
    let join = repr::Join::try_from_relnode(filter.child()).unwrap();
    let right = repr::Scan::try_from_relnode(join.right()).unwrap();
    assert_eq!(right.table(), repr::TableId(1));
}

#[test]
fn shape_accessors_follow_positions() {
    let j: shape::Join<u32> = shape::Join::new(10, 20, 30);
    assert_eq!(*j.left(), 10);
    assert_eq!(*j.right(), 20);
    assert_eq!(*j.cond(), 30);
    assert_eq!(j.children().len(), 3);

    let f: shape::Filter<u32> = shape::Filter::new(1, 2);
    assert_eq!(*f.child(), 1);
    assert_eq!(*f.predicate(), 2);

    let e: shape::EqPred<u32> = shape::EqPred::new(5, 6);
    assert_eq!(*e.left(), 5);
    assert_eq!(*e.right(), 6);

    let s: shape::Scan<u32> = shape::Scan::new(shape::TableId(3));
    assert_eq!(s.table, shape::TableId(3));
    assert_eq!(s.children().len(), 0);

    let c: shape::ColumnRefPred<u32> = shape::ColumnRefPred::new(4);
    assert_eq!(c.column(), 4);

    let k: shape::ConstPred<u32> = shape::ConstPred::new(-9);
    assert_eq!(k.value(), -9);
}

#[test]
fn rel_children_round_trip() {
    let j = rel::join(
        rel::scan(rel::TableId(0)),
        rel::scan(rel::TableId(1)),
        rel::eq_pred(rel::column_ref_pred(1), rel::column_ref_pred(3)),
    );
    let kids = j.children();
    assert_eq!(kids.len(), 3);
    let rebuilt = j.clone_with_children(kids);
    assert_eq!(rebuilt, j);
}
