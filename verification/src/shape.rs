//! Per-operator node shapes, generic in what a child reference is: the
//! same six shapes serve the concrete tree (children are sub-trees), the
//! memo form (children are group handles), and the binding form (children
//! are bindings or wildcard group references).

use core::marker::PhantomData;
use std::sync::Arc;
use vstd::prelude::*;

verus! {

/// Identifier of a base table.
#[derive(Debug, Clone, Copy, PartialEq, Eq, Hash, Structural)]
pub struct TableId(pub usize);

/// A table scan; it has no children in any universe.
pub struct Scan<T> {
    pub table: TableId,
    pub _marker: PhantomData<T>,
}

impl<T> Scan<T> {
    pub fn children(&self) -> (r: [&T; 0])
        ensures
            r@.len() == 0,
    {
        []
    }

    pub fn new(table: TableId) -> (r: Self)
        ensures
            r.table == table,
    {
        Self { table, _marker: PhantomData }
    }
}

/// A join: left input, right input, join condition.
pub struct Join<T> {
    pub children: [T; 3],
}

impl<T> Join<T> {
    pub fn children(&self) -> (r: &[T; 3])
        ensures
            r == &self.children,
    {
        &self.children
    }

    pub fn new(left: T, right: T, cond: T) -> (r: Self)
        ensures
            r.children@[0] == left,
            r.children@[1] == right,
            r.children@[2] == cond,
    {
        Self { children: [left, right, cond] }
    }

    pub fn left(&self) -> (r: &T)
        ensures
            *r == self.children@[0],
    {
        &self.children[0]
    }

    pub fn right(&self) -> (r: &T)
        ensures
            *r == self.children@[1],
    {
        &self.children[1]
    }

    pub fn cond(&self) -> (r: &T)
        ensures
            *r == self.children@[2],
    {
        &self.children[2]
    }
}

/// A filter: input and predicate.
pub struct Filter<T> {
    pub children: [T; 2],
}

impl<T> Filter<T> {
    pub fn children(&self) -> (r: &[T; 2])
        ensures
            r == &self.children,
    {
        &self.children
    }

    pub fn new(child: T, predicate: T) -> (r: Self)
        ensures
            r.children@[0] == child,
            r.children@[1] == predicate,
    {
        Self { children: [child, predicate] }
    }

    pub fn child(&self) -> (r: &T)
        ensures
            *r == self.children@[0],
    {
        &self.children[0]
    }

    pub fn predicate(&self) -> (r: &T)
        ensures
            *r == self.children@[1],
    {
        &self.children[1]
    }
}

/// An equality predicate over two scalar children.
pub struct EqPred<T> {
    pub children: [T; 2],
}

impl<T> EqPred<T> {
    pub fn children(&self) -> (r: &[T; 2])
        ensures
            r == &self.children,
    {
        &self.children
    }

    pub fn new(left: T, right: T) -> (r: Self)
        ensures
            r.children@[0] == left,
            r.children@[1] == right,
    {
        Self { children: [left, right] }
    }

    pub fn left(&self) -> (r: &T)
        ensures
            *r == self.children@[0],
    {
        &self.children[0]
    }

    pub fn right(&self) -> (r: &T)
        ensures
            *r == self.children@[1],
    {
        &self.children[1]
    }
}

/// A column reference; childless in any universe.
pub struct ColumnRefPred<T> {
    pub column: usize,
    pub children: [T; 0],
}

impl<T> ColumnRefPred<T> {
    pub fn children(&self) -> (r: &[T; 0])
        ensures
            r@.len() == 0,
    {
        &self.children
    }

    pub fn new(column: usize) -> (r: Self)
        ensures
            r.column == column,
    {
        Self { column, children: [] }
    }

    pub fn column(&self) -> (r: usize)
        ensures
            r == self.column,
    {
        self.column
    }
}

/// An integer literal; childless in any universe.
pub struct ConstPred<T> {
    pub value: i64,
    pub children: [T; 0],
}

impl<T> ConstPred<T> {
    pub fn children(&self) -> (r: &[T; 0])
        ensures
            r@.len() == 0,
    {
        &self.children
    }

    pub fn new(value: i64) -> (r: Self)
        ensures
            r.value == value,
    {
        Self { value, children: [] }
    }

    pub fn value(&self) -> (r: i64)
        ensures
            r == self.value,
    {
        self.value
    }
}

/// The closed set of shapes, with the child-reference type left open.
enum RelNodeInner<T> {
    Scan(Scan<T>),
    Join(Join<T>),
    Filter(Filter<T>),
    Eq(EqPred<T>),
    ColumnRef(ColumnRefPred<T>),
    Const(ConstPred<T>),
}

/// A stable, opaque handle of an equivalence group.
#[derive(Debug, Clone, Copy, PartialEq, Eq, Hash, Structural)]
pub struct GroupId(pub usize);

/// A memo node: a shape whose children are group handles.
pub struct RelMemoNode(RelNodeInner<GroupId>);

/// A binding node: concrete structure above, wildcard group references
/// below.
pub enum RelBindingNode {
    Node(RelNodeInner<Arc<Self>>),
    Group(GroupId),
}

} // verus!
