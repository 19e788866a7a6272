//! A uniform representation of the expression tree: one node type carrying
//! an operator tag, a child list, and a scalar attribute, with thin typed
//! wrappers that recover per-operator accessors.

use std::sync::Arc;
use vstd::prelude::*;

verus! {

/// Identifier of a base table.
#[derive(Debug, Clone, Copy, PartialEq, Eq, Hash, Structural)]
pub struct TableId(pub usize);

/// The operator tag of a uniform node.
#[derive(Debug, Clone, Copy, PartialEq, Eq, Structural)]
pub enum RelNodeType {
    Scan,
    Filter,
    Join,
    Eq,
    ColumnRef,
    Const,
}

/// The scalar attribute of a uniform node; operators without one carry
/// `NoValue`.
#[derive(Debug, Clone, Copy, PartialEq, Eq, Structural)]
pub enum RelAttrType {
    TableId(TableId),
    ColumnRef(usize),
    Const(i64),
    NoValue,
}

/// A uniform expression node: tag, ordered children, scalar attribute.
#[derive(Debug, Clone)]
pub struct RelNode {
    pub typ: RelNodeType,
    pub children: Vec<Arc<RelNode>>,
    pub data: Arc<RelAttrType>,
}

pub fn scan(table: TableId) -> (r: RelNode)
    ensures
        r.typ == RelNodeType::Scan,
        r.children@.len() == 0,
        *r.data == RelAttrType::TableId(table),
{
    RelNode {
        typ: RelNodeType::Scan,
        children: Vec::new(),
        data: Arc::new(RelAttrType::TableId(table)),
    }
}

pub fn filter(child: RelNode, cond: RelNode) -> (r: RelNode)
    ensures
        r.typ == RelNodeType::Filter,
        r.children@.len() == 2,
        *r.children@[0] == child,
        *r.children@[1] == cond,
        *r.data == RelAttrType::NoValue,
{
    let mut children: Vec<Arc<RelNode>> = Vec::new();
    children.push(Arc::new(child));
    children.push(Arc::new(cond));
    RelNode { typ: RelNodeType::Filter, children, data: Arc::new(RelAttrType::NoValue) }
}

pub fn join(left: RelNode, right: RelNode, cond: RelNode) -> (r: RelNode)
    ensures
        r.typ == RelNodeType::Join,
        r.children@.len() == 3,
        *r.children@[0] == left,
        *r.children@[1] == right,
        *r.children@[2] == cond,
        *r.data == RelAttrType::NoValue,
{
    let mut children: Vec<Arc<RelNode>> = Vec::new();
    children.push(Arc::new(left));
    children.push(Arc::new(right));
    children.push(Arc::new(cond));
    RelNode { typ: RelNodeType::Join, children, data: Arc::new(RelAttrType::NoValue) }
}

pub fn eq_pred(left: RelNode, right: RelNode) -> (r: RelNode)
    ensures
        r.typ == RelNodeType::Eq,
        r.children@.len() == 2,
        *r.children@[0] == left,
        *r.children@[1] == right,
        *r.data == RelAttrType::NoValue,
{
    let mut children: Vec<Arc<RelNode>> = Vec::new();
    children.push(Arc::new(left));
    children.push(Arc::new(right));
    RelNode { typ: RelNodeType::Eq, children, data: Arc::new(RelAttrType::NoValue) }
}

pub fn column_ref_pred(idx: usize) -> (r: RelNode)
    ensures
        r.typ == RelNodeType::ColumnRef,
        r.children@.len() == 0,
        *r.data == RelAttrType::ColumnRef(idx),
{
    RelNode {
        typ: RelNodeType::ColumnRef,
        children: Vec::new(),
        data: Arc::new(RelAttrType::ColumnRef(idx)),
    }
}

pub fn const_pred(value: i64) -> (r: RelNode)
    ensures
        r.typ == RelNodeType::Const,
        r.children@.len() == 0,
        *r.data == RelAttrType::Const(value),
{
    RelNode {
        typ: RelNodeType::Const,
        children: Vec::new(),
        data: Arc::new(RelAttrType::Const(value)),
    }
}

/// A view of a uniform node known to be a scan.
pub struct Scan(Arc<RelNode>);

impl Scan {
    /// The wrapped node.
    pub closed spec fn node(&self) -> RelNode {
        *self.0
    }

    pub fn try_from_relnode(node: Arc<RelNode>) -> (r: Option<Self>)
        ensures
            match r {
                Some(s) => node.typ == RelNodeType::Scan && s.node() == *node,
                None => node.typ != RelNodeType::Scan,
            },
    {
        if let RelNodeType::Scan = node.typ {
            Some(Self(node))
        } else {
            None
        }
    }

    pub fn into_relnode(self) -> (r: Arc<RelNode>)
        ensures
            *r == self.node(),
    {
        self.0
    }

    pub fn table(&self) -> (r: TableId)
        requires
            (*self.node().data) is TableId,
        ensures
            RelAttrType::TableId(r) == *self.node().data,
    {
        match &*self.0.data {
            RelAttrType::TableId(table) => *table,
            _ => TableId(0),
        }
    }
}

/// A view of a uniform node known to be a filter.
pub struct Filter(Arc<RelNode>);

impl Filter {
    /// The wrapped node.
    pub closed spec fn node(&self) -> RelNode {
        *self.0
    }

    pub fn try_from_relnode(node: Arc<RelNode>) -> (r: Option<Self>)
        ensures
            match r {
                Some(s) => node.typ == RelNodeType::Filter && s.node() == *node,
                None => node.typ != RelNodeType::Filter,
            },
    {
        if let RelNodeType::Filter = node.typ {
            Some(Self(node))
        } else {
            None
        }
    }

    pub fn into_relnode(self) -> (r: Arc<RelNode>)
        ensures
            *r == self.node(),
    {
        self.0
    }

    pub fn child(&self) -> (r: Arc<RelNode>)
        requires
            self.node().children@.len() >= 2,
        ensures
            r == self.node().children@[0],
    {
        self.0.children[0].clone()
    }

    pub fn cond(&self) -> (r: Arc<RelNode>)
        requires
            self.node().children@.len() >= 2,
        ensures
            r == self.node().children@[1],
    {
        self.0.children[1].clone()
    }
}

/// A view of a uniform node known to be a join.
pub struct Join(Arc<RelNode>);

impl Join {
    /// The wrapped node.
    pub closed spec fn node(&self) -> RelNode {
        *self.0
    }

    pub fn try_from_relnode(node: Arc<RelNode>) -> (r: Option<Self>)
        ensures
            match r {
                Some(s) => node.typ == RelNodeType::Join && s.node() == *node,
                None => node.typ != RelNodeType::Join,
            },
    {
        if let RelNodeType::Join = node.typ {
            Some(Self(node))
        } else {
            None
        }
    }

    pub fn into_relnode(self) -> (r: Arc<RelNode>)
        ensures
            *r == self.node(),
    {
        self.0
    }

    pub fn left(&self) -> (r: Arc<RelNode>)
        requires
            self.node().children@.len() >= 3,
        ensures
            r == self.node().children@[0],
    {
        self.0.children[0].clone()
    }

    pub fn right(&self) -> (r: Arc<RelNode>)
        requires
            self.node().children@.len() >= 3,
        ensures
            r == self.node().children@[1],
    {
        self.0.children[1].clone()
    }

    pub fn cond(&self) -> (r: Arc<RelNode>)
        requires
            self.node().children@.len() >= 3,
        ensures
            r == self.node().children@[2],
    {
        self.0.children[2].clone()
    }
}

/// A view of a uniform node known to be an equality predicate.
pub struct Eq(Arc<RelNode>);

impl Eq {
    /// The wrapped node.
    pub closed spec fn node(&self) -> RelNode {
        *self.0
    }

    pub fn try_from_relnode(node: Arc<RelNode>) -> (r: Option<Self>)
        ensures
            match r {
                Some(s) => node.typ == RelNodeType::Eq && s.node() == *node,
                None => node.typ != RelNodeType::Eq,
            },
    {
        if let RelNodeType::Eq = node.typ {
            Some(Self(node))
        } else {
            None
        }
    }

    pub fn into_relnode(self) -> (r: Arc<RelNode>)
        ensures
            *r == self.node(),
    {
        self.0
    }

    pub fn left(&self) -> (r: Arc<RelNode>)
        requires
            self.node().children@.len() >= 2,
        ensures
            r == self.node().children@[0],
    {
        self.0.children[0].clone()
    }

    pub fn right(&self) -> (r: Arc<RelNode>)
        requires
            self.node().children@.len() >= 2,
        ensures
            r == self.node().children@[1],
    {
        self.0.children[1].clone()
    }
}

/// A view of a uniform node known to be a column reference.
pub struct ColumnRef(Arc<RelNode>);

impl ColumnRef {
    /// The wrapped node.
    pub closed spec fn node(&self) -> RelNode {
        *self.0
    }

    pub fn try_from_relnode(node: Arc<RelNode>) -> (r: Option<Self>)
        ensures
            match r {
                Some(s) => node.typ == RelNodeType::ColumnRef && s.node() == *node,
                None => node.typ != RelNodeType::ColumnRef,
            },
    {
        if let RelNodeType::ColumnRef = node.typ {
            Some(Self(node))
        } else {
            None
        }
    }

    pub fn idx(&self) -> (r: usize)
        requires
            (*self.node().data) is ColumnRef,
        ensures
            RelAttrType::ColumnRef(r) == *self.node().data,
    {
        match &*self.0.data {
            RelAttrType::ColumnRef(idx) => *idx,
            _ => 0,
        }
    }

    pub fn into_relnode(self) -> (r: Arc<RelNode>)
        ensures
            *r == self.node(),
    {
        self.0
    }
}

/// A view of a uniform node known to be a constant.
pub struct Const(Arc<RelNode>);

impl Const {
    /// The wrapped node.
    pub closed spec fn node(&self) -> RelNode {
        *self.0
    }

    pub fn try_from_relnode(node: Arc<RelNode>) -> (r: Option<Self>)
        ensures
            match r {
                Some(s) => node.typ == RelNodeType::Const && s.node() == *node,
                None => node.typ != RelNodeType::Const,
            },
    {
        if let RelNodeType::Const = node.typ {
            Some(Self(node))
        } else {
            None
        }
    }

    pub fn value(&self) -> (r: i64)
        requires
            (*self.node().data) is Const,
        ensures
            RelAttrType::Const(r) == *self.node().data,
    {
        match &*self.0.data {
            RelAttrType::Const(value) => *value,
            _ => 0,
        }
    }

    pub fn into_relnode(self) -> (r: Arc<RelNode>)
        ensures
            *r == self.node(),
    {
        self.0
    }
}

/// The running example in the uniform representation: a filter over a join
/// of two scans, on a column equality, comparing a column to a constant.
pub open spec fn is_example_plan(r: RelNode) -> bool {
    &&& r.typ == RelNodeType::Filter
    &&& r.children@.len() == 2
    &&& *r.data == RelAttrType::NoValue
    &&& ({
        let j = *r.children@[0];
        &&& j.typ == RelNodeType::Join
        &&& j.children@.len() == 3
        &&& j.children@[0].typ == RelNodeType::Scan
        &&& *j.children@[0].data == RelAttrType::TableId(TableId(0))
        &&& j.children@[1].typ == RelNodeType::Scan
        &&& *j.children@[1].data == RelAttrType::TableId(TableId(1))
        &&& j.children@[2].typ == RelNodeType::Eq
        &&& j.children@[2].children@.len() == 2
        &&& *j.children@[2].children@[0].data == RelAttrType::ColumnRef(1)
        &&& *j.children@[2].children@[1].data == RelAttrType::ColumnRef(3)
    })
    &&& ({
        let p = *r.children@[1];
        &&& p.typ == RelNodeType::Eq
        &&& p.children@.len() == 2
        &&& *p.children@[0].data == RelAttrType::ColumnRef(2)
        &&& *p.children@[1].data == RelAttrType::Const(3)
    })
}

/// The running example in the uniform representation: a filter over a join
/// of two scans.
pub fn plan() -> (r: RelNode)
    ensures
        is_example_plan(r),
{
    filter(
        join(
            scan(TableId(0)),
            scan(TableId(1)),
            eq_pred(column_ref_pred(1), column_ref_pred(3)),
        ),
        eq_pred(column_ref_pred(2), const_pred(3)),
    )
}

} // verus!
