//! Physical operators of the execution layer.
//!
//! Each operator wraps a common base holding its children and its
//! expressions; `children` projects the base out of whichever variant an
//! operator is.

use vstd::prelude::*;

use crate::expression::BoundColumnRef;

verus! {

/// The common base of every physical operator.
pub struct PhysicalOperatorBase {
    pub children: Vec<PhysicalOperator>,
    pub expressions: Vec<BoundColumnRef>,
}

impl PhysicalOperatorBase {
    /// An operator base with the given children and expressions.
    pub fn new(children: Vec<PhysicalOperator>, expressions: Vec<BoundColumnRef>) -> (r:
        PhysicalOperatorBase)
        ensures
            r.children == children,
            r.expressions == expressions,
    {
        PhysicalOperatorBase { children, expressions }
    }
}

pub struct PhysicalCreateTable {
    pub base: PhysicalOperatorBase,
    pub table: String,
}

pub struct PhysicalDummyScan {
    pub base: PhysicalOperatorBase,
}

pub struct PhysicalExpressionScan {
    pub base: PhysicalOperatorBase,
}

pub struct PhysicalInsert {
    pub base: PhysicalOperatorBase,
    pub table: String,
}

pub struct PhysicalTableScan {
    pub base: PhysicalOperatorBase,
    pub table: String,
}

pub struct PhysicalProjection {
    pub base: PhysicalOperatorBase,
}

pub struct PhysicalColumnDataScan {
    pub base: PhysicalOperatorBase,
}

pub struct PhysicalFilter {
    pub base: PhysicalOperatorBase,
}

pub struct PhysicalLimit {
    pub base: PhysicalOperatorBase,
    pub limit: u64,
}

/// A physical operator: one variant per plan node.
pub enum PhysicalOperator {
    PhysicalCreateTable(PhysicalCreateTable),
    PhysicalDummyScan(PhysicalDummyScan),
    PhysicalExpressionScan(PhysicalExpressionScan),
    PhysicalInsert(Box<PhysicalInsert>),
    PhysicalTableScan(PhysicalTableScan),
    PhysicalProjection(PhysicalProjection),
    PhysicalColumnDataScan(PhysicalColumnDataScan),
    PhysicalFilter(PhysicalFilter),
    PhysicalLimit(PhysicalLimit),
}

impl PhysicalOperator {
    /// The base of whichever variant the operator is.
    pub open spec fn spec_base(&self) -> PhysicalOperatorBase {
        match self {
            PhysicalOperator::PhysicalCreateTable(op) => op.base,
            PhysicalOperator::PhysicalDummyScan(op) => op.base,
            PhysicalOperator::PhysicalExpressionScan(op) => op.base,
            PhysicalOperator::PhysicalInsert(op) => op.base,
            PhysicalOperator::PhysicalTableScan(op) => op.base,
            PhysicalOperator::PhysicalProjection(op) => op.base,
            PhysicalOperator::PhysicalColumnDataScan(op) => op.base,
            PhysicalOperator::PhysicalFilter(op) => op.base,
            PhysicalOperator::PhysicalLimit(op) => op.base,
        }
    }

    /// The children of the operator.
    pub fn children(&self) -> (r: &Vec<PhysicalOperator>)
        ensures
            r == self.spec_base().children,
    {
        match self {
            PhysicalOperator::PhysicalCreateTable(op) => &op.base.children,
            PhysicalOperator::PhysicalDummyScan(op) => &op.base.children,
            PhysicalOperator::PhysicalExpressionScan(op) => &op.base.children,
            PhysicalOperator::PhysicalInsert(op) => &op.base.children,
            PhysicalOperator::PhysicalTableScan(op) => &op.base.children,
            PhysicalOperator::PhysicalProjection(op) => &op.base.children,
            PhysicalOperator::PhysicalColumnDataScan(op) => &op.base.children,
            PhysicalOperator::PhysicalFilter(op) => &op.base.children,
            PhysicalOperator::PhysicalLimit(op) => &op.base.children,
        }
    }
}

} // verus!
