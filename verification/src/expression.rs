//! Bound expression leaves: column references and their catalog entries.

use vstd::prelude::*;

verus! {

/// The logical type of a column.
#[derive(Clone, Copy, Debug, PartialEq, Eq, Structural)]
pub enum LogicalType {
    Boolean,
    Integer,
    Varchar,
}

/// The catalog entry of one column.
#[derive(Debug, PartialEq, Eq)]
pub struct ColumnCatalog {
    pub table_id: String,
    pub column_id: String,
    pub nullable: bool,
    pub data_type: LogicalType,
}

impl Clone for ColumnCatalog {
    /// Cloning preserves the modelled value.
    fn clone(&self) -> (r: Self)
        ensures
            r@ == self@,
    {
        ColumnCatalog {
            table_id: self.table_id.clone(),
            column_id: self.column_id.clone(),
            nullable: self.nullable,
            data_type: self.data_type,
        }
    }
}

/// The mathematical shape of a column catalog entry.
pub struct ColumnCatalogModel {
    pub table_id: Seq<char>,
    pub column_id: Seq<char>,
    pub nullable: bool,
    pub data_type: LogicalType,
}

impl View for ColumnCatalog {
    type V = ColumnCatalogModel;

    open spec fn view(&self) -> ColumnCatalogModel {
        ColumnCatalogModel {
            table_id: self.table_id@,
            column_id: self.column_id@,
            nullable: self.nullable,
            data_type: self.data_type,
        }
    }
}

/// A bound reference to a catalogued column.
#[derive(Debug, PartialEq, Eq)]
pub struct BoundColumnRef {
    pub column_catalog: ColumnCatalog,
}

impl Clone for BoundColumnRef {
    /// Cloning preserves the modelled value.
    fn clone(&self) -> (r: Self)
        ensures
            r@ == self@,
    {
        BoundColumnRef { column_catalog: self.column_catalog.clone() }
    }
}

impl View for BoundColumnRef {
    type V = ColumnCatalogModel;

    open spec fn view(&self) -> ColumnCatalogModel {
        self.column_catalog@
    }
}

impl BoundColumnRef {
    /// Whether the referenced column is nullable.
    pub fn nullable(&self) -> (r: bool)
        ensures
            r == self@.nullable,
    {
        self.column_catalog.nullable
    }

    /// The type the reference evaluates to.
    pub fn return_type(&self) -> (r: LogicalType)
        ensures
            r == self@.data_type,
    {
        self.column_catalog.data_type
    }
}

} // verus!
