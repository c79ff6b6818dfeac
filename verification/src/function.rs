//! The built-in function registry.
//!
//! Table and scalar functions register under their names in two catalog
//! sets; `initialize` installs the fixed set of built-ins the platform
//! ships with.

use vstd::prelude::*;

use crate::catalog::{CatalogEntry, CatalogError, CatalogSet};

verus! {

/// Failures of function registration.
#[derive(Clone, Copy, Debug, PartialEq, Eq, Structural)]
pub enum FunctionError {
    /// A function with this name is already registered.
    FunctionExists,
    /// The registry cannot accept more functions.
    RegistryFull,
}

/// The input state a table-producing function scan carries.
#[derive(Clone, Copy, Debug, PartialEq, Eq, Structural)]
pub enum FunctionData {
    /// A sequential table scan: the table handle and the next row.
    SeqTableScanInputData { table_oid: u64, next_row: u64 },
    /// A catalog scan over tables.
    QueryTablesData { next_oid: u64 },
    /// A catalog scan over columns.
    QueryColumnsData { next_oid: u64, next_column: u64 },
    /// A file ingestion scan: the next byte offset.
    ReadCSVInputData { offset: u64 },
}

/// A table-producing function.
#[derive(Debug, PartialEq, Eq)]
pub struct TableFunction {
    pub name: String,
    pub oid: u64,
}

impl Clone for TableFunction {
    /// Cloning preserves the modelled value.
    fn clone(&self) -> (r: Self)
        ensures
            r@ == self@,
    {
        TableFunction { name: self.name.clone(), oid: self.oid }
    }
}

/// The mathematical shape of a table function.
pub struct TableFunctionModel {
    pub name: Seq<char>,
    pub oid: u64,
}

impl View for TableFunction {
    type V = TableFunctionModel;

    open spec fn view(&self) -> TableFunctionModel {
        TableFunctionModel { name: self.name@, oid: self.oid }
    }
}

/// A scalar function.
#[derive(Debug, PartialEq, Eq)]
pub struct ScalarFunction {
    pub name: String,
    pub oid: u64,
}

impl Clone for ScalarFunction {
    /// Cloning preserves the modelled value.
    fn clone(&self) -> (r: Self)
        ensures
            r@ == self@,
    {
        ScalarFunction { name: self.name.clone(), oid: self.oid }
    }
}

/// The mathematical shape of a scalar function.
pub struct ScalarFunctionModel {
    pub name: Seq<char>,
    pub oid: u64,
}

impl View for ScalarFunction {
    type V = ScalarFunctionModel;

    open spec fn view(&self) -> ScalarFunctionModel {
        ScalarFunctionModel { name: self.name@, oid: self.oid }
    }
}

/// The built-in function registry: a catalog set per function kind.
#[derive(Debug)]
pub struct BuiltinFunctions {
    table_functions: CatalogSet,
    scalar_functions: CatalogSet,
}

impl BuiltinFunctions {
    pub closed spec fn spec_table_functions(&self) -> CatalogSet {
        self.table_functions
    }

    pub closed spec fn spec_scalar_functions(&self) -> CatalogSet {
        self.scalar_functions
    }

    pub open spec fn inv(&self) -> bool {
        &&& self.spec_table_functions().wf()
        &&& self.spec_scalar_functions().wf()
    }

    /// An empty registry.
    pub fn new() -> (r: BuiltinFunctions)
        ensures
            r.inv(),
            forall|n: Seq<char>| !(#[trigger] r.spec_table_functions().spec_contains_name(n)),
            forall|n: Seq<char>| !(#[trigger] r.spec_scalar_functions().spec_contains_name(n)),
    {
        let r = BuiltinFunctions {
            table_functions: CatalogSet::new(),
            scalar_functions: CatalogSet::new(),
        };
        proof {
            assert forall|n: Seq<char>|
                !(#[trigger] r.spec_table_functions().spec_contains_name(n)) by {
                crate::catalog::lemma_empty_name_index(r.spec_table_functions().spec_mapping(), n);
            }
            assert forall|n: Seq<char>|
                !(#[trigger] r.spec_scalar_functions().spec_contains_name(n)) by {
                crate::catalog::lemma_empty_name_index(
                    r.spec_scalar_functions().spec_mapping(),
                    n,
                );
            }
        }
        r
    }

    /// Register a table function under its own name.
    ///
    /// Fails with `FunctionExists` exactly when the name is taken (or the
    /// registry's handle space is exhausted); the registry is then
    /// unchanged.
    pub fn add_table_functions(&mut self, function: TableFunction) -> (res: Result<
        (),
        FunctionError,
    >)
        requires
            old(self).inv(),
        ensures
            final(self).inv(),
            final(self).spec_scalar_functions() == old(self).spec_scalar_functions(),
            match res {
                Ok(()) => {
                    &&& !old(self).spec_table_functions().spec_contains_name(function@.name)
                    &&& final(self).spec_table_functions().spec_contains_name(function@.name)
                    &&& final(self).spec_table_functions().spec_entry_of(function@.name).oid
                        == function@.oid
                    &&& forall|n: Seq<char>|
                        n != function@.name ==> #[trigger] final(self).spec_table_functions().spec_contains_name(n) == old(self).spec_table_functions().spec_contains_name(n)
                    &&& final(self).spec_table_functions().spec_current() == old(self).spec_table_functions().spec_current() + 1
                },
                Err(e) => {
                    &&& e == FunctionError::FunctionExists
                    &&& final(self).spec_table_functions() == old(self).spec_table_functions()
                    &&& (old(self).spec_table_functions().spec_contains_name(function@.name)
                        || old(self).spec_table_functions().spec_current() == u64::MAX)
                },
            },
    {
        let entry = CatalogEntry { name: function.name.clone(), oid: function.oid };
        match self.table_functions.create_entry(function.name, entry) {
            Ok(()) => Ok(()),
            Err(_) => Err(FunctionError::FunctionExists),
        }
    }

    /// Register a family of scalar functions under one name.
    ///
    /// Fails with `FunctionExists` exactly when the name is taken (or the
    /// registry's handle space is exhausted); the registry is then
    /// unchanged.
    pub fn add_scalar_functions(&mut self, function_name: String, functions: Vec<ScalarFunction>)
        -> (res: Result<(), FunctionError>)
        requires
            old(self).inv(),
        ensures
            final(self).inv(),
            final(self).spec_table_functions() == old(self).spec_table_functions(),
            match res {
                Ok(()) => {
                    &&& !old(self).spec_scalar_functions().spec_contains_name(function_name@)
                    &&& final(self).spec_scalar_functions().spec_contains_name(function_name@)
                    &&& final(self).spec_scalar_functions().spec_entry_of(function_name@).oid
                        == functions@.len()
                    &&& forall|n: Seq<char>|
                        n != function_name@ ==> #[trigger] final(self).spec_scalar_functions().spec_contains_name(n) == old(self).spec_scalar_functions().spec_contains_name(n)
                    &&& final(self).spec_scalar_functions().spec_current() == old(self).spec_scalar_functions().spec_current() + 1
                },
                Err(e) => {
                    &&& e == FunctionError::FunctionExists
                    &&& final(self).spec_scalar_functions() == old(self).spec_scalar_functions()
                    &&& (old(self).spec_scalar_functions().spec_contains_name(function_name@)
                        || old(self).spec_scalar_functions().spec_current() == u64::MAX)
                },
            },
    {
        let entry = CatalogEntry { name: function_name.clone(), oid: functions.len() as u64 };
        match self.scalar_functions.create_entry(function_name, entry) {
            Ok(()) => Ok(()),
            Err(_) => Err(FunctionError::FunctionExists),
        }
    }
}

impl BuiltinFunctions {
    /// Install the built-in functions the platform ships with: the catalog
    /// scans and file ingestion as table functions, and the four arithmetic
    /// families as scalar functions.
    pub fn initialize(&mut self) -> (res: Result<(), FunctionError>)
        requires
            old(self).inv(),
        ensures
            final(self).inv(),
            ({
                &&& !old(self).spec_table_functions().spec_contains_name("query_tables"@)
                &&& !old(self).spec_table_functions().spec_contains_name("query_columns"@)
                &&& !old(self).spec_table_functions().spec_contains_name("read_csv"@)
                &&& !old(self).spec_scalar_functions().spec_contains_name("add"@)
                &&& !old(self).spec_scalar_functions().spec_contains_name("subtract"@)
                &&& !old(self).spec_scalar_functions().spec_contains_name("multiply"@)
                &&& !old(self).spec_scalar_functions().spec_contains_name("divide"@)
                &&& old(self).spec_table_functions().spec_current() <= u64::MAX - 3
                &&& old(self).spec_scalar_functions().spec_current() <= u64::MAX - 4
            }) ==> res is Ok,
            res is Ok ==> {
                &&& final(self).spec_table_functions().spec_contains_name("query_tables"@)
                &&& final(self).spec_table_functions().spec_contains_name("query_columns"@)
                &&& final(self).spec_table_functions().spec_contains_name("read_csv"@)
                &&& final(self).spec_scalar_functions().spec_contains_name("add"@)
                &&& final(self).spec_scalar_functions().spec_contains_name("subtract"@)
                &&& final(self).spec_scalar_functions().spec_contains_name("multiply"@)
                &&& final(self).spec_scalar_functions().spec_contains_name("divide"@)
            },
    {
        proof {
            reveal_strlit("query_tables");
            reveal_strlit("query_columns");
            reveal_strlit("read_csv");
            reveal_strlit("add");
            reveal_strlit("subtract");
            reveal_strlit("multiply");
            reveal_strlit("divide");
        }
        let r1 = self.add_table_functions(
            TableFunction { name: new_name("query_tables"), oid: 1 },
        );
        if r1.is_err() {
            return Err(FunctionError::FunctionExists);
        }
        proof {
            reveal_strlit("query_tables");
            reveal_strlit("query_columns");
            reveal_strlit("read_csv");
            assert("query_tables"@.len() == 12);
            assert("query_columns"@.len() == 13);
            assert("query_columns"@ != "query_tables"@);
            assert("read_csv"@ != "query_tables"@);
        }
        let r2 = self.add_table_functions(
            TableFunction { name: new_name("query_columns"), oid: 2 },
        );
        if r2.is_err() {
            return Err(FunctionError::FunctionExists);
        }
        proof {
            reveal_strlit("query_columns");
            reveal_strlit("read_csv");
            assert("read_csv"@ != "query_columns"@);
        }
        let r3 = self.add_table_functions(TableFunction { name: new_name("read_csv"), oid: 3 });
        if r3.is_err() {
            return Err(FunctionError::FunctionExists);
        }
        let one = ScalarFunction { name: new_name("scalar"), oid: 0 };
        let mut fs1: Vec<ScalarFunction> = Vec::new();
        fs1.push(one);
        let r4 = self.add_scalar_functions(new_name("add"), fs1);
        if r4.is_err() {
            return Err(FunctionError::FunctionExists);
        }
        let mut fs2: Vec<ScalarFunction> = Vec::new();
        fs2.push(ScalarFunction { name: new_name("scalar"), oid: 0 });
        proof {
            reveal_strlit("add");
            reveal_strlit("subtract");
            assert("add"@.len() == 3);
            assert("subtract"@.len() == 8);
            assert("subtract"@ != "add"@);
        }
        let r5 = self.add_scalar_functions(new_name("subtract"), fs2);
        if r5.is_err() {
            return Err(FunctionError::FunctionExists);
        }
        let mut fs3: Vec<ScalarFunction> = Vec::new();
        fs3.push(ScalarFunction { name: new_name("scalar"), oid: 0 });
        proof {
            reveal_strlit("add");
            reveal_strlit("subtract");
            reveal_strlit("multiply");
            assert("add"@.len() == 3);
            assert("subtract"@.len() == 8);
            assert("multiply"@.len() == 8);
            assert("subtract"@[0] == 's');
            assert("multiply"@[0] == 'm');
            assert("multiply"@ != "add"@);
            assert("multiply"@ != "subtract"@);
        }
        let r6 = self.add_scalar_functions(new_name("multiply"), fs3);
        if r6.is_err() {
            return Err(FunctionError::FunctionExists);
        }
        let mut fs4: Vec<ScalarFunction> = Vec::new();
        fs4.push(ScalarFunction { name: new_name("scalar"), oid: 0 });
        proof {
            reveal_strlit("add");
            reveal_strlit("subtract");
            reveal_strlit("multiply");
            reveal_strlit("divide");
            assert("add"@.len() == 3);
            assert("subtract"@.len() == 8);
            assert("multiply"@.len() == 8);
            assert("divide"@.len() == 6);
            assert("divide"@ != "add"@);
            assert("divide"@ != "subtract"@);
            assert("divide"@ != "multiply"@);
        }
        let r7 = self.add_scalar_functions(new_name("divide"), fs4);
        if r7.is_err() {
            return Err(FunctionError::FunctionExists);
        }
        Ok(())
    }
}

/// An owned copy of a name.
fn new_name(s: &str) -> (r: String)
    ensures
        r@ == s@,
{
    s.to_owned()
}

} // verus!
