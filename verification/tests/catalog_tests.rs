//! The catalog registry, the built-in functions, the channel, and plans.

use streamstore::catalog::{CatalogEntry, CatalogError, CatalogSet};
use streamstore::channel::Channel;
use streamstore::expression::{BoundColumnRef, ColumnCatalog, LogicalType};
use streamstore::function::{BuiltinFunctions, ScalarFunction, TableFunction};
use streamstore::plan::{PhysicalDummyScan, PhysicalLimit, PhysicalOperator, PhysicalOperatorBase};
use streamstore::record::Record;
use streamstore::types::{Entry, Sequence};

fn entry(name: &str, oid: u64) -> CatalogEntry {
    CatalogEntry { name: name.to_string(), oid }
}

#[test]
fn create_get_replace_entries() {
    let mut set = CatalogSet::new();
    set.create_entry("users".to_string(), entry("users", 1)).expect("fresh");
    let dup = set.create_entry("users".to_string(), entry("users", 2)).unwrap_err();
    assert_eq!(dup, CatalogError::CatalogEntryExists);

    let got = set.get_entry("users".to_string()).expect("present");
    assert_eq!(got.oid, 1);
    let missing = set.get_entry("orders".to_string()).unwrap_err();
    assert_eq!(missing, CatalogError::CatalogEntryNotExists);

    let mut copy = set.get_mut_entry("users".to_string()).expect("present");
    copy.oid = 9;
    set.replace_entry("users".to_string(), copy).expect("present");
    assert_eq!(set.get_entry("users".to_string()).expect("present").oid, 9);

    let absent = set.replace_entry("orders".to_string(), entry("orders", 3)).unwrap_err();
    assert_eq!(absent, CatalogError::CatalogEntryNotExists);
}

#[test]
fn scan_filters_through_the_callback() {
    let mut set = CatalogSet::new();
    set.create_entry("a".to_string(), entry("a", 1)).expect("fresh");
    set.create_entry("b".to_string(), entry("b", 2)).expect("fresh");
    set.create_entry("c".to_string(), entry("c", 3)).expect("fresh");
    let odd = set.scan_entries(&|e: &CatalogEntry| e.oid % 2 == 1);
    let mut oids: Vec<u64> = odd.iter().map(|e| e.oid).collect();
    oids.sort();
    assert_eq!(oids, vec![1, 3]);
    let none = set.scan_entries(&|_e: &CatalogEntry| false);
    assert!(none.is_empty());
}

#[test]
fn builtins_initialize_and_reject_duplicates() {
    let mut fns = BuiltinFunctions::new();
    fns.initialize().expect("fresh registry");
    let dup = fns
        .add_table_functions(TableFunction { name: "read_csv".to_string(), oid: 9 })
        .unwrap_err();
    assert_eq!(dup, streamstore::function::FunctionError::FunctionExists);
    let dup2 = fns
        .add_scalar_functions(
            "divide".to_string(),
            vec![ScalarFunction { name: "scalar".to_string(), oid: 0 }],
        )
        .unwrap_err();
    assert_eq!(dup2, streamstore::function::FunctionError::FunctionExists);
    fns.add_table_functions(TableFunction { name: "my_scan".to_string(), oid: 8 })
        .expect("fresh name");
}

#[test]
fn channel_collects_requests_and_signals_waiters() {
    let mut ch = Channel::new();
    // An empty take leaves the consumer waiting.
    assert!(ch.take().is_empty());
    let rec = Record {
        stream_id: 1,
        writer_epoch: 1,
        segment_epoch: 1,
        first_index: 1,
        acked_seq: Sequence::new(0, 0),
        entries: vec![Entry::Hole],
    };
    let (t0, notify) = ch.append(rec);
    assert_eq!(t0, 0);
    assert!(notify, "a waiting consumer is notified");
    let notify2 = ch.shutdown();
    assert!(!notify2, "nobody is waiting any more");
    let taken = ch.take();
    assert_eq!(taken.len(), 2);
    assert!(taken[0].record.is_some());
    assert!(taken[1].record.is_none());
}

#[test]
fn operator_children_project_the_base() {
    let leaf = PhysicalOperator::PhysicalDummyScan(PhysicalDummyScan {
        base: PhysicalOperatorBase::new(Vec::new(), Vec::new()),
    });
    let column = BoundColumnRef {
        column_catalog: ColumnCatalog {
            table_id: "t".to_string(),
            column_id: "c".to_string(),
            nullable: false,
            data_type: LogicalType::Integer,
        },
    };
    assert!(!column.nullable());
    assert_eq!(column.return_type(), LogicalType::Integer);
    let op = PhysicalOperator::PhysicalLimit(PhysicalLimit {
        base: PhysicalOperatorBase::new(vec![leaf], vec![column]),
        limit: 10,
    });
    assert_eq!(op.children().len(), 1);
    assert!(op.children()[0].children().is_empty());
}
