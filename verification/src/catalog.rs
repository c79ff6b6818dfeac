//! A named registry of catalog entries.
//!
//! `CatalogSet` stores entries under a numeric handle and maps names to
//! handles, as the surrounding platform's catalog layer expects: creation
//! refuses duplicate names, lookups and replacement go by name, and a scan
//! filters the stored entries through a caller-supplied predicate.

use vstd::prelude::*;

verus! {

/// Failures of catalog operations.
#[derive(Clone, Copy, Debug, PartialEq, Eq, Structural)]
pub enum CatalogError {
    /// An entry with this name already exists.
    CatalogEntryExists,
    /// No entry with this name exists.
    CatalogEntryNotExists,
}

/// One catalog entry: a named object with a numeric payload.
#[derive(Debug, PartialEq, Eq)]
pub struct CatalogEntry {
    pub name: String,
    pub oid: u64,
}

impl Clone for CatalogEntry {
    /// Cloning preserves the modelled value.
    fn clone(&self) -> (r: Self)
        ensures
            r@ == self@,
    {
        CatalogEntry { name: self.name.clone(), oid: self.oid }
    }
}

/// The mathematical shape of an entry: its name and payload.
pub struct CatalogEntryModel {
    pub name: Seq<char>,
    pub oid: u64,
}

impl View for CatalogEntry {
    type V = CatalogEntryModel;

    open spec fn view(&self) -> CatalogEntryModel {
        CatalogEntryModel { name: self.name@, oid: self.oid }
    }
}

/// The index of `name` in a name-to-handle list, if present.
pub open spec fn spec_name_index(m: Seq<(String, u64)>, name: Seq<char>) -> Option<int>
    decreases m.len(),
{
    if m.len() == 0 {
        None
    } else if m[0].0@ == name {
        Some(0)
    } else {
        match spec_name_index(m.drop_first(), name) {
            Option::None => None,
            Option::Some(i) => Some(i + 1),
        }
    }
}

/// The index of handle `id` in a handle-to-entry list, if present.
pub open spec fn spec_id_index(m: Seq<(u64, CatalogEntry)>, id: u64) -> Option<int>
    decreases m.len(),
{
    if m.len() == 0 {
        None
    } else if m[0].0 == id {
        Some(0)
    } else {
        match spec_id_index(m.drop_first(), id) {
            Option::None => None,
            Option::Some(i) => Some(i + 1),
        }
    }
}

/// A set of catalog entries: handle-to-entry storage plus a name index.
#[derive(Debug)]
pub struct CatalogSet {
    /// The stored entries, keyed by handle.
    entries: Vec<(u64, CatalogEntry)>,
    /// Name to handle.
    mapping: Vec<(String, u64)>,
    /// The most recently assigned handle.
    current_entry: u64,
}

impl CatalogSet {
    pub closed spec fn spec_entries(&self) -> Seq<(u64, CatalogEntry)> {
        self.entries@
    }

    pub closed spec fn spec_mapping(&self) -> Seq<(String, u64)> {
        self.mapping@
    }

    pub closed spec fn spec_current(&self) -> u64 {
        self.current_entry
    }

    /// Whether some entry is registered under `name`.
    pub open spec fn spec_contains_name(&self, name: Seq<char>) -> bool {
        spec_name_index(self.spec_mapping(), name) is Some
    }

    /// The entry registered under `name`; meaningful when present.
    pub open spec fn spec_entry_of(&self, name: Seq<char>) -> CatalogEntryModel {
        let i = spec_name_index(self.spec_mapping(), name)->Some_0;
        let id = self.spec_mapping()[i].1;
        let j = spec_id_index(self.spec_entries(), id)->Some_0;
        self.spec_entries()[j].1@
    }

    /// Well-formed: names are unique, every mapped handle is stored, stored
    /// handles are unique and never exceed the current handle.
    pub open spec fn wf(&self) -> bool {
        &&& forall|i: int, j: int|
            0 <= i < j < self.spec_mapping().len() ==> #[trigger] self.spec_mapping()[i].0@
                != #[trigger] self.spec_mapping()[j].0@
        &&& forall|i: int, j: int|
            0 <= i < j < self.spec_entries().len() ==> #[trigger] self.spec_entries()[i].0
                != #[trigger] self.spec_entries()[j].0
        &&& forall|i: int|
            0 <= i < self.spec_mapping().len() ==> spec_id_index(
                self.spec_entries(),
                #[trigger] self.spec_mapping()[i].1,
            ) is Some
        &&& forall|i: int, j: int|
            0 <= i < j < self.spec_mapping().len() ==> #[trigger] self.spec_mapping()[i].1
                != #[trigger] self.spec_mapping()[j].1
        &&& forall|i: int|
            0 <= i < self.spec_entries().len() ==> #[trigger] self.spec_entries()[i].0
                <= self.spec_current()
    }

    /// An empty catalog set.
    pub fn new() -> (r: CatalogSet)
        ensures
            r.wf(),
            r.spec_mapping().len() == 0,
            r.spec_entries().len() == 0,
    {
        CatalogSet { entries: Vec::new(), mapping: Vec::new(), current_entry: 0 }
    }

    /// Look up the position of `name` in the name index.
    fn find_name(&self, name: &String) -> (r: Option<usize>)
        ensures
            match r {
                Some(i) => spec_name_index(self.spec_mapping(), name@) == Some(i as int) && i
                    < self.spec_mapping().len() && self.spec_mapping()[i as int].0@ == name@,
                None => spec_name_index(self.spec_mapping(), name@) is None,
            },
    {
        let mut i: usize = 0;
        proof {
            assert(self.mapping@.skip(0) =~= self.mapping@);
        }
        while i < self.mapping.len()
            invariant
                i <= self.mapping@.len(),
                forall|k: int| 0 <= k < i ==> #[trigger] self.mapping@[k].0@ != name@,
                spec_name_index(self.mapping@.skip(i as int), name@) is Some
                    ==> spec_name_index(self.mapping@, name@) == Some(
                    spec_name_index(self.mapping@.skip(i as int), name@)->Some_0 + i,
                ),
                spec_name_index(self.mapping@.skip(i as int), name@) is None ==> spec_name_index(
                    self.mapping@,
                    name@,
                ) is None,
            decreases self.mapping@.len() - i,
        {
            proof {
                assert(self.mapping@.skip(i as int)[0] == self.mapping@[i as int]);
                assert(self.mapping@.skip(i as int).drop_first() =~= self.mapping@.skip(
                    i as int + 1,
                ));
            }
            if self.mapping[i].0 == *name {
                return Some(i);
            }
            i = i + 1;
        }
        proof {
            assert(self.mapping@.skip(i as int).len() == 0);
        }
        None
    }

    /// Look up the position of handle `id` in the entry storage.
    fn find_id(&self, id: u64) -> (r: Option<usize>)
        ensures
            match r {
                Some(i) => spec_id_index(self.spec_entries(), id) == Some(i as int) && i
                    < self.spec_entries().len() && self.spec_entries()[i as int].0 == id,
                None => spec_id_index(self.spec_entries(), id) is None,
            },
    {
        let mut i: usize = 0;
        proof {
            assert(self.entries@.skip(0) =~= self.entries@);
        }
        while i < self.entries.len()
            invariant
                i <= self.entries@.len(),
                spec_id_index(self.entries@.skip(i as int), id) is Some ==> spec_id_index(
                    self.entries@,
                    id,
                ) == Some(spec_id_index(self.entries@.skip(i as int), id)->Some_0 + i),
                spec_id_index(self.entries@.skip(i as int), id) is None ==> spec_id_index(
                    self.entries@,
                    id,
                ) is None,
            decreases self.entries@.len() - i,
        {
            proof {
                assert(self.entries@.skip(i as int)[0] == self.entries@[i as int]);
                assert(self.entries@.skip(i as int).drop_first() =~= self.entries@.skip(
                    i as int + 1,
                ));
            }
            if self.entries[i].0 == id {
                return Some(i);
            }
            i = i + 1;
        }
        proof {
            assert(self.entries@.skip(i as int).len() == 0);
        }
        None
    }

    /// Register `entry` under a fresh handle, indexed by `name`.
    ///
    /// Fails with `CatalogEntryExists` exactly when `name` is already
    /// registered (or the handle space is exhausted); the set is then
    /// unchanged.
    pub fn create_entry(&mut self, name: String, entry: CatalogEntry) -> (res: Result<
        (),
        CatalogError,
    >)
        requires
            old(self).wf(),
        ensures
            final(self).wf(),
            match res {
                Ok(()) => {
                    &&& !old(self).spec_contains_name(name@)
                    &&& final(self).spec_contains_name(name@)
                    &&& final(self).spec_entry_of(name@) == entry@
                    &&& final(self).spec_mapping().len() == old(self).spec_mapping().len() + 1
                    &&& forall|n: Seq<char>|
                        n != name@ ==> #[trigger] final(self).spec_contains_name(n) == old(
                            self,
                        ).spec_contains_name(n)
                    &&& forall|n: Seq<char>|
                        n != name@ && old(self).spec_contains_name(n) ==> #[trigger] final(self).spec_entry_of(n) == old(self).spec_entry_of(n)
                    &&& final(self).spec_current() == old(self).spec_current() + 1
                },
                Err(e) => {
                    &&& e == CatalogError::CatalogEntryExists
                    &&& *final(self) == *old(self)
                    &&& old(self).spec_contains_name(name@) || old(self).spec_current()
                        == u64::MAX
                },
            },
    {
        if self.find_name(&name).is_some() {
            return Err(CatalogError::CatalogEntryExists);
        }
        if self.current_entry == u64::MAX {
            return Err(CatalogError::CatalogEntryExists);
        }
        let id: u64 = self.current_entry + 1;
        self.current_entry = id;
        let ghost old_mapping = self.mapping@;
        let ghost old_entries = self.entries@;
        proof {
            lemma_id_index_absent(old_entries, id);
        }
        self.entries.push((id, entry));
        self.mapping.push((name, id));
        proof {
            lemma_name_index_none(old_mapping, name@);
            lemma_id_index_none(old_entries, id);
            lemma_name_index_push(old_mapping, self.mapping@.last(), name@);
            assert forall|n: Seq<char>| n != name@ implies #[trigger] spec_name_index(
                self.mapping@,
                n,
            ) is Some == (spec_name_index(old_mapping, n) is Some) by {
                lemma_name_index_push(old_mapping, self.mapping@.last(), n);
            }
            lemma_id_index_push(old_entries, self.entries@.last());
            assert forall|i: int| 0 <= i < self.mapping@.len() implies spec_id_index(
                self.entries@,
                #[trigger] self.mapping@[i].1,
            ) is Some by {
                lemma_id_index_push(old_entries, self.entries@.last());
                if i < old_mapping.len() {
                    assert(self.mapping@[i] == old_mapping[i]);
                    lemma_id_index_push_other(old_entries, self.entries@.last(), old_mapping[i].1);
                }
            }
            assert forall|n: Seq<char>|
                n != name@ && old(self).spec_contains_name(n) implies #[trigger] self
                .spec_entry_of(n) == old(self).spec_entry_of(n) by {
                lemma_name_index_push(old_mapping, self.mapping@.last(), n);
                let i = spec_name_index(old_mapping, n)->Some_0;
                lemma_name_index_some_key(old_mapping, n);
                assert(self.mapping@[i] == old_mapping[i]);
                let id2 = old_mapping[i].1;
                lemma_id_index_some_key(old_entries, id2);
                assert(id2 != id);
                lemma_id_index_push_other(old_entries, self.entries@.last(), id2);
                let j = spec_id_index(old_entries, id2)->Some_0;
                assert(self.entries@[j] == old_entries[j]);
            }
        }
        Ok(())
    }

    /// Fetch a copy of the entry registered under `name`.
    pub fn get_entry(&self, name: String) -> (res: Result<CatalogEntry, CatalogError>)
        requires
            self.wf(),
        ensures
            match res {
                Ok(e) => self.spec_contains_name(name@) && e@ == self.spec_entry_of(name@),
                Err(e) => e == CatalogError::CatalogEntryNotExists && !self.spec_contains_name(
                    name@,
                ),
            },
    {
        match self.find_name(&name) {
            Some(i) => {
                let id: u64 = self.mapping[i].1;
                match self.find_id(id) {
                    Some(j) => Ok(self.entries[j].1.clone()),
                    None => {
                        proof {
                            assert(spec_id_index(self.spec_entries(), self.spec_mapping()[
                                i as int].1) is Some);
                        }
                        Err(CatalogError::CatalogEntryNotExists)
                    },
                }
            },
            None => Err(CatalogError::CatalogEntryNotExists),
        }
    }

    /// Fetch a copy of the entry registered under `name`, for callers that
    /// intend to modify and re-register it.
    ///
    /// A verified registry cannot hand out an interior mutable borrow; the
    /// modified entry goes back in through `replace_entry`.
    pub fn get_mut_entry(&mut self, name: String) -> (res: Result<CatalogEntry, CatalogError>)
        requires
            old(self).wf(),
        ensures
            *final(self) == *old(self),
            match res {
                Ok(e) => old(self).spec_contains_name(name@) && e@ == old(self).spec_entry_of(
                    name@,
                ),
                Err(e) => e == CatalogError::CatalogEntryNotExists && !old(
                    self,
                ).spec_contains_name(name@),
            },
    {
        self.get_entry(name)
    }

    /// Replace the entry registered under `name` with `new_entry`.
    ///
    /// Fails with `CatalogEntryNotExists` exactly when `name` is unknown;
    /// the set is then unchanged. The name index is untouched either way.
    pub fn replace_entry(&mut self, name: String, new_entry: CatalogEntry) -> (res: Result<
        (),
        CatalogError,
    >)
        requires
            old(self).wf(),
        ensures
            final(self).wf(),
            final(self).spec_mapping() == old(self).spec_mapping(),
            match res {
                Ok(()) => {
                    &&& old(self).spec_contains_name(name@)
                    &&& final(self).spec_entry_of(name@) == new_entry@
                    &&& forall|n: Seq<char>|
                        #[trigger] final(self).spec_contains_name(n) == old(
                            self,
                        ).spec_contains_name(n)
                    &&& forall|n: Seq<char>|
                        n != name@ && old(self).spec_contains_name(n) ==> #[trigger] final(self).spec_entry_of(n) == old(self).spec_entry_of(n)
                },
                Err(e) => {
                    &&& e == CatalogError::CatalogEntryNotExists
                    &&& *final(self) == *old(self)
                    &&& !old(self).spec_contains_name(name@)
                },
            },
    {
        match self.find_name(&name) {
            Some(i) => {
                let id: u64 = self.mapping[i].1;
                match self.find_id(id) {
                    Some(j) => {
                        let ghost old_entries = self.entries@;
                        let slot = &mut self.entries[j];
                        *slot = (id, new_entry);
                        proof {
                            assert(self.entries@ =~= old_entries.update(
                                j as int,
                                (id, self.entries@[j as int].1),
                            ));
                            lemma_id_index_update(old_entries, j as int, self.entries@[j as int]);
                            assert forall|k: int| 0 <= k < self.mapping@.len() implies
                                spec_id_index(
                                self.entries@,
                                #[trigger] self.mapping@[k].1,
                            ) is Some by {
                                lemma_id_index_update(
                                    old_entries,
                                    j as int,
                                    self.entries@[j as int],
                                );
                            }
                            assert forall|n: Seq<char>|
                                n != name@ && old(self).spec_contains_name(n) implies
                                #[trigger] self.spec_entry_of(n) == old(self).spec_entry_of(
                                n,
                            ) by {
                                let i2 = spec_name_index(self.mapping@, n)->Some_0;
                                lemma_name_index_some_key(self.mapping@, n);
                                lemma_name_index_some_key(self.mapping@, name@);
                                assert(i2 != i);
                                let id2 = self.mapping@[i2].1;
                                assert(id2 != id);
                                lemma_id_index_some_key(old_entries, id2);
                                let j2 = spec_id_index(old_entries, id2)->Some_0;
                                assert(old_entries[j2].0 == id2);
                                assert(j2 != j);
                                assert(self.entries@[j2] == old_entries[j2]);
                            }
                        }
                        Ok(())
                    },
                    None => {
                        proof {
                            assert(spec_id_index(self.spec_entries(), self.spec_mapping()[
                                i as int].1) is Some);
                        }
                        Err(CatalogError::CatalogEntryNotExists)
                    },
                }
            },
            None => Err(CatalogError::CatalogEntryNotExists),
        }
    }

    /// Collect copies of exactly the stored entries the callback accepts,
    /// in storage order: there is a sequence of per-entry decisions, one
    /// per stored entry and each an outcome the callback can report for
    /// that entry, such that the result is precisely the entries whose
    /// decision was acceptance.
    #[verifier::loop_isolation(false)]
    pub fn scan_entries<F: Fn(&CatalogEntry) -> bool>(&self, callback: &F) -> (res: Vec<
        CatalogEntry,
    >)
        requires
            forall|e: &CatalogEntry| #[trigger] callback.requires((e,)),
        ensures
            forall|k: int|
                0 <= k < res@.len() ==> spec_entry_value_in(
                    self.spec_entries(),
                    #[trigger] res@[k]@,
                ),
            exists|ds: Seq<bool>|
                {
                    &&& ds.len() == self.spec_entries().len()
                    &&& (forall|j: int|
                        0 <= j < ds.len() ==> callback.ensures(
                            (&self.spec_entries()[j].1,),
                            #[trigger] ds[j],
                        ))
                    &&& res@.map_values(|e: CatalogEntry| e@) == spec_filter_entries(
                        self.spec_entries(),
                        ds,
                    )
                },
    {
        let mut result: Vec<CatalogEntry> = Vec::new();
        let ghost mut ds: Seq<bool> = Seq::empty();
        let mut i: usize = 0;
        proof {
            assert(result@.map_values(|e: CatalogEntry| e@) =~= spec_filter_entries(
                self.spec_entries().take(0),
                ds,
            ));
        }
        while i < self.entries.len()
            invariant
                i <= self.entries@.len(),
                ds.len() == i,
                forall|j: int|
                    0 <= j < ds.len() ==> callback.ensures(
                        (&self.spec_entries()[j].1,),
                        #[trigger] ds[j],
                    ),
                result@.map_values(|e: CatalogEntry| e@) == spec_filter_entries(
                    self.spec_entries().take(i as int),
                    ds,
                ),
                forall|k: int|
                    0 <= k < result@.len() ==> spec_entry_value_in(
                        self.spec_entries(),
                        #[trigger] result@[k]@,
                    ),
            decreases self.entries@.len() - i,
        {
            let keep: bool = callback(&self.entries[i].1);
            proof {
                lemma_filter_entries_snoc(
                    self.spec_entries().take(i as int),
                    ds,
                    self.spec_entries()[i as int],
                    keep,
                );
                assert(self.spec_entries().take(i as int).push(self.spec_entries()[i as int])
                    =~= self.spec_entries().take(i as int + 1));
            }
            let ghost before = result@;
            if keep {
                result.push(self.entries[i].1.clone());
                proof {
                    let k = result@.len() - 1;
                    assert(result@[k]@ == self.spec_entries()[i as int].1@);
                    assert(spec_entry_value_in(self.spec_entries(), result@[k]@));
                    assert(result@.map_values(|e: CatalogEntry| e@) =~= before.map_values(
                        |e: CatalogEntry| e@,
                    ).push(result@[k]@));
                }
            } else {
                proof {
                    assert(spec_filter_entries(self.spec_entries().take(i as int), ds)
                        + Seq::<CatalogEntryModel>::empty() =~= spec_filter_entries(
                        self.spec_entries().take(i as int),
                        ds,
                    ));
                }
            }
            proof {
                ds = ds.push(keep);
            }
            i = i + 1;
        }
        proof {
            assert(self.spec_entries().take(self.entries@.len() as int) =~= self.spec_entries());
        }
        result
    }
}

/// The entry values selected by a per-entry decision sequence, in order.
pub open spec fn spec_filter_entries(entries: Seq<(u64, CatalogEntry)>, ds: Seq<bool>) -> Seq<
    CatalogEntryModel,
>
    decreases entries.len(),
{
    if entries.len() == 0 || ds.len() == 0 {
        Seq::empty()
    } else {
        (if ds[0] {
            seq![entries[0].1@]
        } else {
            Seq::empty()
        }) + spec_filter_entries(entries.drop_first(), ds.drop_first())
    }
}

/// Filtering one more entry appends its value exactly when it was accepted.
proof fn lemma_filter_entries_snoc(
    entries: Seq<(u64, CatalogEntry)>,
    ds: Seq<bool>,
    p: (u64, CatalogEntry),
    b: bool,
)
    requires
        entries.len() == ds.len(),
    ensures
        spec_filter_entries(entries.push(p), ds.push(b)) == spec_filter_entries(entries, ds) + (
        if b {
            seq![p.1@]
        } else {
            Seq::<CatalogEntryModel>::empty()
        }),
    decreases entries.len(),
{
    if entries.len() == 0 {
        assert(entries.push(p)[0] == p);
        assert(entries.push(p).drop_first() =~= entries);
        assert(ds.push(b)[0] == b);
        assert(ds.push(b).drop_first() =~= ds);
        if b {
            assert(seq![p.1@] + Seq::<CatalogEntryModel>::empty() =~= seq![p.1@]);
            assert(Seq::<CatalogEntryModel>::empty() + seq![p.1@] =~= seq![p.1@]);
        } else {
            assert(Seq::<CatalogEntryModel>::empty() + Seq::<CatalogEntryModel>::empty()
                =~= Seq::<CatalogEntryModel>::empty());
        }
    } else {
        assert(entries.push(p)[0] == entries[0]);
        assert(entries.push(p).drop_first() =~= entries.drop_first().push(p));
        assert(ds.push(b)[0] == ds[0]);
        assert(ds.push(b).drop_first() =~= ds.drop_first().push(b));
        lemma_filter_entries_snoc(entries.drop_first(), ds.drop_first(), p, b);
        let head: Seq<CatalogEntryModel> = if ds[0] {
            seq![entries[0].1@]
        } else {
            Seq::empty()
        };
        let tailb: Seq<CatalogEntryModel> = if b {
            seq![p.1@]
        } else {
            Seq::empty()
        };
        assert(head + (spec_filter_entries(entries.drop_first(), ds.drop_first()) + tailb)
            =~= (head + spec_filter_entries(entries.drop_first(), ds.drop_first())) + tailb);
    }
}

/// An empty name index resolves nothing.
pub proof fn lemma_empty_name_index(m: Seq<(String, u64)>, name: Seq<char>)
    requires
        m.len() == 0,
    ensures
        spec_name_index(m, name) is None,
{
}

/// Some stored entry has the value `v`.
pub open spec fn spec_entry_value_in(s: Seq<(u64, CatalogEntry)>, v: CatalogEntryModel) -> bool {
    exists|j: int| 0 <= j < s.len() && #[trigger] s[j].1@ == v
}

/// An indexed handle names the pair at its slot.
proof fn lemma_id_index_some_key(m: Seq<(u64, CatalogEntry)>, id: u64)
    ensures
        spec_id_index(m, id) is Some ==> {
            let j = spec_id_index(m, id)->Some_0;
            0 <= j < m.len() && m[j].0 == id
        },
    decreases m.len(),
{
    if m.len() > 0 && m[0].0 != id {
        lemma_id_index_some_key(m.drop_first(), id);
    }
}

/// A handle held by no pair indexes to nothing.
proof fn lemma_id_index_absent(m: Seq<(u64, CatalogEntry)>, id: u64)
    requires
        forall|i: int| 0 <= i < m.len() ==> #[trigger] m[i].0 != id,
    ensures
        spec_id_index(m, id) is None,
    decreases m.len(),
{
    if m.len() > 0 {
        assert forall|i: int| 0 <= i < m.drop_first().len() implies #[trigger] m.drop_first()[
            i].0 != id by {
            assert(m.drop_first()[i] == m[i + 1]);
        }
        lemma_id_index_absent(m.drop_first(), id);
    }
}

/// An indexed name names the pair at its slot.
proof fn lemma_name_index_some_key(m: Seq<(String, u64)>, name: Seq<char>)
    ensures
        spec_name_index(m, name) is Some ==> {
            let i = spec_name_index(m, name)->Some_0;
            0 <= i < m.len() && m[i].0@ == name
        },
    decreases m.len(),
{
    if m.len() > 0 && m[0].0@ != name {
        lemma_name_index_some_key(m.drop_first(), name);
    }
}

/// A name that indexes to nothing appears nowhere in the list.
proof fn lemma_name_index_none(m: Seq<(String, u64)>, name: Seq<char>)
    ensures
        spec_name_index(m, name) is None ==> forall|i: int|
            0 <= i < m.len() ==> #[trigger] m[i].0@ != name,
    decreases m.len(),
{
    if m.len() > 0 {
        lemma_name_index_none(m.drop_first(), name);
        assert forall|i: int|
            spec_name_index(m, name) is None && 0 <= i < m.len() implies #[trigger] m[i].0@
            != name by {
            if i > 0 {
                assert(m.drop_first()[i - 1] == m[i]);
            }
        }
    }
}

/// A handle that indexes to nothing appears nowhere in the list.
proof fn lemma_id_index_none(m: Seq<(u64, CatalogEntry)>, id: u64)
    ensures
        spec_id_index(m, id) is None ==> forall|i: int|
            0 <= i < m.len() ==> #[trigger] m[i].0 != id,
    decreases m.len(),
{
    if m.len() > 0 {
        lemma_id_index_none(m.drop_first(), id);
        assert forall|i: int|
            spec_id_index(m, id) is None && 0 <= i < m.len() implies #[trigger] m[i].0 != id by {
            if i > 0 {
                assert(m.drop_first()[i - 1] == m[i]);
            }
        }
    }
}

/// Pushing a pair does not disturb lookups of other names, and indexes the
/// pushed name at the end.
proof fn lemma_name_index_push(m: Seq<(String, u64)>, pair: (String, u64), name: Seq<char>)
    ensures
        name == pair.0@ && spec_name_index(m, name) is None ==> spec_name_index(
            m.push(pair),
            name,
        ) == Some(m.len() as int),
        name != pair.0@ ==> spec_name_index(m.push(pair), name) == spec_name_index(m, name),
    decreases m.len(),
{
    if m.len() == 0 {
        assert(m.push(pair).drop_first() =~= Seq::<(String, u64)>::empty());
        assert(spec_name_index(Seq::<(String, u64)>::empty(), name) is None);
    } else {
        lemma_name_index_push(m.drop_first(), pair, name);
        assert(m.push(pair).drop_first() =~= m.drop_first().push(pair));
        assert(m.push(pair)[0] == m[0]);
    }
}

/// Pushing a pair indexes its handle, at the end if it was absent.
proof fn lemma_id_index_push(m: Seq<(u64, CatalogEntry)>, pair: (u64, CatalogEntry))
    ensures
        spec_id_index(m, pair.0) is None ==> spec_id_index(m.push(pair), pair.0) == Some(
            m.len() as int,
        ),
        spec_id_index(m, pair.0) is Some ==> spec_id_index(m.push(pair), pair.0)
            == spec_id_index(m, pair.0),
    decreases m.len(),
{
    if m.len() == 0 {
        assert(m.push(pair).drop_first() =~= Seq::<(u64, CatalogEntry)>::empty());
    } else {
        lemma_id_index_push(m.drop_first(), pair);
        assert(m.push(pair).drop_first() =~= m.drop_first().push(pair));
        assert(m.push(pair)[0] == m[0]);
    }
}

/// Pushing a pair does not disturb lookups of other handles.
proof fn lemma_id_index_push_other(m: Seq<(u64, CatalogEntry)>, pair: (u64, CatalogEntry), id: u64)
    ensures
        id != pair.0 ==> (spec_id_index(m.push(pair), id) is Some <==> spec_id_index(
            m,
            id,
        ) is Some),
        id != pair.0 && spec_id_index(m, id) is Some ==> spec_id_index(m.push(pair), id)->Some_0
            == spec_id_index(m, id)->Some_0,
    decreases m.len(),
{
    if m.len() == 0 {
        assert(m.push(pair)[0] == pair);
        assert(m.push(pair).drop_first() =~= Seq::<(u64, CatalogEntry)>::empty());
        assert(spec_id_index(Seq::<(u64, CatalogEntry)>::empty(), id) is None);
    } else {
        lemma_id_index_push_other(m.drop_first(), pair, id);
        assert(m.push(pair).drop_first() =~= m.drop_first().push(pair));
        assert(m.push(pair)[0] == m[0]);
    }
}

/// Updating a slot in place keeps every handle lookup, provided the handle
/// at that slot is unchanged.
proof fn lemma_id_index_update(m: Seq<(u64, CatalogEntry)>, j: int, pair: (u64, CatalogEntry))
    requires
        0 <= j < m.len(),
        pair.0 == m[j].0,
    ensures
        forall|id: u64| #[trigger]
            spec_id_index(m.update(j, pair), id) == spec_id_index(m, id),
    decreases m.len(),
{
    assert forall|id: u64| #[trigger] spec_id_index(m.update(j, pair), id) == spec_id_index(
        m,
        id,
    ) by {
        lemma_id_index_update_one(m, j, pair, id);
    }
}

proof fn lemma_id_index_update_one(
    m: Seq<(u64, CatalogEntry)>,
    j: int,
    pair: (u64, CatalogEntry),
    id: u64,
)
    requires
        0 <= j < m.len(),
        pair.0 == m[j].0,
    ensures
        spec_id_index(m.update(j, pair), id) == spec_id_index(m, id),
    decreases m.len(),
{
    if j == 0 {
        assert(m.update(0, pair)[0].0 == m[0].0);
        assert(m.update(0, pair).drop_first() =~= m.drop_first());
    } else {
        lemma_id_index_update_one(m.drop_first(), j - 1, pair, id);
        assert(m.update(j, pair).drop_first() =~= m.drop_first().update(j - 1, pair));
        assert(m.update(j, pair)[0] == m[0]);
    }
}

} // verus!
