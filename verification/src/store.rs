//! A keyed record store for deployed modules.
//!
//! Each record pairs a unique name with a binary payload, a numeric id
//! assigned at insertion, and a lifecycle state. Inserting a module always
//! initializes its state to `Stopped`. The store is the verified model of
//! the persistent module database: the process that owns the real database
//! mirrors these operations row for row.

use vstd::prelude::*;

verus! {

/// Identifier assigned to a module at insertion.
pub type ModuleId = i64;

/// Lifecycle state of a deployed module.
#[derive(Clone, Copy, Debug, PartialEq, Eq, Structural)]
pub enum ModuleState {
    Started,
    Stopped,
}

/// Errors of the module store.
#[derive(Clone, Copy, Debug, PartialEq, Eq, Structural)]
pub enum StoreError {
    /// A module with the given name already exists.
    DuplicateName,
    /// No module with the given name exists.
    ModuleNotFound,
    /// A state label is neither `Started` nor `Stopped`.
    InvalidState,
}

/// The textual label of a state, as the persistent store records it.
pub open spec fn state_label(s: ModuleState) -> Seq<char> {
    match s {
        ModuleState::Started => "Started"@,
        ModuleState::Stopped => "Stopped"@,
    }
}

impl ModuleState {
    /// The label under which this state is persisted.
    pub fn label(&self) -> (r: String)
        ensures
            r@ == state_label(*self),
    {
        match self {
            ModuleState::Started => "Started".to_owned(),
            ModuleState::Stopped => "Stopped".to_owned(),
        }
    }

    /// Parses a persisted label back into a state.
    pub fn parse(s: &str) -> (r: Result<ModuleState, StoreError>)
        ensures
            s@ == state_label(ModuleState::Started) ==> r == Ok::<ModuleState, StoreError>(
                ModuleState::Started,
            ),
            s@ == state_label(ModuleState::Stopped) ==> r == Ok::<ModuleState, StoreError>(
                ModuleState::Stopped,
            ),
            s@ != state_label(ModuleState::Started) && s@ != state_label(ModuleState::Stopped)
                ==> r == Err::<ModuleState, StoreError>(StoreError::InvalidState),
    {
        proof {
            reveal_strlit("Started");
            reveal_strlit("Stopped");
            assert("Started"@[2] != "Stopped"@[2]);
        }
        let v = s.to_owned();
        if v == "Started".to_owned() {
            Ok(ModuleState::Started)
        } else if v == "Stopped".to_owned() {
            Ok(ModuleState::Stopped)
        } else {
            Err(StoreError::InvalidState)
        }
    }
}

/// Mathematical model of one stored module.
pub ghost struct Module {
    pub id: int,
    pub name: Seq<char>,
    pub binary: Seq<u8>,
    pub state: ModuleState,
}

/// Mathematical model of the whole store.
pub ghost struct StoreModel {
    pub modules: Seq<Module>,
    pub next_id: int,
}

/// A stored module record.
struct ModuleRecord {
    id: i64,
    name: String,
    binary: Vec<u8>,
    state: ModuleState,
}

impl ModuleRecord {
    spec fn model(self) -> Module {
        Module { id: self.id as int, name: self.name@, binary: self.binary@, state: self.state }
    }
}

/// The module store: records in insertion order, plus the next id to assign.
pub struct ModuleStore {
    records: Vec<ModuleRecord>,
    next_id: i64,
}

impl View for ModuleStore {
    type V = StoreModel;

    closed spec fn view(&self) -> StoreModel {
        StoreModel {
            modules: self.records@.map_values(|r: ModuleRecord| r.model()),
            next_id: self.next_id as int,
        }
    }
}

/// Well-formedness: ids are positive, below the next id to assign, and
/// strictly increasing in record order; names are unique.
pub open spec fn store_wf(m: StoreModel) -> bool {
    &&& 1 <= m.next_id <= i64::MAX
    &&& forall|i: int| 0 <= i < m.modules.len() ==> 1 <= (#[trigger] m.modules[i]).id < m.next_id
    &&& forall|i: int, j: int|
        0 <= i < j < m.modules.len() ==> (#[trigger] m.modules[i]).id < (
        #[trigger] m.modules[j]).id
    &&& forall|i: int, j: int|
        0 <= i < j < m.modules.len() ==> (#[trigger] m.modules[i]).name != (
        #[trigger] m.modules[j]).name
}

/// Whether some module carries this name.
pub open spec fn has_name(ms: Seq<Module>, name: Seq<char>) -> bool {
    exists|i: int| 0 <= i < ms.len() && (#[trigger] ms[i]).name == name
}

/// The store after inserting a fresh module: appended with the next id,
/// in state `Stopped`.
pub open spec fn spec_insert(m: StoreModel, name: Seq<char>, binary: Seq<u8>) -> StoreModel {
    StoreModel {
        modules: m.modules.push(
            Module { id: m.next_id, name, binary, state: ModuleState::Stopped },
        ),
        next_id: m.next_id + 1,
    }
}

/// The module with this id, if any.
pub open spec fn lookup(ms: Seq<Module>, id: int) -> Option<Module>
    decreases ms.len(),
{
    if ms.len() == 0 {
        None
    } else if ms.last().id == id {
        Some(ms.last())
    } else {
        lookup(ms.drop_last(), id)
    }
}

/// The modules after the one named `name` (if any) moves to state `st`.
pub open spec fn spec_set_state(ms: Seq<Module>, name: Seq<char>, st: ModuleState) -> Seq<Module>
    decreases ms.len(),
{
    if ms.len() == 0 {
        ms
    } else if ms.last().name == name {
        ms.drop_last().push(Module { state: st, ..ms.last() })
    } else {
        spec_set_state(ms.drop_last(), name, st).push(ms.last())
    }
}

/// The modules after the one named `name` (if any) is removed.
pub open spec fn spec_delete(ms: Seq<Module>, name: Seq<char>) -> Seq<Module>
    decreases ms.len(),
{
    if ms.len() == 0 {
        ms
    } else if ms.last().name == name {
        ms.drop_last()
    } else {
        spec_delete(ms.drop_last(), name).push(ms.last())
    }
}

/// The ids of the modules in state `st`, in record order.
pub open spec fn ids_with_state(ms: Seq<Module>, st: ModuleState) -> Seq<int>
    decreases ms.len(),
{
    if ms.len() == 0 {
        Seq::empty()
    } else if ms.last().state == st {
        ids_with_state(ms.drop_last(), st).push(ms.last().id)
    } else {
        ids_with_state(ms.drop_last(), st)
    }
}

impl ModuleStore {
    /// Well-formedness of the store.
    pub open spec fn wf(self) -> bool {
        store_wf(self@)
    }

    /// A fresh, empty store.
    pub fn new() -> (r: ModuleStore)
        ensures
            r.wf(),
            r@.modules == Seq::<Module>::empty(),
            r@.next_id == 1,
    {
        let r = ModuleStore { records: Vec::new(), next_id: 1 };
        proof {
            assert(r@.modules =~= Seq::<Module>::empty());
        }
        r
    }

    /// Inserts a new module under `name` in state `Stopped` and returns its
    /// assigned id; rejects a name that is already taken.
    pub fn insert(&mut self, name: &str, binary: &[u8]) -> (r: Result<ModuleId, StoreError>)
        requires
            old(self).wf(),
            old(self)@.next_id < i64::MAX,
        ensures
            final(self).wf(),
            !has_name(old(self)@.modules, name@) ==> {
                &&& r matches Ok(id) && id as int == old(self)@.next_id
                &&& final(self)@ == spec_insert(old(self)@, name@, binary@)
            },
            has_name(old(self)@.modules, name@) ==> r == Err::<ModuleId, StoreError>(
                StoreError::DuplicateName,
            ) && final(self)@ == old(self)@,
    {
        let key: String = name.to_owned();
        let n = self.records.len();
        let mut i: usize = 0;
        while i < n
            invariant
                *self == *old(self),
                old(self).wf(),
                key@ == name@,
                i <= n,
                n == self.records.len(),
                forall|j: int| 0 <= j < i ==> (#[trigger] self@.modules[j]).name != name@,
            decreases n - i,
        {
            if self.records[i].name == key {
                proof {
                    assert(self@.modules[i as int].name == name@);
                }
                return Err(StoreError::DuplicateName);
            }
            i = i + 1;
        }
        let id = self.next_id;
        let record = ModuleRecord {
            id,
            name: key,
            binary: copy_bytes(binary),
            state: ModuleState::Stopped,
        };
        self.records.push(record);
        self.next_id = id + 1;
        proof {
            assert(self@.modules =~= spec_insert(old(self)@, name@, binary@).modules);
        }
        Ok(id)
    }

    /// The binary of the module with this id, if one exists.
    pub fn get(&self, id: ModuleId) -> (r: Option<Vec<u8>>)
        ensures
            r matches Some(b) ==> lookup(self@.modules, id as int) matches Some(m) && m.binary
                == b@,
            r is None ==> lookup(self@.modules, id as int) is None,
    {
        let n = self.records.len();
        let mut i: usize = n;
        proof {
            assert(self@.modules.take(n as int) =~= self@.modules);
        }
        while i > 0
            invariant
                i <= n,
                n == self.records.len(),
                lookup(self@.modules, id as int) == lookup(
                    self@.modules.take(i as int),
                    id as int,
                ),
            decreases i,
        {
            i = i - 1;
            proof {
                assert(self@.modules.take(i + 1).drop_last() =~= self@.modules.take(i as int));
                assert(self@.modules.take(i + 1).last() == self@.modules[i as int]);
            }
            if self.records[i].id == id {
                return Some(copy_bytes(self.records[i].binary.as_slice()));
            }
        }
        proof {
            assert(self@.modules.take(0) =~= Seq::<Module>::empty());
        }
        None
    }

    /// Moves the module named `name` to state `state`; errs when no module
    /// carries that name.
    pub fn set_state(&mut self, name: &str, state: ModuleState) -> (r: Result<(), StoreError>)
        requires
            old(self).wf(),
        ensures
            final(self).wf(),
            has_name(old(self)@.modules, name@) ==> r == Ok::<(), StoreError>(())
                && final(self)@.modules == spec_set_state(old(self)@.modules, name@, state)
                && final(self)@.next_id == old(self)@.next_id,
            !has_name(old(self)@.modules, name@) ==> r == Err::<(), StoreError>(
                StoreError::ModuleNotFound,
            ) && final(self)@ == old(self)@,
    {
        let key: String = name.to_owned();
        let n = self.records.len();
        let mut i: usize = 0;
        while i < n
            invariant
                *self == *old(self),
                old(self).wf(),
                key@ == name@,
                i <= n,
                n == self.records.len(),
                forall|j: int| 0 <= j < i ==> (#[trigger] self@.modules[j]).name != name@,
            decreases n - i,
        {
            if self.records[i].name == key {
                let rec = self.records.remove(i);
                let updated = ModuleRecord { state, ..rec };
                self.records.insert(i, updated);
                proof {
                    let ms = old(self)@.modules;
                    assert forall|j: int|
                        0 <= j < ms.len() && j != i as int implies (#[trigger] ms[j]).name
                        != name@ by {
                        if j < i as int {
                            assert(ms[j].name != ms[i as int].name);
                        } else {
                            assert(ms[i as int].name != ms[j].name);
                        }
                    }
                    assert(self@.modules =~= ms.update(
                        i as int,
                        Module { state, ..ms[i as int] },
                    ));
                    lemma_set_state_at(ms, name@, state, i as int);
                }
                return Ok(());
            }
            i = i + 1;
        }
        Err(StoreError::ModuleNotFound)
    }

    /// Removes the module named `name`; errs when no module carries that
    /// name.
    pub fn delete(&mut self, name: &str) -> (r: Result<(), StoreError>)
        requires
            old(self).wf(),
        ensures
            final(self).wf(),
            has_name(old(self)@.modules, name@) ==> r == Ok::<(), StoreError>(())
                && final(self)@.modules == spec_delete(old(self)@.modules, name@)
                && final(self)@.next_id == old(self)@.next_id,
            !has_name(old(self)@.modules, name@) ==> r == Err::<(), StoreError>(
                StoreError::ModuleNotFound,
            ) && final(self)@ == old(self)@,
    {
        let key: String = name.to_owned();
        let n = self.records.len();
        let mut i: usize = 0;
        while i < n
            invariant
                *self == *old(self),
                old(self).wf(),
                key@ == name@,
                i <= n,
                n == self.records.len(),
                forall|j: int| 0 <= j < i ==> (#[trigger] self@.modules[j]).name != name@,
            decreases n - i,
        {
            if self.records[i].name == key {
                let _ = self.records.remove(i);
                proof {
                    let ms = old(self)@.modules;
                    assert forall|j: int|
                        0 <= j < ms.len() && j != i as int implies (#[trigger] ms[j]).name
                        != name@ by {
                        if j < i as int {
                            assert(ms[j].name != ms[i as int].name);
                        } else {
                            assert(ms[i as int].name != ms[j].name);
                        }
                    }
                    assert(self@.modules =~= ms.remove(i as int));
                    lemma_delete_at(ms, name@, i as int);
                    let new_ms = ms.remove(i as int);
                    assert forall|p: int| 0 <= p < new_ms.len() implies new_ms[p] == (
                    if p < i as int {
                        ms[p]
                    } else {
                        ms[p + 1]
                    }) by {}
                }
                return Ok(());
            }
            i = i + 1;
        }
        Err(StoreError::ModuleNotFound)
    }

    /// The ids of all modules currently in state `state`, in record order.
    pub fn get_modules_by_state(&self, state: ModuleState) -> (r: Vec<ModuleId>)
        ensures
            r@.map_values(|x: i64| x as int) == ids_with_state(self@.modules, state),
    {
        let n = self.records.len();
        let mut out: Vec<ModuleId> = Vec::new();
        let mut i: usize = 0;
        proof {
            assert(self@.modules.take(0) =~= Seq::<Module>::empty());
            assert(out@.map_values(|x: i64| x as int) =~= ids_with_state(
                self@.modules.take(0),
                state,
            ));
        }
        while i < n
            invariant
                i <= n,
                n == self.records.len(),
                out@.map_values(|x: i64| x as int) == ids_with_state(
                    self@.modules.take(i as int),
                    state,
                ),
            decreases n - i,
        {
            proof {
                assert(self@.modules.take(i + 1).drop_last() =~= self@.modules.take(i as int));
                assert(self@.modules.take(i + 1).last() == self@.modules[i as int]);
            }
            let ghost prev = out@;
            if self.records[i].state == state {
                out.push(self.records[i].id);
                proof {
                    assert(out@.map_values(|x: i64| x as int) =~= prev.map_values(
                        |x: i64| x as int,
                    ).push(self@.modules[i as int].id));
                }
            }
            i = i + 1;
        }
        proof {
            assert(self@.modules.take(n as int) =~= self@.modules);
        }
        out
    }
}

/// Copies a byte slice into a fresh vector.
fn copy_bytes(v: &[u8]) -> (r: Vec<u8>)
    ensures
        r@ == v@,
{
    let mut out: Vec<u8> = Vec::new();
    let mut i: usize = 0;
    while i < v.len()
        invariant
            i <= v@.len(),
            out@ == v@.take(i as int),
        decreases v@.len() - i,
    {
        out.push(v[i]);
        proof {
            assert(out@ =~= v@.take(i + 1));
        }
        i = i + 1;
    }
    proof {
        assert(v@.take(v@.len() as int) =~= v@);
    }
    out
}

/// When exactly one module carries `name`, at index `i`, setting the state
/// updates that record in place and leaves every other record unchanged.
proof fn lemma_set_state_at(ms: Seq<Module>, name: Seq<char>, st: ModuleState, i: int)
    requires
        0 <= i < ms.len(),
        ms[i].name == name,
        forall|j: int| 0 <= j < ms.len() && j != i ==> (#[trigger] ms[j]).name != name,
    ensures
        spec_set_state(ms, name, st) == ms.update(i, Module { state: st, ..ms[i] }),
    decreases ms.len(),
{
    if i == ms.len() - 1 {
        assert(spec_set_state(ms, name, st) =~= ms.update(i, Module { state: st, ..ms[i] }));
    } else {
        lemma_set_state_at(ms.drop_last(), name, st, i);
        assert(ms.drop_last().update(i, Module { state: st, ..ms[i] }).push(ms.last())
            =~= ms.update(i, Module { state: st, ..ms[i] }));
    }
}

/// When exactly one module carries `name`, at index `i`, deleting removes
/// that record and leaves every other record, in order.
proof fn lemma_delete_at(ms: Seq<Module>, name: Seq<char>, i: int)
    requires
        0 <= i < ms.len(),
        ms[i].name == name,
        forall|j: int| 0 <= j < ms.len() && j != i ==> (#[trigger] ms[j]).name != name,
    ensures
        spec_delete(ms, name) == ms.remove(i),
    decreases ms.len(),
{
    if i == ms.len() - 1 {
        assert(spec_delete(ms, name) =~= ms.remove(i));
    } else {
        lemma_delete_at(ms.drop_last(), name, i);
        assert(ms.drop_last().remove(i).push(ms.last()) =~= ms.remove(i));
    }
}

/// An id is listed for a state exactly when some module carries that id in
/// that state.
pub proof fn lemma_ids_with_state_iff(ms: Seq<Module>, st: ModuleState, id: int)
    ensures
        ids_with_state(ms, st).contains(id) <==> exists|i: int|
            0 <= i < ms.len() && (#[trigger] ms[i]).id == id && ms[i].state == st,
    decreases ms.len(),
{
    if ms.len() > 0 {
        lemma_ids_with_state_iff(ms.drop_last(), st, id);
        let rest = ids_with_state(ms.drop_last(), st);
        if ms.last().state == st {
            assert forall|k: int| 0 <= k < rest.len() implies rest.push(ms.last().id)[k]
                == rest[k] by {}
            assert(rest.push(ms.last().id).contains(id) <==> rest.contains(id) || ms.last().id
                == id) by {
                if rest.contains(id) {
                    let k = choose|k: int| 0 <= k < rest.len() && rest[k] == id;
                    assert(rest.push(ms.last().id)[k] == id);
                }
                if ms.last().id == id {
                    assert(rest.push(ms.last().id)[rest.len() as int] == id);
                }
            }
        }
        if exists|i: int| 0 <= i < ms.len() && (#[trigger] ms[i]).id == id && ms[i].state == st {
            let i = choose|i: int|
                0 <= i < ms.len() && (#[trigger] ms[i]).id == id && ms[i].state == st;
            if i < ms.len() - 1 {
                assert(ms.drop_last()[i].id == id && ms.drop_last()[i].state == st);
            }
        }
        if exists|i: int|
            0 <= i < ms.drop_last().len() && (#[trigger] ms.drop_last()[i]).id == id
                && ms.drop_last()[i].state == st {
            let i = choose|i: int|
                0 <= i < ms.drop_last().len() && (#[trigger] ms.drop_last()[i]).id == id
                    && ms.drop_last()[i].state == st;
            assert(ms[i].id == id && ms[i].state == st);
        }
    }
}

/// Law: inserting a fresh module then fetching its assigned id returns the
/// identical binary; the new id is listed among the stopped modules and not
/// among the started ones, and moving the module to `Started` flips both
/// memberships.
pub proof fn lemma_store_round_trip(m: StoreModel, name: Seq<char>, binary: Seq<u8>)
    requires
        store_wf(m),
        !has_name(m.modules, name),
    ensures
        ({
            let id = m.next_id;
            let m1 = spec_insert(m, name, binary);
            let after = spec_set_state(m1.modules, name, ModuleState::Started);
            &&& lookup(m1.modules, id) matches Some(md) && md.binary == binary
            &&& ids_with_state(m1.modules, ModuleState::Stopped).contains(id)
            &&& !ids_with_state(m1.modules, ModuleState::Started).contains(id)
            &&& ids_with_state(after, ModuleState::Started).contains(id)
            &&& !ids_with_state(after, ModuleState::Stopped).contains(id)
        }),
{
    let id = m.next_id;
    let m1 = spec_insert(m, name, binary);
    let fresh = Module { id, name, binary, state: ModuleState::Stopped };
    assert(m1.modules.last() == fresh);
    assert(m1.modules.drop_last() =~= m.modules);

    // The fresh id is listed as stopped.
    let stopped1 = ids_with_state(m1.modules, ModuleState::Stopped);
    assert(stopped1 == ids_with_state(m.modules, ModuleState::Stopped).push(id));
    assert(stopped1[stopped1.len() - 1] == id);
    assert(stopped1.contains(id));

    // The fresh id is newer than every stored id, so no existing module
    // carries it in any state.
    assert forall|i: int| 0 <= i < m.modules.len() implies (#[trigger] m.modules[i]).id != id by {}
    lemma_ids_with_state_iff(m.modules, ModuleState::Started, id);
    assert(ids_with_state(m1.modules, ModuleState::Started) == ids_with_state(
        m.modules,
        ModuleState::Started,
    ));

    // Setting the state rewrites exactly the fresh record.
    let started_mod = Module { state: ModuleState::Started, ..fresh };
    assert forall|j: int|
        0 <= j < m1.modules.len() && j != m1.modules.len() - 1 implies (
    #[trigger] m1.modules[j]).name != name by {
        assert(m1.modules[j] == m.modules[j]);
        if m.modules[j].name == name {
            assert(has_name(m.modules, name));
        }
    }
    lemma_set_state_at(m1.modules, name, ModuleState::Started, m1.modules.len() - 1);
    let after = spec_set_state(m1.modules, name, ModuleState::Started);
    assert(after =~= m.modules.push(started_mod));
    assert(after.drop_last() =~= m.modules);
    assert(after.last() == started_mod);

    let started2 = ids_with_state(after, ModuleState::Started);
    assert(started2 == ids_with_state(m.modules, ModuleState::Started).push(id));
    assert(started2[started2.len() - 1] == id);
    assert(started2.contains(id));
    lemma_ids_with_state_iff(m.modules, ModuleState::Stopped, id);
    assert(ids_with_state(after, ModuleState::Stopped) == ids_with_state(
        m.modules,
        ModuleState::Stopped,
    ));
}

} // verus!
