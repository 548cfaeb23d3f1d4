use xxfunc::store::{ModuleState, ModuleStore, StoreError};

#[test]
fn insert_then_get_round_trip() {
    let mut store = ModuleStore::new();
    let id = store.insert("alpha", &[1, 2, 3]).unwrap();
    assert_eq!(id, 1);
    let binary = store.get(id).unwrap();
    assert_eq!(binary, vec![1, 2, 3]);
}

#[test]
fn insert_assigns_increasing_ids() {
    let mut store = ModuleStore::new();
    let a = store.insert("alpha", &[1]).unwrap();
    let b = store.insert("beta", &[2]).unwrap();
    assert_eq!(a, 1);
    assert_eq!(b, 2);
    assert_eq!(store.get(a).unwrap(), vec![1]);
    assert_eq!(store.get(b).unwrap(), vec![2]);
}

#[test]
fn duplicate_name_rejected() {
    let mut store = ModuleStore::new();
    store.insert("alpha", &[1]).unwrap();
    let r = store.insert("alpha", &[2]);
    assert_eq!(r, Err(StoreError::DuplicateName));
    assert_eq!(store.get(1).unwrap(), vec![1]);
}

#[test]
fn get_missing_returns_none() {
    let store = ModuleStore::new();
    assert!(store.get(42).is_none());
}

#[test]
fn empty_binary_round_trips() {
    let mut store = ModuleStore::new();
    let id = store.insert("empty", &[]).unwrap();
    assert_eq!(store.get(id).unwrap(), Vec::<u8>::new());
}

#[test]
fn list_by_state_flips_on_start() {
    let mut store = ModuleStore::new();
    let id = store.insert("alpha", &[9]).unwrap();
    assert_eq!(store.get_modules_by_state(ModuleState::Stopped), vec![id]);
    assert_eq!(store.get_modules_by_state(ModuleState::Started), Vec::<i64>::new());
    store.set_state("alpha", ModuleState::Started).unwrap();
    assert_eq!(store.get_modules_by_state(ModuleState::Started), vec![id]);
    assert_eq!(store.get_modules_by_state(ModuleState::Stopped), Vec::<i64>::new());
}

#[test]
fn list_by_state_keeps_record_order() {
    let mut store = ModuleStore::new();
    let a = store.insert("alpha", &[1]).unwrap();
    let b = store.insert("beta", &[2]).unwrap();
    let c = store.insert("gamma", &[3]).unwrap();
    store.set_state("beta", ModuleState::Started).unwrap();
    assert_eq!(store.get_modules_by_state(ModuleState::Stopped), vec![a, c]);
    assert_eq!(store.get_modules_by_state(ModuleState::Started), vec![b]);
}

#[test]
fn set_state_unknown_module_errs() {
    let mut store = ModuleStore::new();
    let r = store.set_state("ghost", ModuleState::Started);
    assert_eq!(r, Err(StoreError::ModuleNotFound));
}

#[test]
fn delete_removes_module() {
    let mut store = ModuleStore::new();
    let id = store.insert("alpha", &[1]).unwrap();
    store.delete("alpha").unwrap();
    assert!(store.get(id).is_none());
    assert_eq!(store.delete("alpha"), Err(StoreError::ModuleNotFound));
}

#[test]
fn state_labels_round_trip() {
    assert_eq!(ModuleState::Started.label(), "Started");
    assert_eq!(ModuleState::Stopped.label(), "Stopped");
    assert_eq!(ModuleState::parse("Started"), Ok(ModuleState::Started));
    assert_eq!(ModuleState::parse("Stopped"), Ok(ModuleState::Stopped));
    assert_eq!(ModuleState::parse("Running"), Err(StoreError::InvalidState));
}
