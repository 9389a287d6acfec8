use kcv::error::{Error, KeychainError};
use kcv::store::{found_or_absent, MemStore, Store, ERR_SEC_ITEM_NOT_FOUND};

#[test]
fn absent_environment_loads_as_none() {
    let store = MemStore::new();
    assert_eq!(store.load("nothing").unwrap(), None);
}

#[test]
fn saved_bytes_come_back_verbatim() {
    let mut store = MemStore::new();
    store.save("prod", b"payload").unwrap();
    assert_eq!(store.load("prod").unwrap(), Some(b"payload".to_vec()));
}

#[test]
fn save_replaces_previous_contents() {
    let mut store = MemStore::new();
    store.save("prod", b"first").unwrap();
    store.save("prod", b"second").unwrap();
    assert_eq!(store.load("prod").unwrap(), Some(b"second".to_vec()));
}

#[test]
fn lists_environments_sorted() {
    let mut store = MemStore::new();
    store.save("zed", b"z").unwrap();
    store.save("alpha", b"a").unwrap();
    store.save("mid", b"m").unwrap();
    assert_eq!(
        store.environments().unwrap(),
        vec!["alpha".to_string(), "mid".to_string(), "zed".to_string()]
    );
}

#[test]
fn lists_nothing_when_empty() {
    let store = MemStore::new();
    assert_eq!(store.environments().unwrap(), Vec::<String>::new());
}

#[test]
fn delete_removes_an_environment() {
    let mut store = MemStore::new();
    store.save("gone", b"x").unwrap();
    store.save("kept", b"y").unwrap();
    store.delete("gone").unwrap();
    assert_eq!(store.load("gone").unwrap(), None);
    assert_eq!(store.load("kept").unwrap(), Some(b"y".to_vec()));
    assert_eq!(store.environments().unwrap(), vec!["kept".to_string()]);
}

#[test]
fn deleting_something_absent_is_not_an_error() {
    let mut store = MemStore::new();
    assert!(store.delete("never-existed").is_ok());
}

#[test]
fn environments_are_isolated() {
    let mut store = MemStore::new();
    store.save("prod", b"p").unwrap();
    store.save("dev", b"d").unwrap();
    assert_eq!(store.load("prod").unwrap(), Some(b"p".to_vec()));
    assert_eq!(store.load("dev").unwrap(), Some(b"d".to_vec()));
}

#[test]
fn a_not_found_lookup_is_absence_and_other_faults_are_errors() {
    assert_eq!(found_or_absent::<u8>(Ok(7)).unwrap(), Some(7));
    let absent = KeychainError { code: ERR_SEC_ITEM_NOT_FOUND, message: "gone".to_string() };
    assert_eq!(found_or_absent::<u8>(Err(absent)).unwrap(), None);
    let denied = KeychainError { code: -25293, message: "denied".to_string() };
    match found_or_absent::<u8>(Err(denied)) {
        Err(Error::Keychain(k)) => {
            assert_eq!(k.code, -25293);
            assert_eq!(k.message, "denied");
        }
        other => panic!("unexpected {:?}", other.map(|_| ())),
    }
}
