use kvstore::parse::Command;
use kvstore::store::{KVStore, Reponse};

fn get(k: &str) -> Command {
    Command::Get(k.as_bytes().to_vec())
}

#[test]
fn delete_of_missing_key_is_error() {
    let mut store = KVStore::default();
    assert_eq!(Reponse::Error, store.exec_command(Command::Delete(b"nope".to_vec())));
    store.exec_command(Command::Put(b"k".to_vec(), b"v".to_vec()));
    assert_eq!(Reponse::Okay, store.exec_command(Command::Delete(b"k".to_vec())));
    assert_eq!(Reponse::Error, store.exec_command(Command::Delete(b"k".to_vec())));
    assert_eq!(Reponse::Error, store.exec_command(get("k")));
}

#[test]
fn clear_answers_ok_and_empties() {
    let mut store = KVStore::new();
    assert_eq!(Reponse::Okay, store.exec_command(Command::Clear));
    for k in ["a", "b", "c"] {
        store.exec_command(Command::Put(k.as_bytes().to_vec(), b"1".to_vec()));
    }
    assert_eq!(Reponse::Value(b"1".to_vec()), store.exec_command(get("b")));
    assert_eq!(Reponse::Okay, store.exec_command(Command::Clear));
    for k in ["a", "b", "c"] {
        assert_eq!(Reponse::Error, store.exec_command(get(k)));
    }
}

#[test]
fn keys_are_compared_by_bytes() {
    let mut store = KVStore::new();
    store.exec_command(Command::Put(b"ab".to_vec(), b"1".to_vec()));
    store.exec_command(Command::Put(b"a".to_vec(), b"2".to_vec()));
    store.exec_command(Command::Put(b"abc".to_vec(), b"3".to_vec()));
    assert_eq!(Reponse::Value(b"1".to_vec()), store.exec_command(get("ab")));
    assert_eq!(Reponse::Value(b"2".to_vec()), store.exec_command(get("a")));
    assert_eq!(Reponse::Value(b"3".to_vec()), store.exec_command(get("abc")));
    store.exec_command(Command::Delete(b"a".to_vec()));
    assert_eq!(Reponse::Value(b"1".to_vec()), store.exec_command(get("ab")));
    assert_eq!(Reponse::Value(b"3".to_vec()), store.exec_command(get("abc")));
}

#[test]
fn get_after_set_and_overwrite() {
    let mut store = KVStore::new();
    store.exec_command(Command::Put(b"k".to_vec(), b"v1".to_vec()));
    store.exec_command(Command::Put(b"k".to_vec(), b"v2".to_vec()));
    assert_eq!(b"v2".to_vec(), store.exec_command(get("k")).unwrap());
    // A read leaves the store as it was.
    assert_eq!(b"v2".to_vec(), store.exec_command(get("k")).unwrap());
}
