use kvstore::state::RuntimeState;

#[test]
fn state_get_after_set() {
    let mut state = RuntimeState::new();
    assert_eq!(None, state.get(b"k"));
    state.set(b"k", b"v1");
    assert_eq!(Some(b"v1".to_vec()), state.get(b"k"));
    state.set(b"other", b"x");
    state.set(b"k", b"v2");
    assert_eq!(Some(b"v2".to_vec()), state.get(b"k"));
    assert_eq!(Some(b"x".to_vec()), state.get(b"other"));
    let fresh = RuntimeState::default();
    assert_eq!(None, fresh.get(b"k"));
}

#[test]
fn state_reads_the_last_set_of_each_key() {
    let mut state = RuntimeState::new();
    let sets: [(&[u8], &[u8]); 5] = [(b"a", b"1"), (b"b", b"2"), (b"a", b"3"), (b"c", b"4"), (b"b", b"5")];
    for (k, v) in sets {
        state.set(k, v);
    }
    assert_eq!(Some(b"3".to_vec()), state.get(b"a"));
    assert_eq!(Some(b"5".to_vec()), state.get(b"b"));
    assert_eq!(Some(b"4".to_vec()), state.get(b"c"));
    assert_eq!(None, state.get(b"d"));
}
