use raft::kv::KvStore;

fn s(text: &str) -> String {
    text.to_string()
}

#[test]
fn kv_new_store_is_empty() {
    let kv = KvStore::new();
    assert_eq!(kv.get_value(&s("a")), None);
}

#[test]
fn kv_read_gives_back_the_write() {
    let mut kv = KvStore::new();
    kv.set_value(&s("a"), s("1"));
    assert_eq!(kv.get_value(&s("a")), Some(s("1")));
}

#[test]
fn kv_second_write_replaces_the_first() {
    let mut kv = KvStore::new();
    kv.set_value(&s("a"), s("1"));
    kv.set_value(&s("a"), s("2"));
    assert_eq!(kv.get_value(&s("a")), Some(s("2")));
}

#[test]
fn kv_deleted_key_reads_absent() {
    let mut kv = KvStore::new();
    kv.set_value(&s("a"), s("1"));
    kv.del_key(&s("a"));
    assert_eq!(kv.get_value(&s("a")), None);
}

#[test]
fn kv_other_keys_are_untouched() {
    let mut kv = KvStore::new();
    kv.set_value(&s("a"), s("1"));
    kv.set_value(&s("b"), s("2"));
    kv.del_key(&s("a"));
    assert_eq!(kv.get_value(&s("b")), Some(s("2")));
}

#[test]
fn kv_deleting_a_missing_key_changes_nothing() {
    let mut kv = KvStore::new();
    kv.set_value(&s("a"), s("1"));
    kv.del_key(&s("zzz"));
    assert_eq!(kv.get_value(&s("a")), Some(s("1")));
}
