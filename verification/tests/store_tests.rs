use kvs::{KvStore, KvsError, LogUpdate};

#[test]
fn open_empty_get_none() {
    let st = KvStore::open(String::new());
    assert_eq!(st.get("a".to_string()), Ok(None));
}

#[test]
fn set_overwrites() {
    let mut st = KvStore::open(String::new());
    st.set("a".to_string(), "1".to_string()).unwrap();
    st.set("a".to_string(), "2".to_string()).unwrap();
    assert_eq!(st.get("a".to_string()), Ok(Some("2".to_string())));
}

#[test]
fn set_remove_then_remove_again() {
    let mut st = KvStore::open(String::new());
    st.set("a".to_string(), "1".to_string()).unwrap();
    st.remove("a".to_string()).unwrap();
    assert_eq!(st.get("a".to_string()), Ok(None));
    assert!(matches!(st.remove("a".to_string()), Err(KvsError::KeyNotFound)));
}

#[test]
fn distinct_keys_keep_their_values() {
    let mut st = KvStore::open(String::new());
    st.set("a".to_string(), "1".to_string()).unwrap();
    st.set("b".to_string(), "2".to_string()).unwrap();
    assert_eq!(st.get("a".to_string()), Ok(Some("1".to_string())));
    assert_eq!(st.get("b".to_string()), Ok(Some("2".to_string())));
}

#[test]
fn set_returns_appended_record_text() {
    let mut st = KvStore::open(String::new());
    let upd = st.set("a".to_string(), "1".to_string()).unwrap();
    match upd {
        LogUpdate::Appended(s) => assert_eq!(s, "{S\"a\"\"1\"}"),
        LogUpdate::Rewritten(_) => panic!("no compaction expected on the first write"),
    }
    let upd2 = st.remove("a".to_string()).unwrap();
    match upd2 {
        LogUpdate::Appended(s) => assert_eq!(s, "{R\"a\"}"),
        LogUpdate::Rewritten(_) => panic!("no compaction expected on the second write"),
    }
    assert_eq!(st.log_text(), "{S\"a\"\"1\"}{R\"a\"}");
}

#[test]
fn reopen_after_clean_shutdown() {
    let mut st = KvStore::open(String::new());
    st.set("a".to_string(), "1".to_string()).unwrap();
    st.set("a".to_string(), "2".to_string()).unwrap();
    let text = st.log_text();
    drop(st);
    let st2 = KvStore::open(text);
    assert_eq!(st2.get("a".to_string()), Ok(Some("2".to_string())));
    assert_eq!(st2.get("b".to_string()), Ok(None));
}

#[test]
fn compaction_keeps_every_live_pair() {
    let mut st = KvStore::open(String::new());
    let mut rewritten = 0;
    for i in 0..1000 {
        let upd = st.set(format!("key{}", i), format!("val{}", i)).unwrap();
        if matches!(upd, LogUpdate::Rewritten(_)) {
            rewritten += 1;
        }
    }
    assert!(rewritten >= 1, "the growth threshold should have triggered compaction");
    for i in 0..1000 {
        assert_eq!(st.get(format!("key{}", i)), Ok(Some(format!("val{}", i))));
    }
    assert_eq!(st.get("other".to_string()), Ok(None));
}

#[test]
fn compaction_drops_stale_records() {
    let mut st = KvStore::open(String::new());
    let mut last_full: Option<String> = None;
    for i in 0..1000 {
        let upd = st.set("same".to_string(), format!("v{}", i)).unwrap();
        if let LogUpdate::Rewritten(full) = upd {
            last_full = Some(full);
        }
    }
    let full = last_full.expect("compaction should have run");
    // one live key: the compacted log holds exactly its one record
    assert!(full.starts_with("{S\"same\""));
    assert_eq!(full.matches("{S").count(), 1);
    assert_eq!(st.get("same".to_string()), Ok(Some("v999".to_string())));
}

#[test]
fn reopen_after_compaction() {
    let mut st = KvStore::open(String::new());
    for i in 0..1000 {
        st.set(format!("key{}", i), format!("val{}", i)).unwrap();
    }
    let st2 = KvStore::open(st.log_text());
    assert_eq!(st2.get("key0".to_string()), Ok(Some("val0".to_string())));
    assert_eq!(st2.get("key999".to_string()), Ok(Some("val999".to_string())));
    assert_eq!(st2.get("key1000".to_string()), Ok(None));
}

#[test]
fn repeated_compaction_is_a_no_op() {
    let mut st = KvStore::open(String::new());
    let mut rewritten = 0;
    for round in 0..2 {
        for i in 0..1000 {
            let upd = st.set(format!("key{}", i), format!("r{}v{}", round, i)).unwrap();
            if matches!(upd, LogUpdate::Rewritten(_)) {
                rewritten += 1;
            }
        }
    }
    assert!(rewritten >= 2, "two rounds should each have crossed the threshold");
    for i in 0..1000 {
        assert_eq!(st.get(format!("key{}", i)), Ok(Some(format!("r1v{}", i))));
    }
}

#[test]
fn open_keeps_prefix_before_damaged_tail() {
    let st = KvStore::open("{S\"a\"\"1\"}{S\"b".to_string());
    assert_eq!(st.get("a".to_string()), Ok(Some("1".to_string())));
    assert_eq!(st.get("b".to_string()), Ok(None));
    assert_eq!(st.log_text(), "{S\"a\"\"1\"}");
}

#[test]
fn open_replays_tombstones() {
    let st = KvStore::open("{S\"a\"\"1\"}{S\"b\"\"2\"}{R\"a\"}".to_string());
    assert_eq!(st.get("a".to_string()), Ok(None));
    assert_eq!(st.get("b".to_string()), Ok(Some("2".to_string())));
}

#[test]
fn keys_and_values_with_escapes_survive() {
    let mut st = KvStore::open(String::new());
    st.set("qu\"ote".to_string(), "ba\\ck".to_string()).unwrap();
    let st2 = KvStore::open(st.log_text());
    assert_eq!(st2.get("qu\"ote".to_string()), Ok(Some("ba\\ck".to_string())));
}
