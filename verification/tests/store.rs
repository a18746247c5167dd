use kvs::{CommandPos, DbError, KvStore, KvsCommand, LogEntry};

fn put(key: &str, value: &str, end: u64) -> LogEntry {
    LogEntry { command: KvsCommand::set(key.to_string(), value.to_string()), end }
}

fn rm(key: &str, end: u64) -> LogEntry {
    LogEntry { command: KvsCommand::remove(key.to_string()), end }
}

fn fresh() -> KvStore {
    let mut s = KvStore::open(&vec![], &vec![]).expect("empty open");
    s.switch_writer(0);
    s
}

#[test]
fn open_empty_starts_at_generation_one() {
    let s = KvStore::open(&vec![], &vec![]).unwrap();
    assert_eq!(s.current_gen(), 1);
    assert_eq!(s.writer_pos(), 0);
    assert_eq!(s.stale_bytes(), 0);
    assert_eq!(s.get("a"), None);
}

#[test]
fn set_then_get_gives_the_written_position() {
    let mut s = fresh();
    let due = s.set("a".to_string(), "1", 10);
    assert!(!due);
    assert_eq!(s.get("a"), Some(CommandPos { gen: 1, pos: 0, len: 10 }));
    assert_eq!(s.writer_pos(), 10);
    let due = s.set("b".to_string(), "2", 7);
    assert!(!due);
    assert_eq!(s.get("b"), Some(CommandPos { gen: 1, pos: 10, len: 17 }));
}

#[test]
fn overwrite_counts_the_superseded_len_as_stale() {
    let mut s = fresh();
    s.set("a".to_string(), "1", 10);
    s.set("b".to_string(), "1", 10);
    s.set("b".to_string(), "2", 10);
    // the superseded position of b was 10..20, whose len field holds 20
    assert_eq!(s.stale_bytes(), 20);
    assert_eq!(s.get("b"), Some(CommandPos { gen: 1, pos: 20, len: 30 }));
}

#[test]
fn compaction_is_due_past_one_mebibyte_of_stale_bytes() {
    let mut s = fresh();
    s.advance_writer(1024 * 1024);
    assert!(!s.set("a".to_string(), "1", 10));
    // the old position of a ends at 1024 * 1024 + 10
    assert!(s.set("a".to_string(), "2", 10));
    assert_eq!(s.stale_bytes(), 1024 * 1024 + 10);
}

#[test]
fn exactly_the_threshold_is_not_due() {
    let mut s = fresh();
    s.count_stale(1024 * 1024 - 10);
    assert!(!s.set("a".to_string(), "1", 10));
    assert!(!s.set("a".to_string(), "2", 10));
    assert_eq!(s.stale_bytes(), 1024 * 1024);
}

#[test]
fn remove_present_and_absent() {
    let mut s = fresh();
    s.set("a".to_string(), "1", 10);
    match s.remove("a") {
        Ok(p) => assert_eq!(p, CommandPos { gen: 1, pos: 0, len: 10 }),
        Err(_) => panic!("a was set"),
    }
    assert_eq!(s.get("a"), None);
    assert!(matches!(s.remove("a"), Err(DbError::KeyNotFoundErr)));
}

#[test]
fn open_replays_logs_in_order() {
    let gens = vec![1u64, 2];
    let logs = vec![
        vec![put("a", "1", 10), put("b", "2", 20), put("a", "3", 30)],
        vec![rm("b", 8), put("c", "4", 18)],
    ];
    let s = KvStore::open(&gens, &logs).unwrap();
    assert_eq!(s.current_gen(), 3);
    assert_eq!(s.get("a"), Some(CommandPos { gen: 1, pos: 20, len: 30 }));
    assert_eq!(s.get("b"), None);
    assert_eq!(s.get("c"), Some(CommandPos { gen: 2, pos: 8, len: 18 }));
    // a superseded (len 10), b removed (len 20) plus the removal itself (8 bytes)
    assert_eq!(s.stale_bytes(), 10 + 20 + 8);
}

#[test]
fn open_refuses_a_generation_that_cannot_be_followed() {
    assert!(KvStore::open(&vec![u64::MAX], &vec![vec![]]).is_none());
}

#[test]
fn open_refuses_a_stale_count_that_overflows() {
    let gens = vec![1u64];
    let logs = vec![vec![put("a", "1", u64::MAX), put("a", "2", u64::MAX), put("a", "3", u64::MAX)]];
    assert!(KvStore::open(&gens, &logs).is_none());
}

#[test]
fn reopen_restores_what_was_written() {
    // a store writes two puts and a removal to generation 1 ...
    let mut s = fresh();
    s.set("x".to_string(), "1", 12);
    s.set("y".to_string(), "2", 12);
    let _ = s.remove("x").unwrap();
    s.advance_writer(9);
    // ... and a store opened on that log holds the same positions.
    let logs = vec![vec![put("x", "1", 12), put("y", "2", 24), rm("x", 33)]];
    let t = KvStore::open(&vec![1], &logs).unwrap();
    assert_eq!(t.get("x"), s.get("x"));
    assert_eq!(t.get("y"), s.get("y"));
    assert_eq!(t.get("y"), Some(CommandPos { gen: 1, pos: 12, len: 24 }));
}

#[test]
fn compaction_relocates_in_key_order() {
    let mut s = fresh();
    s.set("b".to_string(), "1", 10);
    s.set("a".to_string(), "2", 10);
    s.set("c".to_string(), "3", 10);
    let mut c = s.begin_compaction();
    assert_eq!(c.gen, 2);
    assert_eq!(s.current_gen(), 3);
    s.switch_writer(0);
    s.add_reader(c.gen);
    let plan = s.compaction_plan();
    assert_eq!(
        plan,
        vec![
            CommandPos { gen: 1, pos: 10, len: 20 },
            CommandPos { gen: 1, pos: 0, len: 10 },
            CommandPos { gen: 1, pos: 20, len: 30 },
        ]
    );
    s.relocate_next(&mut c, 20);
    s.relocate_next(&mut c, 10);
    s.relocate_next(&mut c, 10);
    assert_eq!(c.next_pos, 40);
    assert_eq!(c.done, 3);
    assert_eq!(s.get("a"), Some(CommandPos { gen: 2, pos: 0, len: 20 }));
    assert_eq!(s.get("b"), Some(CommandPos { gen: 2, pos: 20, len: 30 }));
    assert_eq!(s.get("c"), Some(CommandPos { gen: 2, pos: 30, len: 40 }));
    let stale = s.stale_gens(c.gen);
    assert_eq!(stale, vec![1]);
    for g in stale {
        s.drop_reader(g);
    }
    assert!(s.stale_gens(c.gen).is_empty());
    assert!(s.stale_gens(4).len() == 2);
    s.finish_compaction();
    assert_eq!(s.stale_bytes(), 0);
}

#[test]
fn command_pos_from_range_keeps_the_end() {
    let p: CommandPos = (3u64, 5u64..9u64).into();
    assert_eq!(p, CommandPos { gen: 3, pos: 5, len: 9 });
}

#[test]
fn commands_read_back_for_lookups() {
    match KvsCommand::set("k".to_string(), "v".to_string()).into_value() {
        Ok(Some(v)) => assert_eq!(v, "v"),
        _ => panic!("a put carries its value"),
    }
    assert!(matches!(
        KvsCommand::remove("k".to_string()).into_value(),
        Err(DbError::UnexpectCommandErr)
    ));
}

#[test]
fn keys_are_walked_in_string_order() {
    let mut s = fresh();
    for (i, k) in ["é", "z", "ab", "a", "b"].iter().enumerate() {
        s.set(k.to_string(), "v", 1 + i as u64);
    }
    let plan = s.compaction_plan();
    let mut keys: Vec<&str> = vec!["é", "z", "ab", "a", "b"];
    keys.sort();
    let expect: Vec<CommandPos> = keys.iter().map(|k| s.get(k).unwrap()).collect();
    assert_eq!(plan, expect);
    assert_eq!(keys, vec!["a", "ab", "b", "z", "é"]);
}

#[test]
fn reopen_after_an_exact_compaction_restores_what_was_written() {
    let mut s = fresh();
    s.set("b".to_string(), "1", 10);
    s.set("a".to_string(), "2", 12);
    s.set("b".to_string(), "3", 14);
    let mut c = s.begin_compaction();
    s.switch_writer(0);
    s.add_reader(c.gen);
    // each live command is copied exactly: a (12 bytes), then b (14 bytes)
    s.relocate_next(&mut c, 12);
    s.relocate_next(&mut c, 14);
    for g in s.stale_gens(c.gen) {
        s.drop_reader(g);
    }
    s.finish_compaction();
    s.set("c".to_string(), "4", 9);
    let logs = vec![vec![put("a", "2", 12), put("b", "3", 26)], vec![put("c", "4", 9)]];
    let t = KvStore::open(&vec![2, 3], &logs).unwrap();
    for k in ["a", "b", "c", "d"] {
        assert_eq!(t.get(k), s.get(k));
    }
    assert_eq!(t.get("b"), Some(CommandPos { gen: 2, pos: 12, len: 26 }));
    assert_eq!(t.current_gen(), 4);
    assert_eq!(s.current_gen(), 3);
}
