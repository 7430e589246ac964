use kvs::directory::{Config, DirEntry, DiskAction};
use kvs::engine::KvsEngine;
use kvs::error::KvError;
use kvs::record::{decode_record, encode_record, Record};
use kvs::store::KvStore;

fn small(rotation_threshold: usize, compaction_threshold: usize) -> KvStore {
    let config = Config::new(rotation_threshold, compaction_threshold).unwrap();
    KvStore::open_with(Vec::new(), config).unwrap()
}

fn names(store: &KvStore) -> Vec<String> {
    store.entries().into_iter().map(|e| e.name).collect()
}

fn records(data: &[u8]) -> Vec<Record> {
    let mut out = Vec::new();
    let mut pos = 0;
    while pos < data.len() {
        let (record, end) = decode_record(data, pos).unwrap();
        out.push(record);
        pos = end;
    }
    out
}

fn s(text: &str) -> String {
    text.to_owned()
}

#[test]
fn basic_set_get_remove() {
    let mut kv = KvStore::open(Vec::new()).unwrap();
    kv.set(s("foo"), s("bar")).unwrap();
    assert_eq!(kv.get(s("foo")).unwrap(), Some(s("bar")));
    kv.remove(s("foo")).unwrap();
    assert_eq!(kv.get(s("foo")).unwrap(), None);
}

#[test]
fn overwrite_keeps_the_last_value() {
    let mut kv = KvStore::open(Vec::new()).unwrap();
    kv.set(s("k"), s("1")).unwrap();
    kv.set(s("k"), s("2")).unwrap();
    kv.set(s("k"), s("3")).unwrap();
    assert_eq!(kv.get(s("k")).unwrap(), Some(s("3")));
}

#[test]
fn restart_reads_the_directory_back() {
    let mut kv = KvStore::open(Vec::new()).unwrap();
    kv.set(s("k"), s("1")).unwrap();
    kv.set(s("k"), s("2")).unwrap();
    kv.set(s("k"), s("3")).unwrap();
    let directory = kv.entries();
    drop(kv);
    let reopened = KvStore::open(directory).unwrap();
    assert_eq!(reopened.get(s("k")).unwrap(), Some(s("3")));
}

#[test]
fn rotation_makes_one_immutable_segment() {
    let mut kv = small(3, 5);
    kv.set(s("a"), s("A")).unwrap();
    kv.set(s("b"), s("B")).unwrap();
    kv.set(s("c"), s("C")).unwrap();
    kv.set(s("d"), s("D")).unwrap();
    assert_eq!(names(&kv), vec![s("1.immutable"), s("db.active")]);
    assert_eq!(kv.get(s("a")).unwrap(), Some(s("A")));
    assert_eq!(kv.get(s("b")).unwrap(), Some(s("B")));
    assert_eq!(kv.get(s("c")).unwrap(), Some(s("C")));
    assert_eq!(kv.get(s("d")).unwrap(), Some(s("D")));
}

#[test]
fn compaction_drops_overwritten_records() {
    let mut kv = small(3, 2);
    for v in ["1", "2", "3", "4", "5", "6"] {
        kv.set(s("x"), s(v)).unwrap();
    }
    kv.set(s("y"), s("Y")).unwrap();
    let mut sets_of_x = 0;
    for entry in kv.entries() {
        for record in records(&entry.data) {
            if let Record::Put { key, .. } = record {
                if key == "x" {
                    sets_of_x += 1;
                }
            }
        }
    }
    assert!(sets_of_x <= 1);
    assert_eq!(sets_of_x, 1);
    assert_eq!(kv.get(s("x")).unwrap(), Some(s("6")));
    assert_eq!(kv.get(s("y")).unwrap(), Some(s("Y")));
}

#[test]
fn remove_of_a_missing_key_is_key_not_found() {
    let mut kv = KvStore::open(Vec::new()).unwrap();
    assert_eq!(kv.remove(s("missing")), Err(KvError::KeyNotFound));
}

#[test]
fn record_text_is_the_json_of_the_record() {
    let set = Record::Put { key: s("k\"1"), value: s("v\n"), version: 7 };
    assert_eq!(
        encode_record(&set).unwrap(),
        br#"{"Set":{"key":"k\"1","value":"v\n","version":7}}"#.to_vec()
    );
    let remove = Record::Remove { key: s("é") };
    assert_eq!(
        encode_record(&remove).unwrap(),
        "{\"Remove\":{\"key\":\"é\"}}".as_bytes().to_vec()
    );
}

#[test]
fn records_are_read_one_after_the_other() {
    let a = Record::Put { key: s("a"), value: s("}}\\\""), version: 0 };
    let b = Record::Remove { key: s("a") };
    let c = Record::Put { key: s("b"), value: s(""), version: 18446744073709551615 };
    let mut data = encode_record(&a).unwrap();
    let first = data.len();
    data.extend(encode_record(&b).unwrap());
    let second = data.len();
    data.extend(encode_record(&c).unwrap());
    assert_eq!(decode_record(&data, 0).unwrap(), (a, first));
    assert_eq!(decode_record(&data, first).unwrap(), (b, second));
    assert_eq!(decode_record(&data, second).unwrap(), (c, data.len()));
}

#[test]
fn malformed_bytes_are_a_serialization_error() {
    for text in [
        &b"x"[..],
        b"{\"Set\":{\"key\":\"a\",\"value\":\"b\",\"version\":01}}",
        b"{\"Set\":{\"key\":\"a\",\"value\":\"b\",\"version\":18446744073709551616}}",
        b"{\"Set\":{\"key\":\"a\",\"value\":\"b\",\"version\":}}",
        b"{\"Set\":{\"key\":\"a\",\"value\":\"b\"}}",
        b"{\"Remove\":{\"key\":\"a}}",
        b"{\"Remove\":{\"key\":\"\\x\"}}",
        b"{\"Remove\":{\"key\":\"a\"}",
    ] {
        assert!(matches!(
            decode_record(text, 0),
            Err(KvError::SerializationError { .. })
        ));
    }
    assert!(matches!(
        decode_record(b"{\"Remove\":{\"key\":\"a\"}}", 1),
        Err(KvError::SerializationError { .. })
    ));
}

#[test]
fn open_replays_sets_and_removes_in_counter_order() {
    let put = |k: &str, v: &str, n: u64| {
        encode_record(&Record::Put { key: s(k), value: s(v), version: n }).unwrap()
    };
    let mut two = put("a", "new", 1);
    two.extend(encode_record(&Record::Remove { key: s("b") }).unwrap());
    let mut ten = put("c", "ten", 0);
    ten.extend(put("a", "newest", 2));
    let mut one = put("a", "old", 0);
    one.extend(put("b", "gone", 0));
    let directory = vec![
        DirEntry { name: s("10.immutable"), data: ten },
        DirEntry { name: s("notes.txt"), data: b"not a segment".to_vec() },
        DirEntry { name: s("2.immutable"), data: two },
        DirEntry { name: s("db.active"), data: put("d", "active", 0) },
        DirEntry { name: s("1.immutable"), data: one },
    ];
    let kv = KvStore::open(directory).unwrap();
    assert_eq!(kv.get(s("a")).unwrap(), Some(s("newest")));
    assert_eq!(kv.get(s("b")).unwrap(), None);
    assert_eq!(kv.get(s("c")).unwrap(), Some(s("ten")));
    assert_eq!(kv.get(s("d")).unwrap(), Some(s("active")));
    assert_eq!(
        names(&kv),
        vec![s("1.immutable"), s("2.immutable"), s("10.immutable"), s("db.active")]
    );
}

#[test]
fn open_refuses_names_that_break_the_rules() {
    let bad = |names: &[&str]| {
        let directory = names
            .iter()
            .map(|n| DirEntry { name: s(n), data: Vec::new() })
            .collect();
        matches!(KvStore::open(directory), Err(KvError::Consistency(_)))
    };
    assert!(bad(&["x.immutable"]));
    assert!(bad(&["1.2.immutable"]));
    assert!(bad(&["-1.immutable"]));
    assert!(bad(&["+.immutable"]));
    assert!(bad(&["18446744073709551616.immutable"]));
    assert!(bad(&["18446744073709551615.immutable"]));
    assert!(bad(&["7.immutable", "07.immutable"]));
    assert!(bad(&["db.active", "db.active"]));
    assert!(!bad(&["+7.immutable", "8.immutable", ".immutable", "immutable", "db.active"]));
}

#[test]
fn open_refuses_a_malformed_segment() {
    let directory = vec![DirEntry { name: s("db.active"), data: b"{\"Set\"".to_vec() }];
    assert!(matches!(
        KvStore::open(directory),
        Err(KvError::SerializationError { .. })
    ));
    let directory = vec![DirEntry { name: s("3.immutable"), data: b" ".to_vec() }];
    assert!(matches!(
        KvStore::open(directory),
        Err(KvError::SerializationError { .. })
    ));
}

#[test]
fn versions_count_overwrites_and_start_anew_after_a_remove() {
    let mut kv = KvStore::open(Vec::new()).unwrap();
    kv.set(s("k"), s("a")).unwrap();
    kv.set(s("k"), s("b")).unwrap();
    kv.remove(s("k")).unwrap();
    kv.set(s("k"), s("c")).unwrap();
    let directory = kv.entries();
    let active = &directory[directory.len() - 1];
    assert_eq!(active.name, "db.active");
    assert_eq!(
        records(&active.data),
        vec![
            Record::Put { key: s("k"), value: s("a"), version: 0 },
            Record::Put { key: s("k"), value: s("b"), version: 1 },
            Record::Remove { key: s("k") },
            Record::Put { key: s("k"), value: s("c"), version: 0 },
        ]
    );
}

#[test]
fn repeated_set_is_seen_as_one() {
    let mut once = small(3, 2);
    let mut twice = small(3, 2);
    once.set(s("k"), s("v")).unwrap();
    twice.set(s("k"), s("v")).unwrap();
    twice.set(s("k"), s("v")).unwrap();
    assert_eq!(once.get(s("k")).unwrap(), twice.get(s("k")).unwrap());
    assert_eq!(once.get(s("other")).unwrap(), twice.get(s("other")).unwrap());
}

#[test]
fn rotation_and_compaction_leave_every_value_in_place() {
    let mut kv = small(2, 1);
    for round in 0..20u32 {
        for key in ["a", "b", "c"] {
            kv.set(s(key), format!("{}{}", key, round)).unwrap();
        }
        assert_eq!(kv.get(s("a")).unwrap(), Some(format!("a{}", round)));
        assert_eq!(kv.get(s("b")).unwrap(), Some(format!("b{}", round)));
        assert_eq!(kv.get(s("c")).unwrap(), Some(format!("c{}", round)));
    }
    let reopened = KvStore::open(kv.entries()).unwrap();
    assert_eq!(reopened.get(s("a")).unwrap(), Some(s("a19")));
    assert_eq!(reopened.get(s("b")).unwrap(), Some(s("b19")));
    assert_eq!(reopened.get(s("c")).unwrap(), Some(s("c19")));
}

#[test]
fn remove_survives_compaction_and_restart() {
    let mut kv = small(2, 1);
    kv.set(s("gone"), s("1")).unwrap();
    kv.set(s("kept"), s("2")).unwrap();
    kv.remove(s("gone")).unwrap();
    for round in 0..10u32 {
        kv.set(s("filler"), format!("{}", round)).unwrap();
        assert_eq!(kv.get(s("gone")).unwrap(), None);
        assert_eq!(kv.get(s("kept")).unwrap(), Some(s("2")));
    }
    let reopened = KvStore::open(kv.entries()).unwrap();
    assert_eq!(reopened.get(s("gone")).unwrap(), None);
    assert_eq!(reopened.get(s("kept")).unwrap(), Some(s("2")));
    assert_eq!(reopened.get(s("filler")).unwrap(), Some(s("9")));
}

#[test]
fn keys_and_values_may_hold_any_text() {
    let mut kv = small(1, 1);
    let odd = s("\"}},{\\\u{0}\n\u{1f600}é");
    kv.set(odd.clone(), odd.clone()).unwrap();
    kv.set(s(""), s("")).unwrap();
    kv.set(s("x"), s("y")).unwrap();
    assert_eq!(kv.get(odd.clone()).unwrap(), Some(odd.clone()));
    assert_eq!(kv.get(s("")).unwrap(), Some(s("")));
    let reopened = KvStore::open(kv.entries()).unwrap();
    assert_eq!(reopened.get(odd.clone()).unwrap(), Some(odd));
}

#[test]
fn config_needs_a_compaction_threshold() {
    assert!(Config::new(3, 0).is_none());
    let config = Config::new(0, 1).unwrap();
    assert_eq!(config.rotation_threshold(), 0);
    assert_eq!(config.compaction_threshold(), 1);
    let standard = Config::standard();
    assert_eq!(standard.rotation_threshold(), 150);
    assert_eq!(standard.compaction_threshold(), 5);
}

#[test]
fn error_messages() {
    assert_eq!(KvError::KeyNotFound.message(), "Key not found");
    assert_eq!(
        KvError::Consistency(s("broken")).message(),
        "ConsistencyError: broken"
    );
    assert_eq!(
        KvError::SerializationError { cause: s("bad") }.message(),
        "SerializationError: bad"
    );
    assert_eq!(KvError::IOError { cause: s("disk") }.message(), "IOError: disk");
}

#[test]
fn overwritten_records_leave_the_directory() {
    // Rotation after 3 records and compaction after 2 rotations: a record
    // that is overwritten is gone after at most 3 + 1 + (3 + 1 + 2 * 3) mutations.
    let mut kv = small(3, 2);
    kv.set(s("old"), s("first")).unwrap();
    kv.set(s("old"), s("second")).unwrap();
    kv.set(s("dead"), s("x")).unwrap();
    kv.remove(s("dead")).unwrap();
    for round in 0..14u32 {
        kv.set(format!("k{}", round), s("v")).unwrap();
    }
    let mut seen = Vec::new();
    for entry in kv.entries() {
        seen.extend(records(&entry.data));
    }
    assert!(!seen.contains(&Record::Put { key: s("old"), value: s("first"), version: 0 }));
    assert!(seen.contains(&Record::Put { key: s("old"), value: s("second"), version: 1 }));
    assert!(!seen.contains(&Record::Put { key: s("dead"), value: s("x"), version: 0 }));
    assert!(!seen.contains(&Record::Remove { key: s("dead") }));
    assert_eq!(kv.get(s("old")).unwrap(), Some(s("second")));
    assert_eq!(kv.get(s("dead")).unwrap(), None);
}

#[test]
fn compaction_goes_by_the_version_alone() {
    // A key that is set again after a `remove` starts at version 0 once
    // more. While a record of its earlier life is still in the log, that
    // record carries a version that the index holds, and compaction takes
    // it for the current one.
    let mut kv = small(3, 2);
    kv.set(s("k"), s("a")).unwrap();
    kv.set(s("x"), s("1")).unwrap();
    kv.remove(s("k")).unwrap();
    kv.set(s("k"), s("c")).unwrap();
    kv.set(s("y"), s("2")).unwrap();
    kv.set(s("z"), s("3")).unwrap();
    assert_eq!(kv.get(s("k")).unwrap(), Some(s("c")));
    kv.set(s("w"), s("4")).unwrap();
    assert_eq!(kv.get(s("k")).unwrap(), Some(s("a")));
    let reopened = KvStore::open(kv.entries()).unwrap();
    assert_eq!(reopened.get(s("k")).unwrap(), Some(s("a")));
}

#[test]
fn rotation_counts_from_the_highest_counter() {
    let put = |k: &str, n: u64| {
        encode_record(&Record::Put { key: s(k), value: s("v"), version: n }).unwrap()
    };
    let directory = vec![
        DirEntry { name: s("7.immutable"), data: put("a", 0) },
        DirEntry { name: s("db.active"), data: put("b", 0) },
    ];
    let config = Config::new(1, 5).unwrap();
    let mut kv = KvStore::open_with(directory, config).unwrap();
    kv.set(s("c"), s("v")).unwrap();
    assert_eq!(names(&kv), vec![s("7.immutable"), s("8.immutable"), s("db.active")]);
    kv.set(s("d"), s("v")).unwrap();
    assert_eq!(
        names(&kv),
        vec![s("7.immutable"), s("8.immutable"), s("9.immutable"), s("db.active")]
    );
    assert_eq!(kv.get(s("a")).unwrap(), Some(s("v")));
    assert_eq!(kv.get(s("b")).unwrap(), Some(s("v")));
}

#[test]
fn a_threshold_of_zero_rotates_before_every_record() {
    let mut kv = small(0, 3);
    kv.set(s("a"), s("1")).unwrap();
    assert_eq!(names(&kv), vec![s("1.immutable"), s("db.active")]);
    assert_eq!(kv.entries()[0].data.len(), 0);
    kv.set(s("b"), s("2")).unwrap();
    assert_eq!(names(&kv), vec![s("1.immutable"), s("2.immutable"), s("db.active")]);
    assert_eq!(kv.get(s("a")).unwrap(), Some(s("1")));
    assert_eq!(kv.get(s("b")).unwrap(), Some(s("2")));
}

#[test]
fn a_clean_segment_stays_where_it_is() {
    let mut kv = small(2, 1);
    kv.set(s("a"), s("1")).unwrap();
    kv.set(s("b"), s("2")).unwrap();
    kv.set(s("c"), s("3")).unwrap();
    let before = kv.entries();
    assert_eq!(before[0].name, "1.immutable");
    kv.set(s("d"), s("4")).unwrap();
    let after = kv.entries();
    assert_eq!(after[0].name, "1.immutable");
    assert_eq!(after[0].data, before[0].data);
}

fn exercise<E: KvsEngine>(engine: &mut E) {
    engine.set("k".to_owned(), "v".to_owned()).unwrap();
    assert_eq!(engine.get("k".to_owned()).unwrap(), Some("v".to_owned()));
    engine.remove("k".to_owned()).unwrap();
    assert_eq!(engine.get("k".to_owned()).unwrap(), None);
    assert_eq!(engine.remove("k".to_owned()), Err(KvError::KeyNotFound));
}

#[test]
fn the_engine_trait_serves_the_store() {
    let mut kv = KvStore::open(Vec::new()).unwrap();
    exercise(&mut kv);
}

#[test]
fn versions_grow_along_the_log() {
    let mut kv = small(2, 1);
    for round in 0..9u32 {
        kv.set(s("k"), format!("{}", round)).unwrap();
        kv.set(s("other"), format!("{}", round)).unwrap();
        let mut last: Option<u64> = None;
        for entry in kv.entries() {
            for record in records(&entry.data) {
                if let Record::Put { key, version, .. } = record {
                    if key == "k" {
                        assert!(last.map_or(true, |before| before < version));
                        last = Some(version);
                    }
                }
            }
        }
        assert_eq!(last, Some(round as u64));
    }
}

fn perform(disk: &mut Vec<DirEntry>, action: DiskAction) {
    let last = disk.len() - 1;
    match action {
        DiskAction::Append(bytes) => disk[last].data.extend(bytes),
        DiskAction::Rotate(counter) => {
            disk[last].name = format!("{}.immutable", counter);
            disk.push(DirEntry { name: s("db.active"), data: Vec::new() });
        }
        DiskAction::Delete(counter) => {
            let name = format!("{}.immutable", counter);
            disk.retain(|entry| entry.name != name);
        }
    }
}

fn same_files(a: &[DirEntry], b: &[DirEntry]) -> bool {
    a.len() == b.len() && a.iter().zip(b).all(|(x, y)| x.name == y.name && x.data == y.data)
}

#[test]
fn the_journal_brings_the_directory_in_line() {
    let mut kv = small(2, 2);
    let mut disk = vec![DirEntry { name: s("db.active"), data: Vec::new() }];
    assert!(kv.take_journal().is_empty());
    for round in 0..25u32 {
        kv.set(format!("k{}", round % 4), format!("v{}", round)).unwrap();
        if round % 5 == 4 {
            kv.remove(format!("k{}", round % 4)).unwrap();
        }
        for action in kv.take_journal() {
            perform(&mut disk, action);
        }
        assert!(same_files(&disk, &kv.entries()));
    }
    assert!(disk.len() > 1);
    assert!(kv.take_journal().is_empty());
}

#[test]
fn the_journal_tells_what_one_mutation_does() {
    let mut kv = small(1, 1);
    kv.set(s("a"), s("1")).unwrap();
    let text = encode_record(&Record::Put { key: s("a"), value: s("1"), version: 0 }).unwrap();
    assert_eq!(kv.take_journal(), vec![DiskAction::Append(text)]);
    kv.set(s("a"), s("2")).unwrap();
    let text = encode_record(&Record::Put { key: s("a"), value: s("2"), version: 1 }).unwrap();
    assert_eq!(kv.take_journal(), vec![DiskAction::Rotate(1), DiskAction::Append(text)]);
    kv.set(s("a"), s("3")).unwrap();
    let text = encode_record(&Record::Put { key: s("a"), value: s("3"), version: 2 }).unwrap();
    assert_eq!(
        kv.take_journal(),
        vec![DiskAction::Rotate(2), DiskAction::Delete(1), DiskAction::Append(text)]
    );
    assert_eq!(kv.get(s("a")).unwrap(), Some(s("3")));
}
