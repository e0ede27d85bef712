use rustdb::table::{hash, locate, CorruptSnapshot, Snapshot, Table};
use rustdb::value::Value;

fn plain(v: &Value) -> (u8, i64, String) {
    match v {
        Value::String(s) => (0, 0, s.clone()),
        Value::Int(i) => (1, *i, String::new()),
        _ => unreachable!(),
    }
}

fn value_of(p: (u8, i64, String)) -> Value {
    match p.0 {
        0 => Value::String(p.2),
        _ => Value::Int(p.1),
    }
}

#[test]
fn test_table() {
    let mut table = Table::new();

    for i in 0..1000 {
        table.set(format!("string/{}", i), Value::String(format!("{}", i)));
        table.set(format!("int/{}", i), Value::Int(i));
    }

    for i in 0..1000 {
        assert!(table.get(&format!("string/{}", i)) == Some(Value::String(format!("{}", i))));
        assert!(table.get(&format!("int/{}", i)) == Some(Value::Int(i)));
    }

    let snapshot = table.snapshot();
    let stored: Vec<Vec<(String, (u8, i64, String))>> = snapshot
        .buckets
        .iter()
        .map(|b| b.iter().map(|(k, v)| (k.clone(), plain(v))).collect())
        .collect();
    let serialized =
        bincode::serialize(&(stored, snapshot.level as u64, snapshot.split_cursor as u64))
            .unwrap();
    let (buckets, level, split_cursor) = bincode::deserialize::<(
        Vec<Vec<(String, (u8, i64, String))>>,
        u64,
        u64,
    )>(&serialized)
    .unwrap();
    let restored = Snapshot {
        buckets: buckets
            .into_iter()
            .map(|b| b.into_iter().map(|(k, p)| (k, value_of(p))).collect())
            .collect(),
        level: level as usize,
        split_cursor: split_cursor as usize,
    };
    let deserialized = Table::from_snapshot(restored).unwrap();

    assert!(deserialized == table);
}

#[test]
fn empty_table() {
    let table = Table::new();
    assert_eq!(table.bucket_count(), 1);
    assert_eq!(table.get("missing"), None);
    assert!(table.has_room());
    assert_eq!(
        table.snapshot(),
        Snapshot { buckets: vec![vec![]], level: 0, split_cursor: 0 }
    );
}

#[test]
fn fnv1a_hash_values() {
    // the hash of "" is the offset basis 0xcbf29ce484222325, that of "a" is
    // 0xaf63dc4c8601ec8c
    assert_eq!(hash("", 0), 0);
    assert_eq!(hash("", 8), 0x25);
    assert_eq!(hash("", 16), 0x2325);
    assert_eq!(hash("a", 4), 0xc);
    assert_eq!(hash("a", 8), 0x8c);
    assert_eq!(hash("a", 12), 0xc8c);
    assert_eq!(hash("foobar", 16), 0x85944171f73967e8u64 as usize & 0xffff);
}

#[test]
fn locate_uses_next_level_below_cursor() {
    // "a" hashes to 0 at level 2 and to 4 at level 3
    assert_eq!(hash("a", 2), 0);
    assert_eq!(hash("a", 3), 4);
    assert_eq!(locate("a", 2, 0), 0);
    assert_eq!(locate("a", 2, 1), 4);
    // "" hashes to 1 at level 2, which a cursor of 1 has not reached
    assert_eq!(hash("", 2), 1);
    assert_eq!(locate("", 2, 1), 1);
    assert_eq!(locate("", 2, 2), hash("", 3));
}

#[test]
fn last_set_wins() {
    let mut table = Table::new();
    table.set("k".to_string(), Value::Int(1));
    table.set("other".to_string(), Value::Null);
    table.set("k".to_string(), Value::String("two".to_string()));
    assert_eq!(table.get("k"), Some(Value::String("two".to_string())));
    assert_eq!(table.get("other"), Some(Value::Null));
    assert_eq!(table.get("never"), None);
}

#[test]
fn update_does_not_grow() {
    let mut table = Table::new();
    table.set("a".to_string(), Value::Int(1));
    table.set("b".to_string(), Value::Int(2));
    table.set("c".to_string(), Value::Int(3));
    let before = table.bucket_count();
    for i in 0..10 {
        table.set("b".to_string(), Value::Int(i));
    }
    assert_eq!(table.bucket_count(), before);
    assert_eq!(table.get("b"), Some(Value::Int(9)));
}

#[test]
fn growth_keeps_every_key() {
    let mut table = Table::new();
    let mut splits = 0;
    for i in 0..64 {
        let before = table.bucket_count();
        table.set(format!("key{}", i), Value::Int(i));
        let after = table.bucket_count();
        assert!(after == before || after == before + 1);
        if after > before {
            splits += 1;
        }
        let s = table.snapshot();
        assert_eq!(after, (1usize << s.level) + s.split_cursor);
        assert!(s.split_cursor < (1usize << s.level));
        for (index, bucket) in s.buckets.iter().enumerate() {
            for (key, _) in bucket {
                assert_eq!(locate(key, s.level, s.split_cursor), index);
            }
        }
        for j in 0..=i {
            assert_eq!(table.get(&format!("key{}", j)), Some(Value::Int(j)));
        }
    }
    assert!(splits >= 3);
}

#[test]
fn split_on_its_own() {
    let mut table = Table::new();
    table.set("a".to_string(), Value::Int(1));
    assert_eq!(table.bucket_count(), 1);
    table.split();
    let s = table.snapshot();
    assert_eq!((s.buckets.len(), s.level, s.split_cursor), (2, 1, 0));
    table.split();
    let s = table.snapshot();
    assert_eq!((s.buckets.len(), s.level, s.split_cursor), (3, 1, 1));
    table.split();
    let s = table.snapshot();
    assert_eq!((s.buckets.len(), s.level, s.split_cursor), (4, 2, 0));
    assert_eq!(table.get("a"), Some(Value::Int(1)));
    // "a" hashes to 0 at level 2
    assert_eq!(s.buckets[0], vec![("a".to_string(), Value::Int(1))]);
}

#[test]
fn first_insert_does_not_split_second_does() {
    let mut table = Table::new();
    table.set("x".to_string(), Value::Int(1));
    assert_eq!(table.bucket_count(), 1);
    table.set("y".to_string(), Value::Int(2));
    assert_eq!(table.bucket_count(), 2);
}

#[test]
fn snapshot_round_trip() {
    let mut table = Table::new();
    for i in 0..50 {
        table.set(format!("k{}", i), Value::Array(vec![Value::Int(i), Value::Null]));
    }
    let restored = Table::from_snapshot(table.snapshot()).unwrap();
    assert_eq!(restored, table);
    for i in 0..50 {
        assert_eq!(
            restored.get(&format!("k{}", i)),
            Some(Value::Array(vec![Value::Int(i), Value::Null]))
        );
    }
}

#[test]
fn corrupt_snapshots_are_refused() {
    let entry = |k: &str| (k.to_string(), Value::Null);
    // no bucket at all
    let s = Snapshot { buckets: vec![], level: 0, split_cursor: 0 };
    assert_eq!(Table::from_snapshot(s), Err(CorruptSnapshot));
    // too few buckets for the level
    let s = Snapshot { buckets: vec![vec![]], level: 1, split_cursor: 0 };
    assert_eq!(Table::from_snapshot(s), Err(CorruptSnapshot));
    // cursor outside the level
    let s = Snapshot { buckets: vec![vec![], vec![]], level: 0, split_cursor: 1 };
    assert_eq!(Table::from_snapshot(s), Err(CorruptSnapshot));
    // level beyond the machine word
    let s = Snapshot { buckets: vec![vec![]], level: 64, split_cursor: 0 };
    assert_eq!(Table::from_snapshot(s), Err(CorruptSnapshot));
    // "a" belongs in bucket 0 at level 1, not in bucket 1
    let s = Snapshot { buckets: vec![vec![], vec![entry("a")]], level: 1, split_cursor: 0 };
    assert_eq!(Table::from_snapshot(s), Err(CorruptSnapshot));
    // a key twice in one bucket
    let s = Snapshot {
        buckets: vec![vec![entry("a"), entry("a")], vec![]],
        level: 1,
        split_cursor: 0,
    };
    assert_eq!(Table::from_snapshot(s), Err(CorruptSnapshot));
    // the same, well formed
    let s = Snapshot { buckets: vec![vec![entry("a")], vec![]], level: 1, split_cursor: 0 };
    let table = Table::from_snapshot(s).unwrap();
    assert_eq!(table.get("a"), Some(Value::Null));
}
