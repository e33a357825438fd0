use crates_scanner::index::collect_latest_crates;
use crates_scanner::table::{hash_name, NameTable, HASH_BOUND, HASH_FACTOR, HASH_SEED};

#[test]
fn hash_of_the_empty_name_is_the_seed() {
    assert_eq!(hash_name(b""), HASH_SEED);
    assert_eq!(HASH_SEED, 7);
}

#[test]
fn hash_takes_one_byte_after_the_other() {
    assert_eq!(hash_name(b"a"), 7 * 131 + 97);
    assert_eq!(hash_name(b"ab"), (7 * 131 + 97) * 131 + 98);
    assert_eq!(hash_name(b"ba"), (7 * 131 + 98) * 131 + 97);
    assert_eq!(HASH_FACTOR, 131);
}

#[test]
fn hash_stays_below_its_bound() {
    let long = vec![0xffu8; 4096];
    assert!(hash_name(&long) < HASH_BOUND);
    assert_eq!(hash_name(b"serde_json"), {
        let mut h: u128 = 7;
        for b in b"serde_json" {
            h = (h * 131 + *b as u128) % 72057594037927931;
        }
        h as u64
    });
}

#[test]
fn an_empty_table_holds_nothing() {
    let table = NameTable::new();
    assert_eq!(table.len(), 0);
    assert_eq!(table.find(b"serde"), None);
    assert_eq!(table.find(b""), None);
}

#[test]
fn names_are_numbered_in_the_order_they_come_in() {
    let mut table = NameTable::new();
    assert_eq!(table.insert(b"serde".to_vec()), 0);
    assert_eq!(table.insert(b"serde_json".to_vec()), 1);
    assert_eq!(table.insert(b"".to_vec()), 2);
    assert_eq!(table.len(), 3);
    assert_eq!(table.find(b"serde"), Some(0));
    assert_eq!(table.find(b"serde_json"), Some(1));
    assert_eq!(table.find(b""), Some(2));
    assert_eq!(table.find(b"serd"), None);
    assert_eq!(table.find(b"serde_"), None);
}

#[test]
fn names_with_the_same_hash_are_kept_apart() {
    let first = vec![97u8, 131];
    let second = vec![98u8, 0];
    let third = vec![96u8, 131, 131];
    assert_eq!(hash_name(&first), hash_name(&second));
    let mut table = NameTable::new();
    assert_eq!(table.find(&first), None);
    assert_eq!(table.insert(first.clone()), 0);
    assert_eq!(table.find(&second), None);
    assert_eq!(table.insert(second.clone()), 1);
    assert_eq!(table.insert(third.clone()), 2);
    assert_eq!(table.find(&first), Some(0));
    assert_eq!(table.find(&second), Some(1));
    assert_eq!(table.find(&third), Some(2));
    assert_eq!(table.find(&[99u8]), None);
}

#[test]
fn a_large_corpus_is_indexed_in_one_pass() {
    let mut walked = Vec::new();
    for package in 0..30_000 {
        for patch in [3, 1, 7, 5] {
            walked.push(format!("root/pkg{package}/pkg{package}-1.0.{patch}.crate").into_bytes());
        }
    }
    let index = collect_latest_crates(&walked);
    assert!(index.errors.is_empty());
    assert_eq!(index.selected.len(), 30_000);
    for (n, s) in index.selected.iter().enumerate() {
        assert_eq!(s.package, format!("pkg{n}").into_bytes());
        assert_eq!(s.position, 4 * n + 2);
        assert_eq!(s.version.patch(), 7);
    }
}
