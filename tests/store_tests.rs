use std::collections::BTreeMap;

use kvs::codec::{DecodeError, Entry};
use kvs::error::KvsError;
use kvs::store::{LogStore, Position, value_of_record};

/// Segment files held in memory, by id.
#[derive(Default, Clone)]
struct Disk {
    files: BTreeMap<u64, Vec<u8>>,
}

impl Disk {
    fn read(&self, p: Position) -> Vec<u8> {
        let f = &self.files[&p.log_no];
        f[p.offset as usize..(p.offset + p.size) as usize].to_vec()
    }

    fn total_bytes(&self) -> usize {
        self.files.values().map(|f| f.len()).sum()
    }
}

struct Kv {
    disk: Disk,
    store: LogStore,
    compactions: usize,
}

impl Kv {
    fn open(mut disk: Disk) -> Kv {
        let logs: Vec<(u64, Vec<u8>)> = disk.files.iter().map(|(k, v)| (*k, v.clone())).collect();
        let store = LogStore::open(&logs).unwrap();
        disk.files.entry(store.active_id()).or_default();
        Kv { disk, store, compactions: 0 }
    }

    fn after_write(&mut self, rec: Vec<u8>) {
        let active = self.store.active_id();
        self.disk.files.get_mut(&active).unwrap().extend(rec);
        if self.store.needs_compaction() {
            let disk = &self.disk;
            let c = self.store.compact(|p: Position| Ok(disk.read(p)), |_id: u64, _b: &Vec<u8>| Ok(())).unwrap();
            self.disk.files.insert(c.compacted, c.bytes);
            self.disk.files.retain(|id, _| *id >= c.compacted);
            self.disk.files.insert(c.active, Vec::new());
            self.compactions += 1;
        }
    }

    fn set(&mut self, k: &str, v: &str) {
        let rec = self.store.set(k.to_string(), v.to_string()).unwrap();
        self.after_write(rec);
    }

    fn remove(&mut self, k: &str) -> Result<(), KvsError> {
        let rec = self.store.remove(&k.to_string())?;
        self.after_write(rec);
        Ok(())
    }

    fn get(&self, k: &str) -> Option<String> {
        let disk = &self.disk;
        self.store.get(&k.to_string(), |p: Position| Ok(disk.read(p))).unwrap()
    }
}

#[test]
fn set_get_remove_scenario() {
    let mut kv = Kv::open(Disk::default());
    kv.set("a", "1");
    kv.set("b", "2");
    assert_eq!(kv.get("a"), Some("1".to_string()));
    assert_eq!(kv.get("c"), None);
    assert_eq!(kv.remove("b"), Ok(()));
    assert_eq!(kv.get("b"), None);
    assert_eq!(kv.remove("b"), Err(KvsError::KeyNotFound));
}

#[test]
fn get_after_set_sees_the_latest_value() {
    let mut kv = Kv::open(Disk::default());
    kv.set("k", "v1");
    kv.set("other", "x");
    kv.set("k", "v2");
    kv.remove("other").unwrap();
    assert_eq!(kv.get("k"), Some("v2".to_string()));
}

#[test]
fn remove_of_key_never_set_is_key_not_found() {
    let mut kv = Kv::open(Disk::default());
    assert_eq!(kv.remove("nope"), Err(KvsError::KeyNotFound));
    kv.set("k", "v");
    kv.remove("k").unwrap();
    assert_eq!(kv.remove("k"), Err(KvsError::KeyNotFound));
}

#[test]
fn empty_directory_has_no_values_and_first_segment_is_one() {
    let mut kv = Kv::open(Disk::default());
    assert_eq!(kv.get("anything"), None);
    assert_eq!(kv.store.active_id(), 1);
    kv.set("k", "v");
    assert_eq!(kv.disk.files.keys().copied().collect::<Vec<u64>>(), vec![1]);
    assert!(!kv.disk.files[&1].is_empty());
}

#[test]
fn reopen_keeps_values() {
    let mut kv = Kv::open(Disk::default());
    kv.set("k", "v");
    let disk = kv.disk.clone();
    drop(kv);
    let kv2 = Kv::open(disk);
    assert_eq!(kv2.get("k"), Some("v".to_string()));
}

#[test]
fn reopen_gives_identical_reads() {
    let mut kv = Kv::open(Disk::default());
    for i in 0..50 {
        kv.set(&format!("k{}", i % 7), &format!("v{}", i));
    }
    kv.remove("k3").unwrap();
    let kv2 = Kv::open(kv.disk.clone());
    for i in 0..8 {
        let k = format!("k{}", i);
        assert_eq!(kv.get(&k), kv2.get(&k));
    }
    assert_eq!(kv2.get("k3"), None);
    assert_eq!(kv2.get("k6"), Some("v48".to_string()));
}

#[test]
fn overwriting_one_key_compacts_and_leaves_two_segments() {
    let mut kv = Kv::open(Disk::default());
    let tail = "v".repeat(94);
    for i in 0..10000 {
        kv.set("same", &format!("{:05}{}", i, tail));
    }
    assert!(kv.compactions >= 1);
    assert_eq!(kv.disk.files.len(), 2);
    assert_eq!(kv.get("same"), Some(format!("09999{}", tail)));
}

#[test]
fn many_keys_with_large_values() {
    let mut kv = Kv::open(Disk::default());
    let value = "x".repeat(200);
    for i in 0..10000 {
        kv.set(&format!("key{}", i), &value);
    }
    let n = kv.disk.files.len();
    assert!(n == 1 || n == 2);
    let largest = *kv.disk.files.keys().last().unwrap();
    assert_eq!(kv.store.active_id(), largest);
    for i in 0..10000 {
        assert_eq!(kv.get(&format!("key{}", i)), Some(value.clone()));
    }
}

#[test]
fn value_in_old_segment_survives_compaction() {
    let mut kv = Kv::open(Disk::default());
    kv.set("old", "kept");
    let first = kv.store.lookup(&"old".to_string()).unwrap();
    assert_eq!(first.log_no, 1);
    let filler = "y".repeat(1000);
    for _ in 0..1100 {
        kv.set("churn", &filler);
    }
    assert!(kv.compactions >= 1);
    assert!(!kv.disk.files.contains_key(&1));
    assert_eq!(kv.get("old"), Some("kept".to_string()));
    let kv2 = Kv::open(kv.disk.clone());
    assert_eq!(kv2.get("old"), Some("kept".to_string()));
    assert_eq!(kv2.get("churn"), Some(filler));
}

#[test]
fn compaction_segment_ids_jump_by_two() {
    let mut kv = Kv::open(Disk::default());
    let filler = "z".repeat(2000);
    let mut n = 0;
    while kv.compactions == 0 {
        kv.set("k", &filler);
        n += 1;
    }
    assert!(n > 500);
    let ids: Vec<u64> = kv.disk.files.keys().copied().collect();
    assert_eq!(ids, vec![2, 3]);
    assert!(kv.disk.files[&3].is_empty());
    assert!(kv.disk.total_bytes() < 3000);
    let live = kv.store.lookup(&"k".to_string()).unwrap();
    assert_eq!(live, Position { log_no: 2, offset: 0, size: kv.disk.files[&2].len() as u64 });
}

#[test]
fn compacted_segment_holds_exactly_the_live_records() {
    let mut kv = Kv::open(Disk::default());
    for i in 0..20 {
        kv.set(&format!("key{}", i), &format!("v{}", i));
    }
    kv.remove("key3").unwrap();
    let filler = "f".repeat(4000);
    while kv.compactions == 0 {
        kv.set("key0", &filler);
    }
    let compacted = *kv.disk.files.keys().next().unwrap();
    let mut live: u64 = 0;
    for i in 0..20 {
        if let Some(p) = kv.store.lookup(&format!("key{}", i)) {
            assert_eq!(p.log_no, compacted);
            live += p.size;
        }
    }
    assert_eq!(kv.disk.files[&compacted].len() as u64, live);
    assert_eq!(kv.get("key3"), None);
    assert_eq!(kv.get("key0"), Some(filler));
    assert_eq!(kv.get("key19"), Some("v19".to_string()));
}

#[test]
fn compaction_lays_records_out_in_key_order() {
    let mut kv = Kv::open(Disk::default());
    kv.set("b", "22");
    kv.set("a", "1");
    kv.set("c", "333");
    let sizes: Vec<u64> = ["a", "b", "c"].iter().map(|k| kv.store.lookup(&k.to_string()).unwrap().size).collect();
    let disk = kv.disk.clone();
    let mut written: Option<(u64, usize)> = None;
    let c = kv
        .store
        .compact(|p: Position| Ok(disk.read(p)), |id: u64, b: &Vec<u8>| {
            assert_eq!(id, 2);
            assert_eq!(b.len() as u64, sizes.iter().sum::<u64>());
            Ok(())
        })
        .unwrap();
    written.replace((c.compacted, c.bytes.len()));
    assert_eq!(written, Some((2, (sizes[0] + sizes[1] + sizes[2]) as usize)));
    assert_eq!(c.active, 3);
    let a = kv.store.lookup(&"a".to_string()).unwrap();
    let b = kv.store.lookup(&"b".to_string()).unwrap();
    let cc = kv.store.lookup(&"c".to_string()).unwrap();
    assert_eq!(a, Position { log_no: 2, offset: 0, size: sizes[0] });
    assert_eq!(b, Position { log_no: 2, offset: sizes[0], size: sizes[1] });
    assert_eq!(cc, Position { log_no: 2, offset: sizes[0] + sizes[1], size: sizes[2] });
}

#[test]
fn stale_bytes_trigger_compaction_only_past_threshold() {
    let mut kv = Kv::open(Disk::default());
    kv.set("k", "v");
    assert!(!kv.store.needs_compaction());
    kv.set("k", "w");
    assert!(!kv.store.needs_compaction());
}

#[test]
fn truncated_segment_fails_open() {
    let mut b = Entry::Put("a".to_string(), "1".to_string()).to_bytes();
    b.extend(Entry::Put("b".to_string(), "2".to_string()).to_bytes());
    b.pop();
    let r = LogStore::open(&vec![(1, b)]);
    assert!(matches!(r, Err(KvsError::Codec(DecodeError::Truncated))));
}

#[test]
fn replay_applies_tombstones_across_segments() {
    let mut s1 = Entry::Put("a".to_string(), "1".to_string()).to_bytes();
    s1.extend(Entry::Put("b".to_string(), "2".to_string()).to_bytes());
    let s2 = Entry::Remove("a".to_string()).to_bytes();
    let store = LogStore::open(&vec![(4, s1.clone()), (7, s2)]).unwrap();
    assert_eq!(store.active_id(), 7);
    assert_eq!(store.lookup(&"a".to_string()), None);
    let p = store.lookup(&"b".to_string()).unwrap();
    assert_eq!(p.log_no, 4);
    assert_eq!(p.offset, 19);
    assert_eq!(p.size, 19);
}

#[test]
fn lookup_then_decode_gives_the_value() {
    let mut kv = Kv::open(Disk::default());
    kv.set("k", "v");
    let p = kv.store.lookup(&"k".to_string()).unwrap();
    assert_eq!(p, Position { log_no: 1, offset: 0, size: 19 });
    assert_eq!(value_of_record(&kv.disk.read(p)), Ok("v".to_string()));
}

#[test]
fn get_reports_a_failed_read() {
    let mut kv = Kv::open(Disk::default());
    kv.set("k", "v");
    let r = kv.store.get(&"k".to_string(), |_p: Position| Err(KvsError::Io("gone".to_string())));
    assert_eq!(r, Err(KvsError::Io("gone".to_string())));
    let none = kv.store.get(&"absent".to_string(), |_p: Position| Err(KvsError::Io("unused".to_string())));
    assert_eq!(none, Ok(None));
}

#[test]
fn tombstone_read_for_a_key_is_log_inconsistent() {
    let b = Entry::Remove("a".to_string()).to_bytes();
    assert_eq!(value_of_record(&b), Err(KvsError::LogInconsistent));
    assert_eq!(value_of_record(&[]), Err(KvsError::Codec(DecodeError::Truncated)));
    let p = Entry::Put("a".to_string(), "1".to_string()).to_bytes();
    assert_eq!(value_of_record(&p), Ok("1".to_string()));
}

#[test]
fn compaction_refuses_a_record_of_another_key() {
    let mut kv = Kv::open(Disk::default());
    kv.set("a", "1");
    let wrong = Entry::Put("b".to_string(), "1".to_string()).to_bytes();
    let r = kv.store.compact(|_p: Position| Ok(wrong.clone()), |_id: u64, _b: &Vec<u8>| Ok(()));
    assert!(matches!(r, Err(KvsError::LogInconsistent)));
    assert_eq!(kv.store.active_id(), 1);
    assert_eq!(kv.get("a"), Some("1".to_string()));
    let r2 = kv.store.compact(|_p: Position| Err(KvsError::Io("disk gone".to_string())), |_id: u64, _b: &Vec<u8>| Ok(()));
    assert!(matches!(r2, Err(KvsError::Io(_))));
    let disk = kv.disk.clone();
    let r3 = kv.store.compact(
        |p: Position| Ok(disk.read(p)),
        |_id: u64, _b: &Vec<u8>| Err(KvsError::Io("cannot write".to_string())),
    );
    assert!(matches!(r3, Err(KvsError::Io(_))));
    assert_eq!(kv.store.active_id(), 1);
    assert_eq!(kv.get("a"), Some("1".to_string()));
}
