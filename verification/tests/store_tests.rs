use karton_core::pasta::{default_pasta, Pasta, PastaFile, PastaKind};
use karton_core::store::{PastaStore, ReadOutcome};
use karton_core::idgen::create_pasta;
use karton_core::CoreError;

fn paste(id: u64, now: u64) -> Pasta {
    let mut p = default_pasta(now);
    p.id = id;
    p
}

#[test]
fn insert_refuses_duplicate_id() {
    let mut store = PastaStore::new();
    assert!(store.insert(paste(7, 100)));
    assert!(!store.insert(paste(7, 200)));
    assert!(store.insert(paste(8, 100)));
    assert_eq!(store.len(), 2);
}

#[test]
fn get_finds_live_record() {
    let mut store = PastaStore::new();
    store.insert(paste(1, 100));
    store.insert(paste(2, 100));
    assert_eq!(store.get(2).unwrap().id, 2);
    assert!(store.get(3).is_none());
}

#[test]
fn delete_is_idempotent() {
    let mut store = PastaStore::new();
    store.insert(paste(5, 100));
    assert_eq!(store.delete(5).unwrap().id, 5);
    assert!(store.delete(5).is_none());
    assert!(store.delete(99).is_none());
    assert_eq!(store.len(), 0);
}

#[test]
fn expired_paste_is_unreadable_and_gone() {
    let now: u64 = 1000;
    let mut store = PastaStore::new();
    let mut p = paste(3, now - 10);
    p.expiration = now - 1;
    store.insert(p);
    match store.read(3, now) {
        ReadOutcome::Expired { removed } => assert_eq!(removed.id, 3),
        _ => panic!("expired paste must not be served"),
    }
    assert!(store.get(3).is_none());
    assert!(matches!(store.read(3, now), ReadOutcome::NotFound));
}

#[test]
fn eternal_paste_never_expires() {
    let mut store = PastaStore::new();
    let p = paste(4, 100);
    assert_eq!(p.expiration, 0);
    store.insert(p);
    for i in 0..5u64 {
        match store.read(4, 1_000_000 + i) {
            ReadOutcome::Served { burned, .. } => assert!(!burned),
            _ => panic!("eternal paste must stay readable"),
        }
    }
}

#[test]
fn burn_after_two_reads() {
    // burn_after = "1" becomes two granted reads.
    let mut store = PastaStore::new();
    let mut p = paste(9, 100);
    p.burn_after_reads = 2;
    store.insert(p);
    match store.read(9, 101) {
        ReadOutcome::Served { pasta, burned } => {
            assert_eq!(pasta.read_count, 1);
            assert!(!burned);
        },
        _ => panic!("first read must serve"),
    }
    match store.read(9, 102) {
        ReadOutcome::Served { pasta, burned } => {
            assert_eq!(pasta.read_count, 2);
            assert!(burned);
        },
        _ => panic!("second read must serve and burn"),
    }
    assert!(matches!(store.read(9, 103), ReadOutcome::NotFound));
    assert!(store.get(9).is_none());
}

#[test]
fn burn_after_ten_reads() {
    let mut store = PastaStore::new();
    let mut p = paste(10, 100);
    p.burn_after_reads = 10;
    store.insert(p);
    for i in 1..=9u64 {
        match store.read(10, 100 + i) {
            ReadOutcome::Served { pasta, burned } => {
                assert_eq!(pasta.read_count, i);
                assert!(!burned);
            },
            _ => panic!("reads one through nine must serve"),
        }
    }
    match store.read(10, 110) {
        ReadOutcome::Served { burned, .. } => assert!(burned),
        _ => panic!("tenth read must serve and burn"),
    }
    assert!(matches!(store.read(10, 111), ReadOutcome::NotFound));
}

#[test]
fn read_updates_last_read() {
    let mut store = PastaStore::new();
    store.insert(paste(11, 100));
    match store.read(11, 555) {
        ReadOutcome::Served { pasta, .. } => assert_eq!(pasta.last_read, 555),
        _ => panic!("must serve"),
    }
    assert_eq!(store.get(11).unwrap().last_read, 555);
}

#[test]
fn sweep_removes_idle_pastas_only() {
    let now: u64 = 10 * 86400;
    let mut store = PastaStore::new();
    let mut old = paste(1, 0);
    old.last_read = now - 86400 - 1;
    let mut fresh = paste(2, 0);
    fresh.last_read = now - 86400 + 5;
    store.insert(old);
    store.insert(fresh);
    let removed = store.sweep(now, 1);
    assert_eq!(removed.len(), 1);
    assert_eq!(removed[0].id, 1);
    assert!(store.get(1).is_none());
    assert!(store.get(2).is_some());
}

#[test]
fn sweep_disabled_when_gc_days_zero() {
    let mut store = PastaStore::new();
    let mut old = paste(1, 0);
    old.last_read = 0;
    store.insert(old);
    let removed = store.sweep(u64::MAX / 2, 0);
    assert!(removed.is_empty());
    assert!(store.get(1).is_some());
}

#[test]
fn fresh_reads_keep_a_paste_alive_across_sweeps() {
    let mut store = PastaStore::new();
    store.insert(paste(6, 0));
    for day in 1..5u64 {
        let now = day * 86400;
        assert!(matches!(store.read(6, now), ReadOutcome::Served { .. }));
        let removed = store.sweep(now, 2);
        assert!(removed.is_empty());
    }
    assert!(store.get(6).is_some());
}

#[test]
fn attach_file_sets_attachment_and_text_kind() {
    let mut store = PastaStore::new();
    let mut p = paste(20, 100);
    p.kind = PastaKind::Url;
    store.insert(p);
    let f = PastaFile { name: String::from("a.txt"), size: 3 };
    assert!(store.attach_file(20, f));
    let got = store.get(20).unwrap();
    assert_eq!(got.kind, PastaKind::Text);
    assert_eq!(got.file.as_ref().unwrap().name, "a.txt");
    assert_eq!(got.file.as_ref().unwrap().size, 3);
    assert!(!store.attach_file(99, PastaFile { name: String::from("b"), size: 0 }));
}

#[test]
fn listing_excludes_private_pastas() {
    let mut store = PastaStore::new();
    let mut secret = paste(1, 0);
    secret.private = true;
    store.insert(secret);
    store.insert(paste(2, 0));
    let listed = store.list();
    assert_eq!(listed.len(), 1);
    assert_eq!(listed[0].id, 2);
}

#[test]
fn from_records_rejects_duplicate_ids() {
    let records = vec![paste(1, 0), paste(2, 0), paste(1, 5)];
    assert!(PastaStore::from_records(records).is_none());
    let records = vec![paste(1, 0), paste(2, 0)];
    assert_eq!(PastaStore::from_records(records).unwrap().len(), 2);
}

#[test]
fn create_allocates_unused_id() {
    let mut store = PastaStore::new();
    let id = create_pasta(&mut store, default_pasta(100), 64).unwrap();
    assert!(id < 65536);
    assert_eq!(store.get(id).unwrap().created, 100);
}

#[test]
fn create_without_attempts_reports_capacity() {
    let mut store = PastaStore::new();
    match create_pasta(&mut store, default_pasta(0), 0) {
        Err(CoreError::Capacity) => {},
        _ => panic!("zero attempts must exhaust the allocator"),
    }
    assert_eq!(store.len(), 0);
}
