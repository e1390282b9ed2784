use karton_core::files::{sanitize_filename, storage_segments};
use karton_core::pasta::{default_pasta, Pasta, PastaFile, PastaKind};
use karton_core::persist::{load_store, parse_store, serialize_store};
use karton_core::store::PastaStore;
use karton_core::idgen::create_pasta;

fn sample_store() -> PastaStore {
    let mut store = PastaStore::new();
    let mut a = default_pasta(100);
    a.id = 1;
    a.content = String::from("héllo wörld 🦀");
    a.extension = String::from("txt");
    a.private = true;
    a.editable = true;
    a.expiration = 9999;
    a.burn_after_reads = 3;
    a.read_count = 2;
    a.last_read = 123;
    a.kind = PastaKind::Url;
    a.file = Some(PastaFile { name: String::from("notes.txt"), size: 512 });
    store.insert(a);
    let mut b = default_pasta(200);
    b.id = 2;
    b.content = String::from("");
    store.insert(b);
    store
}

fn assert_same_record(x: &Pasta, y: &Pasta) {
    assert_eq!(x.id, y.id);
    assert_eq!(x.content, y.content);
    assert_eq!(x.extension, y.extension);
    assert_eq!(x.private, y.private);
    assert_eq!(x.editable, y.editable);
    assert_eq!(x.created, y.created);
    assert_eq!(x.expiration, y.expiration);
    assert_eq!(x.burn_after_reads, y.burn_after_reads);
    assert_eq!(x.read_count, y.read_count);
    assert_eq!(x.last_read, y.last_read);
    assert_eq!(x.kind, y.kind);
    match (&x.file, &y.file) {
        (None, None) => {},
        (Some(f), Some(g)) => {
            assert_eq!(f.name, g.name);
            assert_eq!(f.size, g.size);
        },
        _ => panic!("attachment presence must round-trip"),
    }
}

#[test]
fn persist_round_trip_reproduces_every_field() {
    let store = sample_store();
    let bytes = serialize_store(&store);
    let reloaded = load_store(&bytes).expect("own serialization must reload");
    assert_eq!(reloaded.len(), store.len());
    let old = store.records();
    let new = reloaded.records();
    for i in 0..old.len() {
        assert_same_record(&old[i], &new[i]);
    }
}

#[test]
fn persist_round_trip_of_empty_store() {
    let store = PastaStore::new();
    let bytes = serialize_store(&store);
    let reloaded = load_store(&bytes).expect("empty store must reload");
    assert_eq!(reloaded.len(), 0);
}

#[test]
fn malformed_bytes_are_rejected() {
    assert!(parse_store(&vec![]).is_none());
    assert!(parse_store(&vec![1, 2, 3]).is_none());
    // A count of one with no record behind it.
    let mut bytes = vec![1u8, 0, 0, 0, 0, 0, 0, 0];
    assert!(parse_store(&bytes).is_none());
    bytes.push(0xff);
    assert!(parse_store(&bytes).is_none());
}

#[test]
fn truncated_serialization_is_rejected() {
    let store = sample_store();
    let mut bytes = serialize_store(&store);
    bytes.pop();
    assert!(parse_store(&bytes).is_none());
}

#[test]
fn traversal_filename_is_rejected_but_paste_survives() {
    assert!(sanitize_filename("../../etc/passwd").is_err());
    assert!(sanitize_filename("..").is_err());
    assert!(sanitize_filename(".").is_err());
    assert!(sanitize_filename("").is_err());
    assert!(sanitize_filename("dir/name").is_err());
    assert!(sanitize_filename("dir\\name").is_err());

    // The creation flow drops the unsafe attachment and still stores the paste.
    let mut store = PastaStore::new();
    let mut p = default_pasta(100);
    if let Ok(f) = PastaFile::from_unsanitized("../../etc/passwd") {
        p.file = Some(f);
    }
    let id = create_pasta(&mut store, p, 16).unwrap();
    let stored = store.get(id).unwrap();
    assert!(stored.file.is_none());
}

#[test]
fn safe_filename_passes_unchanged() {
    assert_eq!(sanitize_filename("notes.txt").unwrap(), "notes.txt");
    assert_eq!(sanitize_filename("..hidden").unwrap(), "..hidden");
    let f = PastaFile::from_unsanitized("a b.png").unwrap();
    assert_eq!(f.name, "a b.png");
    assert_eq!(f.size, 0);
}

#[test]
fn storage_segments_are_slug_then_name() {
    let f = PastaFile { name: String::from("notes.txt"), size: 1 };
    let segs = storage_segments(&String::from("cat-dog"), &f);
    assert_eq!(segs, vec![String::from("cat-dog"), String::from("notes.txt")]);
}
