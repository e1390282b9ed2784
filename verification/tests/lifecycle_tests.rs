use karton_core::pasta::{
    apply_text_field, classify_content, default_pasta, parse_burn_after, parse_expiration,
    PastaKind,
};
use karton_core::store::{PastaStore, ReadOutcome};
use karton_core::PublicUrl;

#[test]
fn expiration_field_values() {
    let now: u64 = 1_000_000;
    assert_eq!(parse_expiration("1min", now, false), now + 60);
    assert_eq!(parse_expiration("10min", now, false), now + 600);
    assert_eq!(parse_expiration("1hour", now, false), now + 3600);
    assert_eq!(parse_expiration("24hour", now, false), now + 86400);
    assert_eq!(parse_expiration("3days", now, false), now + 3 * 86400);
    assert_eq!(parse_expiration("1week", now, false), now + 7 * 86400);
    assert_eq!(parse_expiration("never", now, false), 0);
    assert_eq!(parse_expiration("never", now, true), now + 7 * 86400);
    assert_eq!(parse_expiration("later", now, false), now + 7 * 86400);
}

#[test]
fn burn_after_field_values() {
    assert_eq!(parse_burn_after("0"), 0);
    assert_eq!(parse_burn_after("1"), 2);
    assert_eq!(parse_burn_after("10"), 10);
    assert_eq!(parse_burn_after("100"), 100);
    assert_eq!(parse_burn_after("1000"), 1000);
    assert_eq!(parse_burn_after("10000"), 10000);
    assert_eq!(parse_burn_after("3"), 0);
}

#[test]
fn content_classification() {
    assert_eq!(classify_content("http://host/x"), PastaKind::Url);
    assert_eq!(classify_content("https://host"), PastaKind::Url);
    assert_eq!(classify_content("plain words"), PastaKind::Text);
    assert_eq!(classify_content("see http://host"), PastaKind::Text);
}

#[test]
fn hello_never_burn_zero_scenario() {
    let now: u64 = 500;
    let mut p = default_pasta(now);
    assert!(apply_text_field(&mut p, "content", "hello", now, false));
    assert!(apply_text_field(&mut p, "expiration", "never", now, false));
    assert!(apply_text_field(&mut p, "burn_after", "0", now, false));
    assert_eq!(p.content, "hello");
    assert_eq!(p.expiration, 0);
    assert_eq!(p.burn_after_reads, 0);
    assert_eq!(p.kind, PastaKind::Text);

    let mut store = PastaStore::new();
    p.id = 12;
    store.insert(p);
    for i in 0..20u64 {
        let now = 1000 + i * 86400;
        assert!(matches!(store.read(12, now), ReadOutcome::Served { .. }));
        assert!(store.sweep(now, 1).is_empty());
    }
    assert!(store.get(12).is_some());
}

#[test]
fn form_flags_and_extension() {
    let now: u64 = 500;
    let mut p = default_pasta(now);
    assert!(apply_text_field(&mut p, "editable", "", now, false));
    assert!(apply_text_field(&mut p, "private", "", now, false));
    assert!(apply_text_field(&mut p, "syntax-highlight", "rs", now, false));
    assert!(p.editable);
    assert!(p.private);
    assert_eq!(p.extension, "rs");
}

#[test]
fn empty_content_keeps_placeholder() {
    let now: u64 = 500;
    let mut p = default_pasta(now);
    assert!(apply_text_field(&mut p, "content", "", now, false));
    assert_eq!(p.content, "No Text Content");
}

#[test]
fn unknown_field_is_ignored() {
    let now: u64 = 500;
    let mut p = default_pasta(now);
    assert!(!apply_text_field(&mut p, "csrf-token", "zzz", now, false));
    assert_eq!(p.content, "No Text Content");
    assert_eq!(p.expiration, 0);
}

#[test]
fn public_url_strips_one_trailing_slash() {
    assert_eq!(PublicUrl::from_str("https://paste.example/").0, "https://paste.example");
    assert_eq!(PublicUrl::from_str("https://paste.example").0, "https://paste.example");
    assert_eq!(PublicUrl::from_str("").0, "");
    assert_eq!(PublicUrl::from_str("a//").0, "a/");
}
