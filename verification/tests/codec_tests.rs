use karton_core::codec::{HashCodec, WordCodec};
use karton_core::CoreError;

fn word_list() -> Vec<String> {
    vec![
        String::from("ant"),
        String::from("bat"),
        String::from("cat"),
        String::from("dog"),
        String::from("eel"),
    ]
}

#[test]
fn hash_codec_round_trips_small_ids() {
    let codec = HashCodec::new(0);
    for id in [0u64, 1, 2, 31, 32, 33, 1000, 65535] {
        let slug = codec.encode(id);
        assert_eq!(codec.decode(&slug), Some(id));
    }
}

#[test]
fn hash_codec_round_trips_with_salt() {
    let codec = HashCodec::new(0x5eed_cafe_f00d_beef);
    for id in [0u64, 7, 65535, u64::MAX] {
        let slug = codec.encode(id);
        assert_eq!(codec.decode(&slug), Some(id));
    }
}

#[test]
fn hash_codec_salts_differ() {
    let a = HashCodec::new(1);
    let b = HashCodec::new(2);
    let slug = a.encode(42);
    // The same slug under another salt decodes, but to another id.
    assert_ne!(b.decode(&slug), Some(42));
}

#[test]
fn hash_codec_rejects_unknown_character() {
    let codec = HashCodec::new(0);
    assert_eq!(codec.decode(&vec!['!']), None);
    assert_eq!(codec.decode(&vec![]), None);
}

#[test]
fn hash_codec_rejects_bad_alphabet() {
    assert!(matches!(
        HashCodec::with_alphabet(vec!['a'], 0),
        Err(CoreError::Config)
    ));
    assert!(matches!(
        HashCodec::with_alphabet(vec!['a', 'b', 'a'], 0),
        Err(CoreError::Config)
    ));
    assert!(HashCodec::with_alphabet(vec!['a', 'b'], 0).is_ok());
}

#[test]
fn word_codec_round_trips() {
    let codec = WordCodec::from_words(word_list()).unwrap();
    for id in [0u64, 1, 4, 5, 24, 25, 124, 65535, u64::MAX] {
        let slug = codec.encode(id);
        assert_eq!(codec.decode(&slug), Some(id));
    }
}

#[test]
fn word_codec_positional_digits() {
    // Base five over [ant bat cat dog eel]: 7 = 1*5 + 2 -> "bat cat".
    let codec = WordCodec::from_words(word_list()).unwrap();
    let slug = codec.encode(7);
    assert_eq!(slug.len(), 2);
    assert_eq!(slug[0], "bat");
    assert_eq!(slug[1], "cat");
    assert_eq!(codec.encode(0), vec![String::from("ant")]);
}

#[test]
fn default_word_list_makes_a_codec() {
    let codec = WordCodec::from_words(karton_core::codec::default_words()).unwrap();
    for id in [0u64, 23, 24, 9999, u64::MAX] {
        let slug = codec.encode(id);
        assert_eq!(codec.decode(&slug), Some(id));
    }
}

#[test]
fn word_codec_rejects_unknown_word() {
    let codec = WordCodec::from_words(word_list()).unwrap();
    assert_eq!(codec.decode(&vec![String::from("fox")]), None);
    assert_eq!(codec.decode(&vec![]), None);
}

#[test]
fn word_codec_rejects_bad_lists() {
    assert!(matches!(
        WordCodec::from_words(vec![]),
        Err(CoreError::Config)
    ));
    assert!(matches!(
        WordCodec::from_words(vec![String::from("one")]),
        Err(CoreError::Config)
    ));
    assert!(matches!(
        WordCodec::from_words(vec![
            String::from("dup"),
            String::from("x"),
            String::from("dup")
        ]),
        Err(CoreError::Config)
    ));
}
