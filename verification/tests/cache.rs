use translator_core::cache::{decode_entry, CacheError, ContentCache};
use translator_core::key::{cache_key, entry_name, key_from_digest};

#[test]
fn keys_are_sha256_in_lower_hex() {
    assert_eq!(
        cache_key("hello"),
        "2cf24dba5fb0a30e26e83b2ac5b9e29e1b161e5c1fa7425e73043362938b9824"
    );
    assert_eq!(
        cache_key(""),
        "e3b0c44298fc1c149afbf4c8996fb92427ae41e4649b934ca495991b7852b855"
    );
    assert_eq!(
        cache_key("abc"),
        "ba7816bf8f01cfea414140de5dae2223b00361a396177a9cb410ff61f20015ad"
    );
}

#[test]
fn equal_texts_have_equal_keys() {
    let a = String::from("Très bien!");
    let b = ["Très", " ", "bien!"].concat();
    assert_eq!(cache_key(&a), cache_key(&b));
    assert_eq!(cache_key(&a).len(), 64);
}

#[test]
fn distinct_texts_have_distinct_keys() {
    let texts = ["", " ", "a", "A", "a ", "ab", "ba", "Bonjour.", "Bonjour", "Très bien!", "Tres bien!", "\n"];
    let keys: Vec<String> = texts.iter().map(|t| cache_key(t)).collect();
    for i in 0..keys.len() {
        for j in 0..keys.len() {
            if i != j {
                assert_ne!(keys[i], keys[j]);
            }
        }
    }
}

#[test]
fn digests_are_written_high_half_first() {
    assert_eq!(key_from_digest(&[0xbe, 0xef, 0x00, 0x0a, 0xf0, 0x19]), "beef000af019");
    assert_eq!(key_from_digest(&[]), "");
    let all: Vec<u8> = (0..=255u8).collect();
    let expected: String = all.iter().map(|b| format!("{:02x}", b)).collect();
    assert_eq!(key_from_digest(&all), expected);
}

#[test]
fn entries_are_named_by_key() {
    assert_eq!(entry_name("abc123"), "abc123.txt");
    assert_eq!(entry_name(""), ".txt");
}

#[test]
fn a_written_text_is_read_back() {
    let mut cache = ContentCache::new();
    assert!(!cache.contains("k"));
    assert_eq!(cache.read("k"), Ok(None));
    assert_eq!(cache.write("k", "Très bien!"), Ok(()));
    assert!(cache.contains("k"));
    assert_eq!(cache.read("k"), Ok(Some("Très bien!".to_string())));
    assert_eq!(cache.read_bytes("k"), Some("Très bien!".as_bytes().to_vec()));
    assert_eq!(cache.read_bytes("other"), None);
    assert_eq!(cache.len(), 1);
}

#[test]
fn an_entry_is_written_once() {
    let mut cache = ContentCache::new();
    assert_eq!(cache.write("k", "first"), Ok(()));
    assert_eq!(cache.write("k", "second"), Ok(()));
    assert_eq!(cache.read("k"), Ok(Some("first".to_string())));
    assert_eq!(cache.len(), 1);
}

#[test]
fn a_full_store_refuses_new_keys_only() {
    let mut cache = ContentCache::bounded(2);
    assert_eq!(cache.write("a", "1"), Ok(()));
    assert_eq!(cache.write("b", "2"), Ok(()));
    assert_eq!(cache.write("c", "3"), Err(CacheError::WriteFailed));
    assert!(!cache.contains("c"));
    assert_eq!(cache.write("a", "again"), Ok(()));
    assert_eq!(cache.read("a"), Ok(Some("1".to_string())));
    assert_eq!(cache.len(), 2);
    let mut none = ContentCache::bounded(0);
    assert_eq!(none.write("a", "1"), Err(CacheError::WriteFailed));
    assert_eq!(none.len(), 0);
}

#[test]
fn bytes_that_are_not_text_are_corrupt() {
    let mut cache = ContentCache::new();
    assert_eq!(cache.write_bytes("bad", vec![0x48, 0xff, 0x49]), Ok(()));
    assert!(cache.contains("bad"));
    assert_eq!(cache.read("bad"), Err(CacheError::ReadCorrupt));
    assert_eq!(cache.write_bytes("good", vec![0xc3, 0xa7, 0x61]), Ok(()));
    assert_eq!(cache.read("good"), Ok(Some("ça".to_string())));
}

#[test]
fn entries_decode_as_utf8() {
    assert_eq!(decode_entry("Très bien!".as_bytes()), Ok("Très bien!".to_string()));
    assert_eq!(decode_entry(&[]), Ok(String::new()));
    assert_eq!(decode_entry(&[0xc3]), Err(CacheError::ReadCorrupt));
    assert_eq!(decode_entry(&[0xed, 0xa0, 0x80]), Err(CacheError::ReadCorrupt));
    assert_eq!(decode_entry(&[0xc0, 0x80]), Err(CacheError::ReadCorrupt));
}
