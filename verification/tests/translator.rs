use translator_core::cache::ContentCache;
use translator_core::config::ConfigError;
use translator_core::key::cache_key;
use translator_core::merger::MergeError;
use translator_core::translator::TranslateError;
use translator_core::{Device, ModelSize, Translator};

#[test]
fn builder_defaults() {
    let t = Translator::builder().build().unwrap();
    assert_eq!(t.batch, 4);
}

#[test]
fn cache_path_hash() {
    let t = Translator::builder().cache_dir("tmp").build().unwrap();
    let p = t.cache_path("hello");
    assert!(p.to_str().unwrap().contains("tmp"));
}

#[test]
fn mixed_punctuation() {
    let tmp = tempfile::tempdir().unwrap();
    let tr = Translator::builder()
        .source("fr")
        .target("en")
        .cache_dir(tmp.path())
        .build()
        .unwrap();
    let out = tr.translate(&["¿Bonjour!? Quoi?".to_string()]).unwrap().pop().unwrap();
    assert_eq!(out, "¿Bonjour!? Quoi?");
}

#[test]
fn the_builder_sets_every_field() {
    let t = Translator::builder()
        .device(Device::Cuda)
        .source("de")
        .target(String::from("it"))
        .model_size(ModelSize::Large)
        .batch_size(9)
        .cache_dir("store")
        .build()
        .unwrap();
    assert_eq!(t.device, Device::Cuda);
    assert_eq!((t.source.as_str(), t.target.as_str()), ("de", "it"));
    assert_eq!(t.model, ModelSize::Large);
    assert_eq!(t.batch, 9);
    assert_eq!(t.cache_dir, std::path::PathBuf::from("store"));
    let d = Translator::builder();
    assert_eq!(d.device, Device::Cpu);
    assert_eq!((d.source.as_str(), d.target.as_str()), ("fr", "en"));
    assert_eq!(d.model, ModelSize::Tiny);
    assert_eq!(d.cache_dir, std::path::PathBuf::from(".cache"));
    assert_eq!(Device::cuda_if_available(), Device::Cpu);
}

#[test]
fn a_batch_of_zero_is_rejected_at_build() {
    assert_eq!(Translator::builder().batch_size(0).build().err(), Some(ConfigError::ZeroBatchSize));
}

#[test]
fn the_engine_echoes_every_input() {
    let t = Translator::builder().build().unwrap();
    let inputs = vec!["  Bonjour le monde !  \n".to_string(), String::new(), "Ça va.".to_string()];
    assert_eq!(t.translate(&inputs), Ok(inputs.clone()));
    assert_eq!(t.translate(&[]), Ok(vec![]));
}

#[test]
fn the_cache_entry_is_named_by_the_digest() {
    let t = Translator::builder().cache_dir("tmp").build().unwrap();
    let name = "2cf24dba5fb0a30e26e83b2ac5b9e29e1b161e5c1fa7425e73043362938b9824.txt";
    assert_eq!(t.cache_file_name("hello"), name);
    assert_eq!(t.cache_path("hello"), std::path::Path::new("tmp").join(name));
}

#[test]
fn documents_are_chunked_by_batch() {
    let t = Translator::builder().batch_size(2).build().unwrap();
    let chunks = t.chunks("Un. Deux. Trois. Quatre. Cinq").unwrap();
    let texts: Vec<&str> = chunks.iter().map(|c| c.text.as_str()).collect();
    assert_eq!(texts, vec!["Un. Deux.", "Trois. Quatre.", "Cinq"]);
    assert!(t.chunks("  \n").unwrap().is_empty());
    let mut zero = Translator::builder().build().unwrap();
    zero.batch = 0;
    assert_eq!(zero.chunks("Un."), Err(ConfigError::ZeroBatchSize));
}

#[test]
fn a_document_is_translated_line_by_line() {
    let t = Translator::builder().batch_size(2).build().unwrap();
    let mut cache = ContentCache::new();
    let out = t.translate_document("Un. Deux. Trois. Quatre. Cinq", &mut cache);
    assert_eq!(out, Ok("Un. Deux.\nTrois. Quatre.\nCinq\n".to_string()));
    assert_eq!(cache.len(), 3);
    assert_eq!(cache.read(&cache_key("Trois. Quatre.")), Ok(Some("Trois. Quatre.".to_string())));
    assert_eq!(t.translate_document("", &mut cache), Ok(String::new()));
    assert_eq!(cache.len(), 3);
}

#[test]
fn a_resumed_document_takes_what_the_cache_holds() {
    let t = Translator::builder().batch_size(1).build().unwrap();
    let mut cache = ContentCache::new();
    cache.write(&cache_key("Bonjour"), "Hello").unwrap();
    assert_eq!(t.translate_document("Bonjour", &mut cache), Ok("Hello\n".to_string()));
    assert_eq!(t.translate_document("Bonjour", &mut cache), Ok("Hello\n".to_string()));
    assert_eq!(t.translate_document("Bonjour. Merci.", &mut cache), Ok("Bonjour.\nMerci.\n".to_string()));
    assert_eq!(cache.len(), 3);
}

#[test]
fn a_document_fails_where_the_cache_fails() {
    let t = Translator::builder().batch_size(1).build().unwrap();
    let mut full = ContentCache::bounded(1);
    assert_eq!(
        t.translate_document("Un. Deux.", &mut full),
        Err(TranslateError::Merge(MergeError::IncompleteOutput(1)))
    );
    assert_eq!(full.len(), 1);
    let mut bad = ContentCache::new();
    bad.write_bytes(&cache_key("Un."), vec![0xff, 0xfe]).unwrap();
    assert_eq!(
        t.translate_document("Un. Deux.", &mut bad),
        Err(TranslateError::Merge(MergeError::CorruptEntry(0)))
    );
    let mut zero = Translator::builder().build().unwrap();
    zero.batch = 0;
    let mut cache = ContentCache::new();
    assert_eq!(
        zero.translate_document("Un.", &mut cache),
        Err(TranslateError::Config(ConfigError::ZeroBatchSize))
    );
    assert_eq!(cache.len(), 0);
}
