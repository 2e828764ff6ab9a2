use keyword_extraction_pipeline::serde_hex::{decode32, encode};
use keyword_extraction_pipeline::config::{Config, Thresholds};
use keyword_extraction_pipeline::resources::{Resources, DEFAULT_STOPWORDS};
use keyword_extraction_pipeline::version::{PipelineVersion, PARSER_VERSIONS};

#[test]
fn tracks_parser_versions() {
    assert!(!PARSER_VERSIONS.is_empty(), "no tracked parser versions");
}

#[test]
fn round_trips_a_digest() {
    let bytes: [u8; 32] = *blake3::hash(b"kep").as_bytes();
    assert_eq!(decode32(&encode(&bytes)).unwrap(), bytes);
}

#[test]
fn rejects_a_truncated_digest_rather_than_padding_it() {
    assert!(decode32("00ff").is_err());
    assert!(decode32(&"z".repeat(64)).is_err());
}

#[test]
fn a_stamp_round_trips_through_its_hex_form_and_shortens_to_six_bytes() {
    let v = PipelineVersion([0xab; 32]);
    assert_eq!(PipelineVersion::parse_hex(&v.to_hex()).unwrap(), v);
    assert_eq!(v.short(), "abababababab");
    assert_eq!(decode32(&"AB".repeat(32)).unwrap(), [0xab; 32]);
    assert_eq!(decode32(&"+f".repeat(32)), Err("not hex"));
    assert_eq!(decode32("00ff"), Err("expected 64 hex characters"));
    assert_eq!(decode32(&"zz".repeat(32)), Err("not hex"));
}

#[test]
fn is_stable_across_calls() {
    let (cfg, res) = (Config::default(), Resources::default());
    assert_eq!(PipelineVersion::compute(&cfg, &res), PipelineVersion::compute(&cfg, &res));
}

#[test]
fn changes_with_config() {
    let res = Resources::default();
    let base = PipelineVersion::compute(&Config::default(), &res);

    let mut thresholds = Thresholds::default();
    thresholds.identifier = (f32::from_bits(thresholds.identifier) + 0.01).to_bits();
    let cfg = Config { thresholds, ..Config::default() };
    assert_ne!(base, PipelineVersion::compute(&cfg, &res));

    let cfg = Config { enable_topical: false, ..Config::default() };
    assert_ne!(base, PipelineVersion::compute(&cfg, &res));
}

#[test]
fn changes_with_resources() {
    let cfg = Config::default();
    let base = PipelineVersion::compute(&cfg, &Resources::default());

    let mut res = Resources::default();
    res.wordlist_digest[0] ^= 0xff;
    assert_ne!(base, PipelineVersion::compute(&cfg, &res));
}

#[test]
fn retaining_features_does_not_move_the_stamp() {
    let res = Resources::default();
    let base = PipelineVersion::compute(&Config::default(), &res);
    let cfg = Config { retain_features: true, ..Config::default() };
    assert_eq!(base, PipelineVersion::compute(&cfg, &res));
    assert_eq!(Config::default().feed(), cfg.feed());
    assert_eq!(Config::default().feed().len(), 103);
}

#[test]
fn changes_with_the_lemma_list() {
    let cfg = Config::default();
    let a = Resources::from_lists("the\nof\n", DEFAULT_STOPWORDS, "mice mouse\n", &cfg);
    let b = Resources::from_lists("the\nof\n", DEFAULT_STOPWORDS, "geese goose\n", &cfg);
    assert_ne!(PipelineVersion::compute(&cfg, &a), PipelineVersion::compute(&cfg, &b));
    let c = Resources::from_lists("the\nof\n", DEFAULT_STOPWORDS, "mice mouse\n", &cfg);
    assert_eq!(PipelineVersion::compute(&cfg, &a), PipelineVersion::compute(&cfg, &c));
}

#[test]
fn decode_accepts_hex_digits_only() {
    assert_eq!(decode32(&"+0".repeat(32)), Err("not hex"));
    assert_eq!(decode32(&"0f".repeat(32)).unwrap(), [0x0f; 32]);
}

#[test]
fn an_uppercase_digest_decodes_as_the_lowercase_one_does() {
    let bytes: [u8; 32] = *blake3::hash(b"kep").as_bytes();
    assert_eq!(decode32(&encode(&bytes).to_uppercase()).unwrap(), bytes);
}
