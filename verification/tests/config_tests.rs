use scfs::config_doc::{parse_config, serialize_config};
use scfs::{Config, CONFIG_DEFAULT_BLOCKSIZE};

#[test]
fn serialize_default_config() {
    let c = Config::default();
    assert_eq!(c.blocksize, 2 * 1024 * 1024);
    let bytes = serialize_config(&c);
    assert_eq!(bytes, b"{\"blocksize\":2097152}".to_vec());
}

#[test]
fn serialize_blocksize_one() {
    let c = Config::default().blocksize(1);
    assert_eq!(serialize_config(&c), b"{\"blocksize\":1}".to_vec());
}

#[test]
fn config_round_trip() {
    for b in [1u64, 2, 16, 37, 1024, CONFIG_DEFAULT_BLOCKSIZE, u64::MAX] {
        let c = Config::default().blocksize(b);
        let bytes = serialize_config(&c);
        let parsed = parse_config(&bytes).unwrap();
        assert_eq!(parsed, c);
    }
}

#[test]
fn parse_accepts_whitespace() {
    let parsed = parse_config(b" { \"blocksize\" : 1024 } ").unwrap();
    assert_eq!(parsed.blocksize, 1024);
    let parsed = parse_config(b"{\"blocksize\": 2097152}").unwrap();
    assert_eq!(parsed.blocksize, 2097152);
}

#[test]
fn mount_options_lead_with_defaults() {
    let opts = scfs::mount_options(vec!["nonempty".to_string(), "allow_other".to_string()]);
    assert_eq!(opts, vec!["ro", "fsname=scfs", "nonempty", "allow_other"]);
    assert_eq!(scfs::mount_options(Vec::new()), vec!["ro", "fsname=scfs"]);
}

#[test]
fn parse_rejects_invalid_documents() {
    // The record Cat mode requires; anything else is invalid.
    assert!(parse_config(b"").is_none());
    assert!(parse_config(b"{}").is_none());
    assert!(parse_config(b"{\"blocksize\":}").is_none());
    assert!(parse_config(b"{\"blocksize\":x}").is_none());
    assert!(parse_config(b"{\"blocksize\":01}").is_none());
    assert!(parse_config(b"{\"blocksize\":1").is_none());
    assert!(parse_config(b"{\"blocksize\":1}x").is_none());
    assert!(parse_config(b"{\"size\":1}").is_none());
    // A value past the largest representable block size.
    assert!(parse_config(b"{\"blocksize\":18446744073709551616}").is_none());
}
