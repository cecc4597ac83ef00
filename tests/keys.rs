use std::hash::{BuildHasher, Hash, Hasher};

use log_sharder::{get_even_partition, keyed_line, Error, ErrorKind, LineData, MsgKey, MsgKeyRaw, ReadError, RunCfg};
use rand::{distributions::Standard, thread_rng, Rng};

fn check_hash_equivalence(raw: &MsgKeyRaw) {
    let k = MsgKey::from_raw(raw).unwrap();

    let b = xxhash_rust::xxh3::Xxh3Builder::new().with_seed(rand::random());
    let mut state0 = b.build_hasher();
    let mut state1 = b.build_hasher();

    k.hash(&mut state0);
    k.hash(&mut state1);

    assert_eq!(state0.finish(), state1.finish());
}

#[test]
fn test_msg_key_hash_equivalence() {
    check_hash_equivalence(&MsgKeyRaw {
        info_meta_service: "foo",
        info_meta_env: "thsugfsdfgsdfg",
        info_timestamp: "2022-12-17T17:57:08.129711647+00:00",
    });

    for _ in 0..100 {
        check_hash_equivalence(&MsgKeyRaw {
            info_meta_service: thread_rng()
                .sample_iter::<u8, _>(Standard)
                .map(char::from)
                .take(10)
                .collect::<String>()
                .as_str(),
            info_meta_env: thread_rng()
                .sample_iter::<u8, _>(Standard)
                .map(char::from)
                .take(10)
                .collect::<String>()
                .as_str(),
            info_timestamp: "2022-12-17T17:57:08.129711647+00:00",
        });
    }
}

fn key_of(service: &str, env: &str, ts: &str) -> Option<MsgKey> {
    MsgKey::from_raw(&MsgKeyRaw { info_meta_service: service, info_meta_env: env, info_timestamp: ts })
}

#[test]
fn partition_spreads_the_remainder_first() {
    assert_eq!(get_even_partition(3, 10), vec![4, 3, 3]);
    assert_eq!(get_even_partition(4, 8), vec![2, 2, 2, 2]);
    assert_eq!(get_even_partition(1, 0), vec![0]);
    assert_eq!(get_even_partition(5, 3), vec![1, 1, 1, 0, 0]);
    let v = get_even_partition(8, 64);
    assert_eq!(v.iter().sum::<usize>(), 64);
}

#[test]
fn key_name_is_service_env_date() {
    let k = key_of("a", "e", "2024-01-01T00:00:00Z").unwrap();
    assert_eq!(k.name(), "a_e_2024-01-01");
}

#[test]
fn key_date_is_the_offsets_local_date() {
    let k = key_of("a", "e", "2024-01-01T23:30:00-05:00").unwrap();
    assert_eq!(k.name(), "a_e_2024-01-01");
    let k = key_of("a", "e", "2024-01-02T00:30:00+05:00").unwrap();
    assert_eq!(k.name(), "a_e_2024-01-02");
}

#[test]
fn key_rejects_a_timestamp_that_is_not_rfc3339() {
    assert!(key_of("a", "e", "2024-01-01").is_none());
    assert!(key_of("a", "e", "2024-13-01T00:00:00Z").is_none());
    assert!(key_of("a", "e", "yesterday").is_none());
}

#[test]
fn keys_of_one_date_are_equal() {
    let a = key_of("svc", "prod", "2024-03-05T01:02:03Z").unwrap();
    let b = key_of("svc", "prod", "2024-03-05T22:59:59.123+01:00").unwrap();
    assert!(a == b);
    assert_eq!(a.hash_value(), b.hash_value());
    let c = key_of("svc", "prod", "2024-03-06T01:02:03Z").unwrap();
    assert!(a != c);
}

#[test]
fn key_hash_is_xxh3_of_the_name() {
    let k = key_of("a", "e", "2024-01-01T00:00:00Z").unwrap();
    let mut h = xxhash_rust::xxh3::Xxh3Builder::new().build();
    "a_e_2024-01-01".hash(&mut h);
    assert_eq!(k.hash_value(), h.finish());
    assert_ne!(k.hash_value(), 0);
}

#[test]
fn path_joins_directory_and_name() {
    let k = key_of("a", "e", "2024-01-01T00:00:00Z").unwrap();
    assert_eq!(k.path_to("out"), "out/a_e_2024-01-01.json.gz");
    assert_eq!(k.path_to("out/"), "out/a_e_2024-01-01.json.gz");
    assert_eq!(k.path_to(""), "a_e_2024-01-01.json.gz");
}

#[test]
fn parse_keeps_the_line_and_adds_a_newline() {
    let line = r#"{"message":"hi",  "@timestamp":"2024-01-01T00:00:00Z","@meta":{"service":"a","env":"e"}}"#;
    let d = LineData::parse(line).unwrap();
    assert_eq!(d.original_line_text(), format!("{}\n", line));
    assert_eq!(d.key().name(), "a_e_2024-01-01");
}

fn invalid_line_text(r: Result<LineData, ReadError>) -> String {
    match r {
        Err(ReadError::InvalidLine(s)) => s,
        _ => panic!("expected an invalid line"),
    }
}

#[test]
fn parse_rejects_a_line_without_service() {
    let line = r#"{"@timestamp":"2024-01-01T00:00:00Z","@meta":{"env":"e"}}"#;
    assert_eq!(invalid_line_text(LineData::parse(line)), line);
}

#[test]
fn parse_rejects_malformed_json() {
    let line = r#"{"@timestamp":"2024-01-01T00:00:00Z","@meta":{"service":"a","env":"e"}"#;
    assert_eq!(invalid_line_text(LineData::parse(line)), line);
    assert_eq!(invalid_line_text(LineData::parse("")), "");
}

#[test]
fn parse_rejects_wrong_types_and_bad_timestamps() {
    let line = r#"{"@timestamp":"2024-01-01T00:00:00Z","@meta":{"service":"a","env":3}}"#;
    assert_eq!(invalid_line_text(LineData::parse(line)), line);
    let line = r#"{"@timestamp":"noon","@meta":{"service":"a","env":"e"}}"#;
    assert_eq!(invalid_line_text(LineData::parse(line)), line);
    let line = r#"["@timestamp","@meta"]"#;
    assert_eq!(invalid_line_text(LineData::parse(line)), line);
}

#[test]
fn invalid_line_aborts_by_default_and_is_skipped_when_tolerant() {
    let line = r#"{"@timestamp":"2024-01-01T00:00:00Z","@meta":{"env":"e"}}"#;
    match keyed_line(line, false) {
        Err(ReadError::InvalidLine(s)) => assert_eq!(s, line),
        _ => panic!("expected an invalid line"),
    }
    assert!(matches!(keyed_line(line, true), Ok(None)));
    let good = r#"{"@timestamp":"2024-01-01T00:00:00Z","@meta":{"service":"a","env":"e"}}"#;
    let d = keyed_line(good, true).unwrap().unwrap();
    assert_eq!(d.key().name(), "a_e_2024-01-01");
}

#[test]
fn error_wraps_a_read_error() {
    let e = Error::from(ReadError::InvalidLine("x".to_string()));
    match e.kind() {
        ErrorKind::ReadErr(ReadError::InvalidLine(s)) => assert_eq!(s, "x"),
        _ => panic!("wrong kind"),
    }
    assert!(matches!(Error::new(ErrorKind::ShardTooLarge).kind(), ErrorKind::ShardTooLarge));
}

#[test]
fn config_needs_a_worker_and_a_file_for_each() {
    assert!(RunCfg::new("in".to_string(), "out".to_string(), 0, 4, false).is_none());
    assert!(RunCfg::new("in".to_string(), "out".to_string(), 3, 2, false).is_none());
    let c = RunCfg::new("in".to_string(), "out".to_string(), 2, 2, true).unwrap();
    assert_eq!(c.input_file(), "in");
    assert_eq!(c.output_dir(), "out");
    assert_eq!(c.output_threads(), 2);
    assert_eq!(c.max_active_files(), 2);
    assert!(c.skip_invalid_lines());
}
