use std::collections::HashMap;
use std::io::{Read, Write};

use log_sharder::{
    keyed_line, ErrorKind, FilePool, LineData, LineSource, LineSplitter, MsgKey, MsgKeyRaw, ReadError, Router,
    ShardEncoders, TakePlan, Worker, WriteJob, LOW_WATER_MARK,
};

fn key(service: &str) -> MsgKey {
    MsgKey::from_raw(&MsgKeyRaw {
        info_meta_service: service,
        info_meta_env: "e",
        info_timestamp: "2024-01-01T00:00:00Z",
    })
    .unwrap()
}

fn record(service: &str, env: &str, ts: &str, msg: &str) -> String {
    format!(r#"{{"message":"{}","@timestamp":"{}","@meta":{{"service":"{}","env":"{}"}}}}"#, msg, ts, service, env)
}

fn gzip(data: &[u8]) -> Vec<u8> {
    let mut e = flate2::write::GzEncoder::new(Vec::new(), flate2::Compression::default());
    e.write_all(data).unwrap();
    e.finish().unwrap()
}

fn gunzip(data: &[u8]) -> String {
    let mut out = String::new();
    flate2::read::MultiGzDecoder::new(data).read_to_string(&mut out).unwrap();
    out
}

#[test]
fn router_assigns_new_keys_round_robin_and_sticks() {
    let mut r = Router::new(3);
    assert_eq!(r.route(&key("a")), 0);
    assert_eq!(r.route(&key("b")), 1);
    assert_eq!(r.route(&key("a")), 0);
    assert_eq!(r.route(&key("c")), 2);
    assert_eq!(r.route(&key("d")), 0);
    assert_eq!(r.route(&key("b")), 1);
    assert_eq!(r.num_workers(), 3);
}

#[test]
fn pool_creates_reuses_evicts_and_reopens() {
    let mut p = FilePool::new(2);
    let (a, b, c) = (key("a"), key("b"), key("c"));
    assert!(matches!(p.take(&a), TakePlan::Open { evict: None, reopen: false, cursor: 0 }));
    p.give(a.clone(), 10);
    assert!(matches!(p.take(&a), TakePlan::Reuse { cursor: 10 }));
    p.give(a.clone(), 15);
    assert!(matches!(p.take(&b), TakePlan::Open { evict: None, reopen: false, cursor: 0 }));
    p.give(b.clone(), 7);
    assert_eq!(p.open_files(), 2);
    match p.take(&c) {
        TakePlan::Open { evict: Some(e), reopen: false, cursor: 0 } => assert!(e == a),
        _ => panic!("expected the least recently given file to be closed"),
    }
    p.give(c.clone(), 3);
    assert_eq!(p.open_files(), 2);
    match p.take(&a) {
        TakePlan::Open { evict: Some(e), reopen: true, cursor: 15 } => assert!(e == b),
        _ => panic!("expected a reopen at the stored cursor"),
    }
    assert_eq!(p.taken_cursor(&a), Some(15));
    assert_eq!(p.taken_count(), 1);
    p.give(a.clone(), 20);
    let closing = p.finish();
    assert_eq!(closing.len(), 2);
    assert!(closing[0] == c);
    assert!(closing[1] == a);
    assert!(p.has_no_file_handles());
    assert_eq!(p.max_open_files(), 2);
    let mut q = FilePool::new(1);
    q.take(&a);
    assert!(q.has_no_file_handles());
    q.give(a.clone(), 1);
    assert!(!q.has_no_file_handles());
}

#[test]
fn splitter_cuts_at_newlines_and_keeps_the_rest() {
    let mut s = LineSplitter::new();
    assert_eq!(s.feed(b"ab\ncd"), vec![b"ab".to_vec()]);
    assert_eq!(s.feed(b"e\n\nf"), vec![b"cde".to_vec(), Vec::new()]);
    assert_eq!(s.finish(), Some(b"f".to_vec()));
    assert_eq!(s.finish(), None);
}

fn read_all(compressed: &[u8], chunk: usize) -> Result<Vec<String>, ReadError> {
    let mut src = LineSource::new();
    let mut out = Vec::new();
    for c in compressed.chunks(chunk) {
        out.extend(src.push_compressed(c)?);
    }
    out.extend(src.finish()?);
    Ok(out)
}

#[test]
fn line_source_reads_every_member_and_the_last_partial_line() {
    let mut input = gzip(b"one\ntwo\n");
    input.extend(gzip("thr\u{e9}e\nfour".as_bytes()));
    for chunk in [1, 7, 1024] {
        let lines = read_all(&input, chunk).unwrap();
        assert_eq!(lines, vec!["one", "two", "thr\u{e9}e", "four"]);
    }
    assert_eq!(read_all(&gzip(b"a\n"), 3).unwrap(), vec!["a"]);
    assert_eq!(read_all(&gzip(b""), 3).unwrap(), Vec::<String>::new());
}

#[test]
fn line_source_rejects_bytes_that_are_not_gzip() {
    assert!(matches!(read_all(b"this is not gzip at all", 4), Err(ReadError::InvalidInput)));
}

#[test]
fn line_source_rejects_lines_that_are_not_utf8() {
    assert!(matches!(read_all(&gzip(b"ok\n\xff\xfe\n"), 5), Err(ReadError::InvalidUtf8)));
}

#[test]
fn encoders_hand_out_bytes_only_past_the_low_water_mark() {
    let mut enc = ShardEncoders::new();
    let mut seed: u64 = 7;
    let mut handed = 0;
    for i in 0..4000 {
        let msg = noise(&mut seed, 60);
        let line = LineData::parse(&record("a", "e", "2024-01-01T00:00:00Z", &format!("{}{}", i, msg))).unwrap();
        if let Some(b) = enc.push_line(&line) {
            assert!(b.len() >= LOW_WATER_MARK);
            handed += 1;
        }
    }
    assert!(handed > 0);
}

/// Carries out a planned append on in-memory files; returns how many files
/// the worker has open while it writes.
fn carry_out(worker: &mut Worker, open: &mut HashMap<String, ()>, files: &mut HashMap<String, Vec<u8>>, job: WriteJob) -> usize {
    let WriteJob { key, plan, bytes } = job;
    let cursor = match plan {
        TakePlan::Reuse { cursor } => cursor,
        TakePlan::Open { evict, reopen, cursor } => {
            if let Some(e) = evict {
                assert!(open.remove(e.name()).is_some());
            }
            if !reopen {
                files.insert(key.name().to_string(), Vec::new());
            }
            open.insert(key.name().to_string(), ());
            cursor
        }
    };
    let f = files.get_mut(key.name()).unwrap();
    assert_eq!(f.len(), cursor);
    f.extend_from_slice(&bytes);
    let now_open = open.len();
    worker.complete(cursor + bytes.len()).unwrap();
    now_open
}

/// Runs the engine in memory: one router and `workers` workers, each with its
/// share of `max_files`. Returns each file's bytes and the most files ever
/// open at once.
fn run_in_memory(lines: &[String], workers: usize, max_files: usize) -> (HashMap<String, Vec<u8>>, usize) {
    let caps = log_sharder::get_even_partition(workers, max_files);
    let mut router = Router::new(workers);
    let mut ws: Vec<Worker> = caps.iter().map(|c| Worker::new(*c)).collect();
    let mut files: HashMap<String, Vec<u8>> = HashMap::new();
    let mut open: Vec<HashMap<String, ()>> = (0..workers).map(|_| HashMap::new()).collect();
    let mut most_open = 0;

    for l in lines {
        let d = keyed_line(l, false).unwrap().unwrap();
        let w = router.route(d.key());
        if let Some(job) = ws[w].accept(&d).unwrap() {
            carry_out(&mut ws[w], &mut open[w], &mut files, job);
            let total: usize = open.iter().map(|o| o.len()).sum();
            most_open = most_open.max(total);
        }
    }
    for (w, mut worker) in ws.into_iter().enumerate() {
        for (k, bytes) in worker.end_streams() {
            let job = worker.begin_append(k, bytes).unwrap();
            carry_out(&mut worker, &mut open[w], &mut files, job);
            let total: usize = open.iter().map(|o| o.len()).sum();
            most_open = most_open.max(total);
        }
        for k in worker.close_all() {
            assert!(open[w].remove(k.name()).is_some());
        }
        assert!(open[w].is_empty());
    }
    (files, most_open)
}

#[test]
fn worker_refuses_an_append_that_ends_elsewhere() {
    let mut w = Worker::new(1);
    assert!(matches!(w.complete(0).unwrap_err().kind(), ErrorKind::InvariantViolation));
    assert!(w.end_streams().is_empty());
    assert!(w.streams_ended());
    let job = w.begin_append(key("a"), vec![1, 2, 3]).unwrap();
    assert!(matches!(job.plan, TakePlan::Open { evict: None, reopen: false, cursor: 0 }));
    assert!(w.is_busy());
    assert!(matches!(w.complete(2).unwrap_err().kind(), ErrorKind::InvariantViolation));
    w.complete(3).unwrap();
    assert!(!w.is_busy());
    let job = w.begin_append(key("a"), vec![4]).unwrap();
    assert!(matches!(job.plan, TakePlan::Reuse { cursor: 3 }));
    w.complete(4).unwrap();
    let job = w.begin_append(key("b"), vec![5, 6]).unwrap();
    match job.plan {
        TakePlan::Open { evict: Some(e), reopen: false, cursor: 0 } => assert_eq!(e.name(), "a_e_2024-01-01"),
        _ => panic!("expected the idle file to be closed first"),
    }
    w.complete(2).unwrap();
    let job = w.begin_append(key("a"), vec![7]).unwrap();
    assert!(matches!(job.plan, TakePlan::Open { evict: Some(_), reopen: true, cursor: 4 }));
    w.complete(5).unwrap();
    let closing = w.close_all();
    assert_eq!(closing.len(), 1);
    assert_eq!(closing[0].name(), "a_e_2024-01-01");
}

fn expected(lines: &[String], name: &str) -> String {
    let mut s = String::new();
    for l in lines {
        if LineData::parse(l).unwrap().key().name() == name {
            s.push_str(l);
            s.push('\n');
        }
    }
    s
}

#[test]
fn single_shard_keeps_its_three_lines_in_order() {
    let lines: Vec<String> =
        (0..3).map(|i| record("a", "e", "2024-01-01T00:00:00Z", &format!("m{}", i))).collect();
    let (files, _) = run_in_memory(&lines, 1, 4);
    assert_eq!(files.len(), 1);
    assert_eq!(gunzip(&files["a_e_2024-01-01"]), expected(&lines, "a_e_2024-01-01"));
    assert_eq!(gunzip(&files["a_e_2024-01-01"]), format!("{}\n{}\n{}\n", lines[0], lines[1], lines[2]));
}

#[test]
fn two_dates_make_two_shards() {
    let lines = vec![
        record("a", "e", "2024-01-01T10:00:00Z", "x"),
        record("a", "e", "2024-01-02T10:00:00Z", "y"),
    ];
    let (files, _) = run_in_memory(&lines, 2, 2);
    assert_eq!(files.len(), 2);
    assert_eq!(gunzip(&files["a_e_2024-01-01"]), format!("{}\n", lines[0]));
    assert_eq!(gunzip(&files["a_e_2024-01-02"]), format!("{}\n", lines[1]));
}

#[test]
fn offset_date_names_the_shard() {
    let lines = vec![record("a", "e", "2024-01-01T23:30:00-05:00", "late")];
    let (files, _) = run_in_memory(&lines, 1, 1);
    assert_eq!(gunzip(&files["a_e_2024-01-01"]), format!("{}\n", lines[0]));
}

/// Letters from a fixed pseudo-random sequence, which compress poorly.
fn noise(seed: &mut u64, n: usize) -> String {
    let mut msg = String::new();
    for _ in 0..n {
        *seed = seed.wrapping_mul(6364136223846793005).wrapping_add(1442695040888963407);
        msg.push((b'a' + (*seed >> 59) as u8) as char);
    }
    msg
}

fn eviction_input() -> Vec<String> {
    let mut lines = Vec::new();
    let mut seed: u64 = 11;
    for round in 0..400 {
        for k in 0..10 {
            let msg = format!("round {} key {} {}", round, k, noise(&mut seed, 80));
            lines.push(record(&format!("svc{}", k), "prod", "2024-05-06T07:08:09Z", &msg));
        }
    }
    lines
}

#[test]
fn eviction_pressure_keeps_two_files_open_and_every_shard_whole() {
    let lines = eviction_input();
    let (files, most_open) = run_in_memory(&lines, 1, 2);
    assert!(most_open <= 2);
    assert_eq!(files.len(), 10);
    for k in 0..10 {
        let name = format!("svc{}_prod_2024-05-06", k);
        assert_eq!(gunzip(&files[&name]), expected(&lines, &name));
    }
}

#[test]
fn rerunning_gives_identical_shards() {
    let lines = eviction_input();
    let (first, _) = run_in_memory(&lines, 1, 2);
    let (second, _) = run_in_memory(&lines, 1, 2);
    assert_eq!(first, second);
    for (name, bytes) in &first {
        assert_eq!(gunzip(bytes), expected(&lines, name));
    }
}

#[test]
fn tolerant_mode_partitions_the_other_lines() {
    let bad = r#"{"@timestamp":"2024-01-01T00:00:00Z","@meta":{"env":"e"}}"#;
    let lines = vec![record("a", "e", "2024-01-01T00:00:00Z", "1"), bad.to_string(), record("b", "e", "2024-01-01T00:00:00Z", "2")];
    let kept: Vec<String> = lines.iter().filter(|l| keyed_line(l, true).unwrap().is_some()).cloned().collect();
    assert_eq!(kept.len(), 2);
    assert!(keyed_line(bad, false).is_err());
    let (files, _) = run_in_memory(&kept, 2, 2);
    assert_eq!(gunzip(&files["a_e_2024-01-01"]), format!("{}\n", lines[0]));
    assert_eq!(gunzip(&files["b_e_2024-01-01"]), format!("{}\n", lines[2]));
}

#[test]
fn encoders_end_each_stream_once_in_first_line_order() {
    let mut enc = ShardEncoders::new();
    let lines = vec![
        record("b", "e", "2024-01-01T00:00:00Z", "1"),
        record("a", "e", "2024-01-01T00:00:00Z", "2"),
        record("b", "e", "2024-01-01T00:00:00Z", "3"),
    ];
    for l in &lines {
        assert!(enc.push_line(&LineData::parse(l).unwrap()).is_none());
    }
    let chunks = enc.finish();
    let names: Vec<&str> = chunks.iter().map(|(k, _)| k.name()).collect();
    assert_eq!(names, vec!["b_e_2024-01-01", "a_e_2024-01-01"]);
    assert_eq!(gunzip(&chunks[0].1), format!("{}\n{}\n", lines[0], lines[2]));
    assert_eq!(gunzip(&chunks[1].1), format!("{}\n", lines[1]));
    assert!(enc.finish().is_empty());
}

#[test]
fn line_source_refuses_an_input_cut_inside_a_member() {
    let whole = gzip(b"one\ntwo\n");
    let cut = &whole[..whole.len() - 4];
    assert!(matches!(read_all(cut, 5), Err(ReadError::InvalidInput)));
    assert_eq!(read_all(&whole, 5).unwrap(), vec!["one", "two"]);
}
