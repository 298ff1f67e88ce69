use transparentlog::{
    check_record, hash, proof_positions, split_cached, InMemoryLog, InMemoryLogClientBuilder,
    LogClient, LogRecord, LogTree, Record, TransparentLog,
};

fn log_of(n: usize) -> InMemoryLog<LogRecord> {
    let mut log: InMemoryLog<LogRecord> = InMemoryLog::new();
    for i in 0..n {
        log.append(LogRecord { text: format!("rec{}", i) }).unwrap();
    }
    log
}

#[test]
fn a_checked_record_leaves_its_proof_cached() {
    let log = log_of(13);
    let mut client = InMemoryLogClientBuilder::open(LogTree { size: 0, hash: String::new() }).build();
    let h9 = hash(&LogRecord::new("rec9")).unwrap();
    let (_, missing) = split_cached(&client, &proof_positions(9, 13));
    assert_eq!(4, missing.len());
    assert!(check_record(&mut client, &log, &Record { id: 9, hash: h9 }).unwrap());
    let (cached, missing) = split_cached(&client, &proof_positions(9, 13));
    assert!(missing.is_empty());
    assert_eq!(4, cached.len());
    // The proof for record 8 needs the leaf 9, which the first check cached
    // once it verified: nothing is left to ask the log for.
    let (cached, missing) = split_cached(&client, &proof_positions(8, 13));
    assert!(missing.is_empty());
    assert_eq!(4, cached.len());
    assert_eq!(Some(hash(&LogRecord::new("rec9")).unwrap()), client.cached(&(0, 9).into()));
    let h8 = hash(&LogRecord::new("rec8")).unwrap();
    assert!(check_record(&mut client, &log, &Record { id: 8, hash: h8 }).unwrap());
}

#[test]
fn cached_hashes_are_the_logs() {
    let log = log_of(13);
    let mut client = InMemoryLogClientBuilder::open(LogTree { size: 0, hash: String::new() }).build();
    let h9 = hash(&LogRecord::new("rec9")).unwrap();
    assert!(check_record(&mut client, &log, &Record { id: 9, hash: h9 }).unwrap());
    for p in proof_positions(9, 13) {
        assert_eq!(Some(log.get_hash(p.level, p.index).unwrap()), client.cached(&p));
    }
}

#[test]
fn a_claim_past_the_log_is_refused() {
    let log = log_of(1);
    let mut client = InMemoryLogClientBuilder::open(LogTree { size: 0, hash: String::new() }).build();
    let h0 = hash(&LogRecord::new("rec0")).unwrap();
    assert_eq!(Ok(false), check_record(&mut client, &log, &Record { id: 1, hash: h0.clone() }));
    assert!(client.cached(&(0, 1).into()).is_none());
    assert!(check_record(&mut client, &log, &Record { id: 0, hash: h0 }).unwrap());
}

#[test]
fn a_failed_prefix_proof_changes_nothing() {
    let log = log_of(4);
    let mut client = InMemoryLogClientBuilder::new(&log).unwrap().build();
    let mut forked: InMemoryLog<LogRecord> = InMemoryLog::new();
    forked.append(LogRecord::new("fork")).unwrap();
    for i in 1..8 {
        forked.append(LogRecord { text: format!("rec{}", i) }).unwrap();
    }
    let h = hash(&LogRecord::new("rec6")).unwrap();
    assert_eq!(Ok(false), check_record(&mut client, &forked, &Record { id: 6, hash: h }));
    assert_eq!(4, client.latest().size);
    let (cached, _) = split_cached(&client, &proof_positions(2, 4));
    assert!(cached.is_empty());
}

#[test]
fn failed_checks_cache_nothing() {
    let log = log_of(13);
    let mut client = InMemoryLogClientBuilder::open(LogTree { size: 0, hash: String::new() }).build();
    let wrong = hash(&LogRecord::new("nope")).unwrap();
    assert!(!check_record(&mut client, &log, &Record { id: 9, hash: wrong }).unwrap());
    assert!(client.cached(&(0, 8).into()).is_none());
    assert_eq!(13, client.latest().size);
}

#[test]
fn a_client_without_cache_keeps_nothing() {
    let log = log_of(13);
    let mut client = InMemoryLogClientBuilder::open(LogTree { size: 0, hash: String::new() })
        .no_cache()
        .build();
    let h9 = hash(&LogRecord::new("rec9")).unwrap();
    assert!(check_record(&mut client, &log, &Record { id: 9, hash: h9 }).unwrap());
    let (cached, missing) = split_cached(&client, &proof_positions(9, 13));
    assert!(cached.is_empty());
    assert_eq!(4, missing.len());
}

#[test]
fn level_lengths_follow_the_log_size() {
    let log = log_of(13);
    assert_eq!(vec![13, 6, 3, 1], log.level_lengths());
    assert_eq!(13, log.size().unwrap());
}
