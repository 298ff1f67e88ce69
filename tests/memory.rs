use transparentlog::{
    check_record, hash, hash_eight, hash_two, hash_two_strings, prefix_proof_positions,
    proof_positions, verify, verify_tree, InMemoryLog, InMemoryLogClient,
    InMemoryLogClientBuilder, LogClient, LogError, LogRecord, LogTree, LogTreePosition, Record,
    TransparentLog,
};

fn append_multiple(log: &mut InMemoryLog<LogRecord>, nb: usize) -> Result<(), LogError> {
    append_multiple_offset(log, 0, nb)
}

fn append_multiple_offset(
    log: &mut InMemoryLog<LogRecord>,
    start: usize,
    nb: usize,
) -> Result<(), LogError> {
    for i in start..(start + nb) {
        let lr = LogRecord { text: format!("rec{}", i) };
        log.append(lr)?;
    }
    Ok(())
}

fn empty(ml: &mut InMemoryLog<LogRecord>) -> Result<(), LogError> {
    let LogTree { size: s, hash: t } = ml.latest()?;
    assert_eq!(0, s);
    assert_eq!("", &t);
    Ok(())
}

fn add(ml: &mut InMemoryLog<LogRecord>) -> Result<(), LogError> {
    let lr1 = LogRecord::new("rec1");
    let h1 = hash(&lr1)?;
    let Record { id: ix, hash: h1s } = ml.append(lr1)?;
    assert_eq!(0, ix);
    assert_eq!(h1, h1s);
    let og = ml.get(ix)?;
    assert_eq!("rec1", og.unwrap().text);
    let LogTree { size: s, hash: t } = ml.latest()?;
    assert_eq!(1, s);
    assert_eq!(h1, t);
    let lr2 = LogRecord::new("rec2");
    let h2 = hash(&lr2)?;
    let Record { id: ix, hash: h2s } = ml.append(lr2)?;
    assert_eq!(1, ix);
    assert_eq!(h2, h2s);
    let og = ml.get(ix)?;
    assert_eq!("rec2", og.unwrap().text);
    let LogTree { size: s, hash: t } = ml.latest()?;
    assert_eq!(2, s);
    assert_eq!(hash_two_strings(&h1, &h2), t);
    let v = ml.proofs(&proof_positions(1, 2))?;
    assert_eq!(1, v.len());
    assert_eq!(v.get(&(0, 0).into()), Some(&hash(&LogRecord::new("rec1"))?));
    assert!(verify(
        &LogTree { size: s, hash: t },
        &Record { id: 1, hash: hash(&LogRecord::new("rec2"))? },
        &v
    ));
    Ok(())
}

fn test_13(ml: &mut InMemoryLog<LogRecord>) -> Result<(), LogError> {
    append_multiple(ml, 13)?;
    check_13(ml)
}

fn check_13(ml: &InMemoryLog<LogRecord>) -> Result<(), LogError> {
    let LogTree { size: s, hash: t } = ml.latest()?;
    assert_eq!(13, s);
    let v = ml.proofs(&proof_positions(9, 13))?;
    assert_eq!(4, v.len());
    assert_eq!(v.get(&(0, 8).into()), Some(&hash(&LogRecord::new("rec8"))?));
    assert_eq!(v.get(&(1, 5).into()), Some(&hash_two(10)?));
    assert_eq!(v.get(&(3, 0).into()), Some(&hash_eight(0)?));
    assert_eq!(v.get(&(0, 12).into()), Some(&hash(&LogRecord::new("rec12"))?));

    let mut h = hash_two_strings(v.get(&(0, 8).into()).unwrap(), &hash(&LogRecord::new("rec9"))?);
    h = hash_two_strings(&h, v.get(&(1, 5).into()).unwrap());
    h = hash_two_strings(&h, v.get(&(0, 12).into()).unwrap());
    h = hash_two_strings(v.get(&(3, 0).into()).unwrap(), &h);
    assert_eq!(t, h);

    assert!(verify(
        &LogTree { size: s, hash: t },
        &Record { id: 9, hash: hash(&LogRecord::new("rec9"))? },
        &v
    ));
    Ok(())
}

fn client_13(
    ml: &mut InMemoryLog<LogRecord>,
    client: &mut InMemoryLogClient,
) -> Result<(), LogError> {
    assert_eq!(0, client.latest().size);
    assert_eq!(String::new(), client.latest().hash);
    assert!(client.cached(&(0, 8).into()).is_none());
    append_multiple(ml, 13)?;
    let lr = ml.get(9)?.unwrap();
    let claim = Record { id: 9, hash: hash(&lr)? };
    assert!(check_record(client, ml, &claim)?);
    assert_eq!(13, client.latest().size);
    assert!(client.cached(&(0, 8).into()).is_some());
    Ok(())
}

fn client_13_nocache(
    ml: &mut InMemoryLog<LogRecord>,
    client: &mut InMemoryLogClient,
) -> Result<(), LogError> {
    assert_eq!(0, client.latest().size);
    assert_eq!(String::new(), client.latest().hash);
    assert!(client.cached(&(0, 8).into()).is_none());
    append_multiple(ml, 13)?;
    let lr = ml.get(9)?.unwrap();
    let claim = Record { id: 9, hash: hash(&lr)? };
    assert!(check_record(client, ml, &claim)?);
    assert_eq!(13, client.latest().size);
    assert!(client.cached(&(0, 8).into()).is_none());
    Ok(())
}

fn test_verify_tree_prefix(ml: &mut InMemoryLog<LogRecord>) -> Result<(), LogError> {
    append_multiple(ml, 7)?;
    let lt0 = ml.latest()?;
    append_multiple_offset(ml, 8, 6)?;
    let lt1 = ml.latest()?;
    let v = prefix_proof_positions(7, 13)?;
    let proofs = ml.proofs(&v)?;
    assert!(verify_tree(&lt0, &proofs));
    assert!(verify_tree(&lt1, &proofs));
    Ok(())
}

#[test]
fn memory_empty() -> Result<(), LogError> {
    let mut ml: InMemoryLog<LogRecord> = InMemoryLog::default();
    empty(&mut ml)
}

#[test]
fn memory_add() -> Result<(), LogError> {
    let mut ml: InMemoryLog<LogRecord> = InMemoryLog::default();
    add(&mut ml)
}

#[test]
fn memory_13() -> Result<(), LogError> {
    let mut ml: InMemoryLog<LogRecord> = InMemoryLog::default();
    test_13(&mut ml)
}

#[test]
fn client_memory_13() -> Result<(), LogError> {
    let mut ml: InMemoryLog<LogRecord> = InMemoryLog::default();
    let mut client = InMemoryLogClientBuilder::new(&ml)?.build();
    client_13(&mut ml, &mut client)
}

#[test]
fn client_memory_13_no_cache() -> Result<(), LogError> {
    let mut ml: InMemoryLog<LogRecord> = InMemoryLog::default();
    let mut client = InMemoryLogClientBuilder::new(&ml)?.no_cache().build();
    client_13_nocache(&mut ml, &mut client)
}

#[test]
fn memory_verify_tree_prefix() -> Result<(), LogError> {
    let mut ml: InMemoryLog<LogRecord> = InMemoryLog::default();
    test_verify_tree_prefix(&mut ml)
}

fn log_of(n: usize) -> InMemoryLog<LogRecord> {
    let mut ml: InMemoryLog<LogRecord> = InMemoryLog::new();
    append_multiple(&mut ml, n).unwrap();
    ml
}

#[test]
fn empty_log_has_no_root_and_no_record() {
    let ml: InMemoryLog<LogRecord> = InMemoryLog::new();
    let t = ml.latest().unwrap();
    assert_eq!(0, t.size);
    assert_eq!("", t.hash);
    assert!(ml.get(0).unwrap().is_none());
}

#[test]
fn two_records_root_and_inclusion() {
    let ml = log_of(2);
    let h0 = hash(&LogRecord::new("rec0")).unwrap();
    let h1 = hash(&LogRecord::new("rec1")).unwrap();
    let t = ml.latest().unwrap();
    assert_eq!(2, t.size);
    assert_eq!(hash_two_strings(&h0, &h1), t.hash);
    assert_eq!(vec![LogTreePosition { level: 0, index: 0 }], proof_positions(1, 2));
    let v = ml.proofs(&proof_positions(1, 2)).unwrap();
    assert_eq!(Some(&h0), v.get(&(0, 0).into()));
    assert!(verify(&t, &Record { id: 1, hash: h1 }, &v));
}

#[test]
fn leaf_hash_is_a_64_digit_hex_digest_of_the_encoding() {
    let h = hash(&LogRecord::new("rec0")).unwrap();
    assert_eq!(64, h.len());
    assert!(h.chars().all(|c| c.is_ascii_hexdigit() && !c.is_ascii_uppercase()));
    assert_ne!(h, hash(&LogRecord::new("rec1")).unwrap());
    assert_eq!(h, hash(&LogRecord::new("rec0")).unwrap());
    assert_ne!(hash_two_strings("a", "b"), hash_two_strings("b", "a"));
    assert_eq!(64, hash_two_strings("", "").len());
}

#[test]
fn size_thirteen_inclusion_for_nine() {
    let ml = log_of(13);
    check_13(&ml).unwrap();
}

#[test]
fn tampered_proofs_fail() {
    let ml = log_of(13);
    let t = ml.latest().unwrap();
    let h9 = hash(&LogRecord::new("rec9")).unwrap();
    let positions = proof_positions(9, 13);
    let good = ml.proofs(&positions).unwrap();
    assert!(verify(&t, &Record { id: 9, hash: h9.clone() }, &good));
    for p in positions.iter() {
        let mut bad = ml.proofs(&positions).unwrap();
        bad.insert(*p, hash(&LogRecord::new("other")).unwrap());
        assert!(!verify(&t, &Record { id: 9, hash: h9.clone() }, &bad));
    }
    assert!(!verify(&t, &Record { id: 8, hash: h9.clone() }, &good));
    let h8 = hash(&LogRecord::new("rec8")).unwrap();
    assert!(!verify(&t, &Record { id: 9, hash: h8 }, &good));
}

#[test]
fn consistency_seven_to_thirteen_verifies_both_roots() {
    let mut ml = log_of(7);
    let w7 = ml.latest().unwrap();
    append_multiple_offset(&mut ml, 7, 6).unwrap();
    let w13 = ml.latest().unwrap();
    let v = prefix_proof_positions(7, 13).unwrap();
    assert_eq!(6, v.len());
    let proofs = ml.proofs(&v).unwrap();
    assert!(verify_tree(&w7, &proofs));
    assert!(verify_tree(&w13, &proofs));
    assert!(!verify_tree(&LogTree { size: 0, hash: String::new() }, &proofs));
}

#[test]
fn every_record_of_a_log_of_sixteen_is_included() {
    let ml = log_of(16);
    let t = ml.latest().unwrap();
    for i in 0..16_usize {
        let h = hash(&LogRecord { text: format!("rec{}", i) }).unwrap();
        let v = ml.proofs(&proof_positions(i as u64, 16)).unwrap();
        assert!(verify(&t, &Record { id: i as u64, hash: h }, &v));
    }
}

#[test]
fn inclusion_proofs_that_miss_a_leaf_do_not_verify() {
    // For 13 records, the proof of a record below 8 holds (2, 2) for the
    // leaves 8 to 12 but not the leaf 12 that the right subtree also needs.
    let ml = log_of(13);
    let t = ml.latest().unwrap();
    for i in 0..13_usize {
        let h = hash(&LogRecord { text: format!("rec{}", i) }).unwrap();
        let v = ml.proofs(&proof_positions(i as u64, 13)).unwrap();
        assert_eq!(i >= 8, verify(&t, &Record { id: i as u64, hash: h }, &v), "i={}", i);
    }
    let ml = log_of(7);
    let t = ml.latest().unwrap();
    let h = hash(&LogRecord::new("rec0")).unwrap();
    let v = ml.proofs(&proof_positions(0, 7)).unwrap();
    assert!(!verify(&t, &Record { id: 0, hash: h }, &v));
}

#[test]
fn two_logs_reach_the_same_roots() {
    let mut a: InMemoryLog<LogRecord> = InMemoryLog::new();
    let mut b: InMemoryLog<LogRecord> = InMemoryLog::new();
    for i in 0..20_usize {
        let r = LogRecord { text: format!("rec{}", i) };
        a.append(r.clone()).unwrap();
        b.append(r).unwrap();
        assert_eq!(a.latest().unwrap().hash, b.latest().unwrap().hash);
    }
}

#[test]
fn append_grows_by_one_and_keeps_the_old_root_provable() {
    let mut ml: InMemoryLog<LogRecord> = InMemoryLog::new();
    let mut previous = ml.latest().unwrap();
    for i in 0..10_usize {
        let rec = ml.append(LogRecord { text: format!("rec{}", i) }).unwrap();
        assert_eq!(i as u64, rec.id);
        assert_eq!(i as u64 + 1, ml.size().unwrap());
        let now = ml.latest().unwrap();
        assert_eq!(previous.size + 1, now.size);
        if previous.size > 0 {
            let v = prefix_proof_positions(previous.size, now.size).unwrap();
            let proofs = ml.proofs(&v).unwrap();
            assert!(verify_tree(&previous, &proofs));
            assert!(verify_tree(&now, &proofs));
        }
        previous = now;
    }
}

#[test]
fn client_workflow_uses_the_cache() {
    let ml = log_of(13);
    let mut client = InMemoryLogClientBuilder::open(LogTree { size: 0, hash: String::new() }).build();
    let h9 = hash(&LogRecord::new("rec9")).unwrap();
    assert!(check_record(&mut client, &ml, &Record { id: 9, hash: h9 }).unwrap());
    assert_eq!(13, client.latest().size);
    assert_eq!(ml.latest().unwrap().hash, client.latest().hash);
    for p in [(0, 8), (1, 5), (3, 0), (0, 12)] {
        assert!(client.cached(&p.into()).is_some());
    }
    let h8 = hash(&LogRecord::new("rec8")).unwrap();
    assert!(check_record(&mut client, &ml, &Record { id: 8, hash: h8 }).unwrap());
}

#[test]
fn client_with_and_without_cache_agree() {
    let mut ml = log_of(5);
    let mut cached = InMemoryLogClientBuilder::new(&ml).unwrap().build();
    let mut plain = InMemoryLogClientBuilder::new(&ml).unwrap().no_cache().build();
    append_multiple_offset(&mut ml, 5, 11).unwrap();
    for i in 0..16_usize {
        let good = Record { id: i as u64, hash: hash(&LogRecord { text: format!("rec{}", i) }).unwrap() };
        let bad = Record { id: i as u64, hash: hash(&LogRecord::new("x")).unwrap() };
        let a = check_record(&mut cached, &ml, &good).unwrap();
        let b = check_record(&mut plain, &ml, &good).unwrap();
        assert!(a);
        assert_eq!(a, b);
        let a = check_record(&mut cached, &ml, &bad).unwrap();
        let b = check_record(&mut plain, &ml, &bad).unwrap();
        assert!(!a);
        assert_eq!(a, b);
    }
}

#[test]
fn client_rejects_a_record_past_the_log() {
    let ml = log_of(3);
    let mut client = InMemoryLogClientBuilder::new(&ml).unwrap().build();
    let h = hash(&LogRecord::new("rec3")).unwrap();
    assert_eq!(Err(LogError::Precondition), check_record(&mut client, &ml, &Record { id: 3, hash: h }));
    assert_eq!(3, client.latest().size);
    let empty: InMemoryLog<LogRecord> = InMemoryLog::new();
    let mut fresh = InMemoryLogClientBuilder::new(&empty).unwrap().build();
    let h0 = hash(&LogRecord::new("rec0")).unwrap();
    assert_eq!(Ok(false), check_record(&mut fresh, &empty, &Record { id: 0, hash: h0 }));
}

#[test]
fn client_refuses_a_forked_log() {
    let ml = log_of(4);
    let mut client = InMemoryLogClientBuilder::new(&ml).unwrap().build();
    let mut other: InMemoryLog<LogRecord> = InMemoryLog::new();
    other.append(LogRecord::new("fork")).unwrap();
    append_multiple_offset(&mut other, 1, 7).unwrap();
    let h = hash(&LogRecord::new("rec6")).unwrap();
    assert_eq!(Ok(false), check_record(&mut client, &other, &Record { id: 6, hash: h }));
    assert_eq!(4, client.latest().size);
}

#[test]
fn hash_lookups_report_missing_levels_and_indexes() {
    let ml = log_of(3);
    assert_eq!(Err(LogError::InvalidHeight(2)), ml.get_hash(2, 0));
    assert_eq!(Err(LogError::InvalidIndex(1, 1)), ml.get_hash(1, 1));
    assert_eq!(hash(&LogRecord::new("rec2")).unwrap(), ml.get_hash(0, 2).unwrap());
}

#[test]
fn proofs_omit_positions_outside_the_tree() {
    let ml = log_of(5);
    let v = ml
        .proofs(&vec![(0, 4).into(), (0, 5).into(), (2, 1).into(), (7, 0).into(), (2, 0).into()])
        .unwrap();
    assert_eq!(2, v.len());
    assert_eq!(Some(&hash(&LogRecord::new("rec4")).unwrap()), v.get(&(0, 4).into()));
    assert!(v.get(&(0, 5).into()).is_none());
    assert!(v.contains_key(&(2, 0).into()));
}

#[test]
fn a_leaf_past_the_tree_plays_no_part_in_the_root() {
    // The root is recomputed from the tree's own positions only, so a claim
    // past the last leaf is ignored: the proofs alone give the root.
    let ml = log_of(1);
    let t = ml.latest().unwrap();
    let h0 = hash(&LogRecord::new("rec0")).unwrap();
    let other = hash(&LogRecord::new("other")).unwrap();
    let v = ml.proofs(&proof_positions(1, 1)).unwrap();
    assert!(verify(&t, &Record { id: 1, hash: other }, &v));
    let v = ml.proofs(&proof_positions(0, 1)).unwrap();
    assert!(verify(&t, &Record { id: 0, hash: h0 }, &v));
    assert!(!verify(&LogTree { size: 0, hash: String::new() }, &Record { id: 0, hash: String::new() }, &v));
}
