//! The verifying client: it trusts a witness (a size and a root), checks
//! claimed records against the log with as few proof hashes as it can, and
//! caches the hashes that verified.
use vstd::prelude::*;

use crate::error::LogError;
use crate::geometry::{
    consistency_positions, inclusion_positions, position_set, position_views,
    prefix_proof_positions, proof_positions,
};
use crate::levels::{log_wf, stored_nodes};
use crate::log::TransparentLog;
use crate::position::{LogTree, LogTreePosition, Record};
use crate::proof_map::ProofMap;
use crate::records::LogEntry;
use crate::root::log_root;
use crate::verification::{inclusion_verified, tree_verified, verify, verify_tree};

verus! {

/// The state a client keeps: the last witness it verified, and a cache of
/// node hashes.
pub trait LogClient {
    /// The witness: a log size and its root.
    spec fn witness(&self) -> (nat, Seq<char>);

    /// The cached node hashes.
    spec fn cache(&self) -> Map<(nat, nat), Seq<char>>;

    /// Whether the client keeps the hashes it is given.
    spec fn caches(&self) -> bool;

    /// The client's internal invariant.
    spec fn wf(&self) -> bool;

    /// The witness.
    fn latest(&self) -> (r: &LogTree)
        requires
            self.wf(),
        ensures
            r.size as nat == self.witness().0,
            r.hash@ == self.witness().1,
    ;

    /// Replaces the witness.
    fn set_latest(&mut self, latest: LogTree)
        requires
            old(self).wf(),
        ensures
            final(self).wf(),
            final(self).witness() == (latest.size as nat, latest.hash@),
            final(self).cache() == old(self).cache(),
            final(self).caches() == old(self).caches(),
    ;

    /// The cached hash at a position, if any.
    fn cached(&self, position: &LogTreePosition) -> (r: Option<String>)
        requires
            self.wf(),
        ensures
            r is Some <==> self.cache().contains_key(position@),
            r matches Some(h) ==> h@ == self.cache()[position@],
    ;

    /// Keeps the given hashes, if the client caches.
    fn add_cached(&mut self, proofs: &ProofMap)
        requires
            old(self).wf(),
            proofs.wf(),
        ensures
            final(self).wf(),
            final(self).witness() == old(self).witness(),
            final(self).caches() == old(self).caches(),
            old(self).caches() ==> final(self).cache() == old(self).cache().union_prefer_right(
                proofs@,
            ),
            !old(self).caches() ==> final(self).cache() == old(self).cache(),
    ;
}

/// A client that keeps its witness and cache in memory.
pub struct InMemoryLogClient {
    latest: LogTree,
    cache: Option<ProofMap>,
}

impl LogClient for InMemoryLogClient {
    closed spec fn witness(&self) -> (nat, Seq<char>) {
        (self.latest.size as nat, self.latest.hash@)
    }

    closed spec fn cache(&self) -> Map<(nat, nat), Seq<char>> {
        match self.cache {
            Some(m) => m@,
            None => Map::empty(),
        }
    }

    closed spec fn caches(&self) -> bool {
        self.cache is Some
    }

    closed spec fn wf(&self) -> bool {
        self.cache matches Some(m) ==> m.wf()
    }

    fn latest(&self) -> (r: &LogTree) {
        &self.latest
    }

    fn set_latest(&mut self, latest: LogTree) {
        self.latest = latest;
    }

    fn cached(&self, position: &LogTreePosition) -> (r: Option<String>) {
        match &self.cache {
            Some(m) => match m.get(position) {
                Some(h) => Some(h.clone()),
                None => None,
            },
            None => None,
        }
    }

    fn add_cached(&mut self, proofs: &ProofMap) {
        match self.cache.take() {
            Some(m) => {
                let mut m = m;
                m.extend(proofs);
                self.cache = Some(m);
            },
            None => {},
        }
    }
}

/// Builds an in-memory client from the current state of a log or from a
/// saved witness.
pub struct InMemoryLogClientBuilder {
    latest: LogTree,
    cache: bool,
}

impl InMemoryLogClientBuilder {
    /// A builder whose witness is the log's current size and root.
    pub fn new<T: LogEntry, TL: TransparentLog<T>>(log: &TL) -> (r: Result<Self, LogError>)
        requires
            log_wf(log.records(), log.levels()),
        ensures
            r matches Ok(b) ==> b.witness() == (log.records().len(), log_root(log.records()))
                && b.caching(),
            r matches Err(e) ==> log.read_errors().contains(e),
            log.infallible() ==> r is Ok,
    {
        let latest = log.latest()?;
        Ok(InMemoryLogClientBuilder { latest, cache: true })
    }

    /// A builder whose witness is the given one.
    pub fn open(latest: LogTree) -> (r: Self)
        ensures
            r.witness() == (latest.size as nat, latest.hash@),
            r.caching(),
    {
        InMemoryLogClientBuilder { latest, cache: true }
    }

    /// The witness that the client will start from.
    pub closed spec fn witness(&self) -> (nat, Seq<char>) {
        (self.latest.size as nat, self.latest.hash@)
    }

    /// Whether the client will cache hashes.
    pub closed spec fn caching(&self) -> bool {
        self.cache
    }

    /// The same builder, for a client that caches nothing.
    pub fn no_cache(self) -> (r: Self)
        ensures
            r.witness() == self.witness(),
            !r.caching(),
    {
        InMemoryLogClientBuilder { latest: self.latest, cache: false }
    }

    /// A client with the builder's witness and an empty cache, if it caches.
    pub fn build(&self) -> (r: InMemoryLogClient)
        ensures
            r.wf(),
            r.witness() == self.witness(),
            r.caches() == self.caching(),
            r.cache() == Map::<(nat, nat), Seq<char>>::empty(),
    {
        InMemoryLogClient {
            latest: LogTree { size: self.latest.size, hash: self.latest.hash.clone() },
            cache: if self.cache {
                Some(ProofMap::new())
            } else {
                None
            },
        }
    }
}

/// The hashes of the log at those of the positions `p` that the cache does
/// not hold: what the client asks the log for.
pub open spec fn fetched(
    cache: Map<(nat, nat), Seq<char>>,
    stored: Map<(nat, nat), Seq<char>>,
    p: Set<(nat, nat)>,
) -> Map<(nat, nat), Seq<char>> {
    stored.restrict(p.difference(cache.dom()))
}

/// The hashes a client assembles for the positions `p`: its cached ones, and
/// the log's stored ones at the positions it has not cached.
pub open spec fn assembled(
    cache: Map<(nat, nat), Seq<char>>,
    stored: Map<(nat, nat), Seq<char>>,
    p: Set<(nat, nat)>,
) -> Map<(nat, nat), Seq<char>> {
    cache.restrict(p).union_prefer_right(fetched(cache, stored, p))
}

/// Splits the positions into the hashes the client has cached for them and
/// the positions it has not cached, which it must ask the log for.
pub fn split_cached<LC: LogClient>(client: &LC, positions: &Vec<LogTreePosition>) -> (r: (
    ProofMap,
    Vec<LogTreePosition>,
))
    requires
        client.wf(),
    ensures
        r.0.wf(),
        r.0@ == client.cache().restrict(position_set(positions@)),
        position_set(r.1@) == position_set(positions@).difference(client.cache().dom()),
{
    let ghost cache = client.cache();
    let mut cached = ProofMap::new();
    let mut missing: Vec<LogTreePosition> = Vec::new();
    let mut i: usize = 0;
    while i < positions.len()
        invariant
            client.wf(),
            cache == client.cache(),
            0 <= i <= positions.len(),
            cached.wf(),
            cached@ == cache.restrict(position_views(positions@).subrange(0, i as int).to_set()),
            position_set(missing@) == position_views(positions@).subrange(0, i as int).to_set().difference(
                cache.dom(),
            ),
        decreases positions.len() - i,
    {
        let p = positions[i];
        let ghost before = position_views(positions@).subrange(0, i as int);
        assert(position_views(positions@).subrange(0, i + 1) =~= before.push(p@));
        proof {
            before.lemma_push_to_set_commute(p@);
        }
        match client.cached(&p) {
            Some(h) => {
                cached.insert(p, h);
                assert(position_views(missing@).to_set() =~= before.push(p@).to_set().difference(
                    cache.dom(),
                ));
            },
            None => {
                let ghost mv = missing@;
                missing.push(p);
                assert(position_views(missing@) =~= position_views(mv).push(p@));
                proof {
                    position_views(mv).lemma_push_to_set_commute(p@);
                }
                assert(position_views(missing@).to_set() =~= before.push(p@).to_set().difference(
                    cache.dom(),
                ));
            },
        }
        assert(cached@ =~= cache.restrict(before.push(p@).to_set()));
        i = i + 1;
    }
    assert(position_views(positions@).subrange(0, i as int) =~= position_views(positions@));
    (cached, missing)
}

/// Collects the hashes at the positions: from the cache where it holds them,
/// and from the log, in one request for exactly the positions that
/// `split_cached` leaves out, for the others. Returns them all, and those
/// that came from the log. The client is not changed.
pub fn get_proofs<T: LogEntry, TL: TransparentLog<T>, LC: LogClient>(
    client: &LC,
    log: &TL,
    positions: &Vec<LogTreePosition>,
) -> (r: Result<(ProofMap, ProofMap), LogError>)
    requires
        client.wf(),
        log_wf(log.records(), log.levels()),
    ensures
        r matches Ok((all, read)) ==> {
            &&& all.wf()
            &&& read.wf()
            &&& all@ == assembled(
                client.cache(),
                stored_nodes(log.levels()),
                position_set(positions@),
            )
            &&& read@ == fetched(client.cache(), stored_nodes(log.levels()), position_set(positions@))
        },
        r matches Err(e) ==> log.read_errors().contains(e),
        log.infallible() ==> r is Ok,
{
    let (cached, missing) = split_cached(client, positions);
    let read = log.proofs(&missing)?;
    let mut all = cached;
    all.extend(&read);
    Ok((all, read))
}

/// With a cache that agrees with the log, the assembled hashes are the log's.
pub proof fn lemma_assembled_from_log(
    cache: Map<(nat, nat), Seq<char>>,
    stored: Map<(nat, nat), Seq<char>>,
    p: Set<(nat, nat)>,
)
    requires
        cache.submap_of(stored),
    ensures
        assembled(cache, stored, p) == stored.restrict(p),
{
    assert(assembled(cache, stored, p) =~= stored.restrict(p));
}

/// Whether the proofs give both the root `m_root` of size `m` and the root
/// `n_root` of size `n`: the first tree is a prefix of the second.
pub open spec fn advance_verified(
    m: nat,
    m_root: Seq<char>,
    n: nat,
    n_root: Seq<char>,
    proofs: Map<(nat, nat), Seq<char>>,
) -> bool {
    tree_verified(m, m_root, proofs) && tree_verified(n, n_root, proofs)
}

/// Whether a client whose witness is `w` and whose cache is `cache` moves to
/// the log's witness when it checks the record `id`: the record lies past
/// its witness, and its witness is empty or the assembled hashes at the
/// consistency positions prove it a prefix of the log.
pub open spec fn advances<T: LogEntry>(
    w: (nat, Seq<char>),
    cache: Map<(nat, nat), Seq<char>>,
    records: Seq<T>,
    stored: Map<(nat, nat), Seq<char>>,
    id: nat,
) -> bool {
    id >= w.0 && (w.0 == 0 || advance_verified(
        w.0,
        w.1,
        records.len(),
        log_root(records),
        assembled(cache, stored, consistency_positions(w.0, records.len())),
    ))
}

/// The witness a client holds after checking the record `id`.
pub open spec fn checked_witness<T: LogEntry>(
    w: (nat, Seq<char>),
    cache: Map<(nat, nat), Seq<char>>,
    records: Seq<T>,
    stored: Map<(nat, nat), Seq<char>>,
    id: nat,
) -> (nat, Seq<char>) {
    if advances(w, cache, records, stored, id) {
        (records.len(), log_root(records))
    } else {
        w
    }
}

/// The outcome of checking the record `(id, hash)` against a log, for a
/// client with witness `w` and cache `cache`: the record lies inside the
/// witness it ends with, and the assembled hashes at the inclusion
/// positions, with the record's hash, give that witness's root.
pub open spec fn record_checks<T: LogEntry>(
    w: (nat, Seq<char>),
    cache: Map<(nat, nat), Seq<char>>,
    records: Seq<T>,
    stored: Map<(nat, nat), Seq<char>>,
    id: nat,
    hash: Seq<char>,
) -> bool {
    if id < w.0 || advances(w, cache, records, stored, id) {
        let t = checked_witness(w, cache, records, stored, id);
        id < t.0 && inclusion_verified(
            t.0,
            t.1,
            id,
            hash,
            assembled(cache, stored, inclusion_positions(id, t.0)),
        )
    } else {
        false
    }
}

/// The cache of a caching client after checking the record `(id, hash)`:
/// the hashes it fetched for a prefix proof that verified, and, where the
/// record verified, those it fetched for the inclusion proof and the
/// record's own leaf.
pub open spec fn checked_cache<T: LogEntry>(
    w: (nat, Seq<char>),
    cache: Map<(nat, nat), Seq<char>>,
    records: Seq<T>,
    stored: Map<(nat, nat), Seq<char>>,
    id: nat,
    hash: Seq<char>,
) -> Map<(nat, nat), Seq<char>> {
    let n = records.len();
    let after_advance = if w.0 > 0 && advances(w, cache, records, stored, id) {
        cache.union_prefer_right(fetched(cache, stored, consistency_positions(w.0, n)))
    } else {
        cache
    };
    let t = checked_witness(w, cache, records, stored, id);
    if record_checks(w, cache, records, stored, id, hash) {
        after_advance.union_prefer_right(
            fetched(cache, stored, inclusion_positions(id, t.0)),
        ).insert((0, id), hash)
    } else {
        after_advance
    }
}

/// Cache transparency: a client whose cache holds only hashes that the log
/// stores gets from `check_record` the same answer and the same witness as a
/// client with no cache (whether `check_record` fails does not depend on the
/// cache either); and it asks the log only for the positions it has not
/// cached (see `get_proofs`).
pub proof fn lemma_cache_transparent<T: LogEntry>(
    w: (nat, Seq<char>),
    cache: Map<(nat, nat), Seq<char>>,
    records: Seq<T>,
    stored: Map<(nat, nat), Seq<char>>,
    id: nat,
    hash: Seq<char>,
)
    requires
        cache.submap_of(stored),
    ensures
        record_checks(w, cache, records, stored, id, hash) == record_checks(
            w,
            Map::empty(),
            records,
            stored,
            id,
            hash,
        ),
        checked_witness(w, cache, records, stored, id) == checked_witness(
            w,
            Map::empty(),
            records,
            stored,
            id,
        ),
{
    let n = records.len();
    let e = Map::<(nat, nat), Seq<char>>::empty();
    assert(e.submap_of(stored));
    lemma_assembled_from_log(cache, stored, consistency_positions(w.0, n));
    lemma_assembled_from_log(e, stored, consistency_positions(w.0, n));
    lemma_assembled_from_log(cache, stored, inclusion_positions(id, w.0));
    lemma_assembled_from_log(e, stored, inclusion_positions(id, w.0));
    lemma_assembled_from_log(cache, stored, inclusion_positions(id, n));
    lemma_assembled_from_log(e, stored, inclusion_positions(id, n));
}

/// Checks that a record is in the log. Where the record lies past the
/// client's witness, the client first moves its witness to the log's latest
/// one, provided the log proves its old witness a prefix of the new one.
/// Only hashes that verified go to the cache, and a failed request leaves
/// the client as it was.
pub fn check_record<T: LogEntry, TL: TransparentLog<T>, LC: LogClient>(
    client: &mut LC,
    log: &TL,
    record: &Record,
) -> (r: Result<bool, LogError>)
    requires
        old(client).wf(),
        log_wf(log.records(), log.levels()),
    ensures
        final(client).wf(),
        final(client).caches() == old(client).caches(),
        r matches Ok(b) ==> b == record_checks(
            old(client).witness(),
            old(client).cache(),
            log.records(),
            stored_nodes(log.levels()),
            record.id as nat,
            record.hash@,
        ),
        r is Ok ==> final(client).witness() == checked_witness(
            old(client).witness(),
            old(client).cache(),
            log.records(),
            stored_nodes(log.levels()),
            record.id as nat,
        ),
        r is Ok ==> final(client).cache() == if old(client).caches() {
            checked_cache(
                old(client).witness(),
                old(client).cache(),
                log.records(),
                stored_nodes(log.levels()),
                record.id as nat,
                record.hash@,
            )
        } else {
            old(client).cache()
        },
        r == Ok::<bool, LogError>(true) ==> record.id < final(client).witness().0,
        r == Ok::<bool, LogError>(true) && old(client).caches() ==> final(client).cache().contains_key(
            (0, record.id as nat),
        ) && final(client).cache()[(0, record.id as nat)] == record.hash@,
        r == Ok::<bool, LogError>(true) && old(client).caches() && old(client).cache().submap_of(
            stored_nodes(log.levels()),
        ) ==> forall|p: (nat, nat)|
            #![trigger final(client).cache().contains_key(p)]
            inclusion_positions(record.id as nat, final(client).witness().0).contains(p)
                && stored_nodes(log.levels()).contains_key(p) && p != (0nat, record.id as nat)
                ==> final(client).cache().contains_key(p) && final(client).cache()[p]
                == stored_nodes(log.levels())[p],
        r is Err ==> final(client).witness() == old(client).witness() && final(client).cache()
            == old(client).cache(),
        r matches Err(e) ==> log.read_errors().contains(e) || (e == LogError::Precondition
            && record.id >= old(client).witness().0 > 0 && log.records().len() <= old(
            client,
        ).witness().0),
        record.id >= old(client).witness().0 > 0 && log.records().len() <= old(client).witness().0
            ==> r is Err,
        log.infallible() && record.id >= old(client).witness().0 > 0 && log.records().len() <= old(
            client,
        ).witness().0 ==> r == Err::<bool, LogError>(LogError::Precondition),
        log.infallible() && r is Err ==> record.id >= old(client).witness().0 > 0
            && log.records().len() <= old(client).witness().0,
{
    let ghost stored = stored_nodes(log.levels());
    let ghost w = client.witness();
    let ghost cache = client.cache();
    let w_size = client.latest().size;
    let mut target = LogTree { size: w_size, hash: client.latest().hash.clone() };
    let mut new_latest: Option<LogTree> = None;
    let mut read_advance: Option<ProofMap> = None;
    if record.id >= w_size {
        let l2 = log.latest()?;
        if w_size > 0 {
            let v = prefix_proof_positions(w_size, l2.size)?;
            let (proofs, read) = get_proofs(client, log, &v)?;
            if !verify_tree(client.latest(), &proofs) {
                return Ok(false);
            }
            if !verify_tree(&l2, &proofs) {
                return Ok(false);
            }
            read_advance = Some(read);
        }
        target = LogTree { size: l2.size, hash: l2.hash.clone() };
        new_latest = Some(l2);
    }
    assert(target.size as nat == checked_witness(w, cache, log.records(), stored, record.id as nat).0);
    assert(target.hash@ == checked_witness(w, cache, log.records(), stored, record.id as nat).1);
    let v = proof_positions(record.id, target.size);
    let (proofs, read) = get_proofs(client, log, &v)?;
    let ok = record.id < target.size && verify(&target, record, &proofs);
    let ghost after_advance = if w.0 > 0 && advances(w, cache, log.records(), stored, record.id as nat) {
        cache.union_prefer_right(fetched(cache, stored, consistency_positions(w.0, log.records().len())))
    } else {
        cache
    };
    match read_advance {
        Some(read_advance) => {
            client.add_cached(&read_advance);
        },
        None => {},
    }
    proof {
        if client.caches() {
            assert(client.cache() == after_advance);
        }
    }
    match new_latest {
        Some(l2) => {
            client.set_latest(l2);
        },
        None => {},
    }
    if ok {
        client.add_cached(&read);
        let mut claim = ProofMap::new();
        claim.insert(LogTreePosition { level: 0, index: record.id }, record.hash.clone());
        let ghost before = client.cache();
        client.add_cached(&claim);
        proof {
            if client.caches() {
                assert(client.cache() =~= before.insert((0, record.id as nat), record.hash@));
                if cache.submap_of(stored) {
                    let t = target.size as nat;
                    assert forall|p: (nat, nat)|
                        #![trigger client.cache().contains_key(p)]
                        inclusion_positions(record.id as nat, t).contains(p) && stored.contains_key(p)
                            && p != (0nat, record.id as nat) implies client.cache().contains_key(p)
                        && client.cache()[p] == stored[p] by {
                        if !cache.contains_key(p) {
                            assert(fetched(cache, stored, inclusion_positions(record.id as nat, t)).contains_key(p));
                        } else {
                            assert(cache.dom().contains(p) ==> stored.dom().contains(p) && cache[p] == stored[p]);
                        }
                    }
                }
            }
        }
    }
    Ok(ok)
}

} // verus!
