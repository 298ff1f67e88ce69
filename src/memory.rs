//! A log held in memory.
use vstd::prelude::*;

use crate::error::LogError;
use crate::levels::log_wf;
use crate::log::{push_at, TransparentLog};
use crate::position::{LogHeight, LogSize};
use crate::records::LogEntry;

verus! {

/// The hashes of a vector of levels, as sequences of hex strings.
pub open spec fn hash_levels(h: Seq<Vec<String>>) -> Seq<Seq<Seq<char>>> {
    h.map_values(|v: Vec<String>| v@.map_values(|s: String| s@))
}

/// A transparent log held in memory.
pub struct InMemoryLog<T> {
    /// The records, in order.
    data: Vec<T>,
    /// The hashes of the tree, level by level.
    hashes: Vec<Vec<String>>,
}

impl<T: LogEntry> InMemoryLog<T> {
    /// An empty log.
    pub fn new() -> (r: Self)
        ensures
            r.records() == Seq::<T>::empty(),
            r.levels() == Seq::<Seq<Seq<char>>>::empty(),
            log_wf(r.records(), r.levels()),
    {
        let r = InMemoryLog { data: Vec::new(), hashes: Vec::new() };
        assert(hash_levels(r.hashes@) =~= Seq::<Seq<Seq<char>>>::empty());
        r
    }
}

impl<T: LogEntry> InMemoryLog<T> {
    /// Number of hashes stored at each level.
    pub fn level_lengths(&self) -> (r: Vec<LogSize>)
        ensures
            r@.len() == self.levels().len(),
            forall|k: int| 0 <= k < r@.len() ==> r@[k] == self.levels()[k].len(),
    {
        let mut r: Vec<LogSize> = Vec::new();
        let mut k: usize = 0;
        while k < self.hashes.len()
            invariant
                0 <= k <= self.hashes.len(),
                r@.len() == k,
                forall|l: int| 0 <= l < k ==> r@[l] == hash_levels(self.hashes@)[l].len(),
            decreases self.hashes.len() - k,
        {
            assert(hash_levels(self.hashes@)[k as int].len() == self.hashes@[k as int]@.len());
            r.push(self.hashes[k].len() as u64);
            k = k + 1;
        }
        r
    }
}

impl<T: LogEntry> Default for InMemoryLog<T> {
    fn default() -> (r: Self)
        ensures
            r.records() == Seq::<T>::empty(),
            r.levels() == Seq::<Seq<Seq<char>>>::empty(),
            log_wf(r.records(), r.levels()),
    {
        Self::new()
    }
}

impl<T: LogEntry> TransparentLog<T> for InMemoryLog<T> {
    closed spec fn records(&self) -> Seq<T> {
        self.data@
    }

    closed spec fn levels(&self) -> Seq<Seq<Seq<char>>> {
        hash_levels(self.hashes@)
    }

    open spec fn infallible(&self) -> bool {
        true
    }

    open spec fn read_errors(&self) -> Set<LogError> {
        Set::new(|e: LogError| e is InvalidHeight || e is InvalidIndex)
    }

    fn size(&self) -> (r: Result<LogSize, LogError>)
        ensures
            r == Ok::<LogSize, LogError>(self.records().len() as LogSize),
    {
        Ok(self.data.len() as u64)
    }

    fn get(&self, id: LogSize) -> (r: Result<Option<T>, LogError>) {
        if id < self.data.len() as u64 {
            Ok(Some(self.data[id as usize].duplicate()))
        } else {
            Ok(None)
        }
    }

    fn add(&mut self, record: T) -> (r: Result<LogSize, LogError>) {
        let id = self.data.len() as u64;
        self.data.push(record);
        Ok(id)
    }

    fn add_hash(&mut self, level: LogHeight, hash: String) -> (r: Result<LogSize, LogError>) {
        let ghost old_levels = hash_levels(self.hashes@);
        let ghost h = hash@;
        if level == self.hashes.len() {
            self.hashes.push(Vec::new());
        }
        let mut v: Vec<String> = Vec::new();
        self.hashes.set_and_swap(level, &mut v);
        let ghost before = v@;
        v.push(hash);
        let idx = v.len() - 1;
        self.hashes.set(level, v);
        proof {
            let new_levels = hash_levels(self.hashes@);
            if level < old_levels.len() {
                assert(new_levels[level as int] =~= old_levels[level as int].push(h));
                assert(new_levels =~= push_at(old_levels, level as nat, h));
            } else {
                assert(new_levels[level as int] =~= seq![h]);
                assert(new_levels =~= push_at(old_levels, level as nat, h));
            }
        }
        Ok(idx as u64)
    }

    fn get_hash(&self, level: LogHeight, index: LogSize) -> (r: Result<String, LogError>)
        ensures
            level >= self.levels().len() ==> r == Err::<String, LogError>(
                LogError::InvalidHeight(level),
            ),
            level < self.levels().len() && index >= self.levels()[level as int].len() ==> r == Err::<
                String,
                LogError,
            >(LogError::InvalidIndex(level, index)),
    {
        if level >= self.hashes.len() {
            assert(self.read_errors().contains(LogError::InvalidHeight(level)));
            return Err(LogError::InvalidHeight(level));
        }
        let v = &self.hashes[level];
        if index >= v.len() as u64 {
            assert(self.read_errors().contains(LogError::InvalidIndex(level, index)));
            return Err(LogError::InvalidIndex(level, index));
        }
        assert(hash_levels(self.hashes@)[level as int] == v@.map_values(|s: String| s@));
        Ok(v[index as usize].clone())
    }
}

} // verus!
