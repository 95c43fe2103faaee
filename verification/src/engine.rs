//! The engine state machine: an in-memory table coupled to the history of
//! records appended to the write-ahead log.
//!
//! The engine's invariant is the durability argument: the table always
//! equals the fold of the appended records, so recovering the log bytes and
//! folding them rebuilds exactly the current state
//! ([`lemma_reopen_rebuilds_state`]).
//!
//! Callers that make the log durable (file open, append, flush) live outside
//! this crate: they must write the bytes of [`crate::wal::encode_record`]
//! for a record, and only after that write succeeds apply the mutation here
//! ([`Engine::put`] or [`Engine::delete`]). A failed append is simply not
//! applied, so table and log never diverge.

use vstd::prelude::*;
use vstd::slice::slice_to_vec;
use vstd::string::StringSliceAdditionalSpecFns;

use crate::memtable::MemTable;
use crate::wal::{
    lemma_recover_clean_log, models, spec_encode_records, spec_recover, valid_record,
    valid_records, RecordModel, WalError, WalRecord,
};

verus! {

/// Errors surfaced by the engine: a log failure, or a poisoned interior
/// lock reported by a caller-side locking wrapper.
#[derive(Debug, Clone, Copy, PartialEq, Eq, Structural)]
pub enum EngineError {
    Wal(WalError),
    LockPoisoned,
}

/// Apply one record to a map: a put sets its key, a delete removes it.
pub open spec fn apply_record(m: Map<Seq<char>, Seq<u8>>, r: RecordModel) -> Map<
    Seq<char>,
    Seq<u8>,
> {
    match r {
        RecordModel::Put { key, value } => m.insert(key, value),
        RecordModel::Delete { key } => m.remove(key),
    }
}

/// Fold a record sequence into a map, in order, starting from empty.
pub open spec fn spec_fold(rs: Seq<RecordModel>) -> Map<Seq<char>, Seq<u8>>
    decreases rs.len(),
{
    if rs.len() == 0 {
        Map::empty()
    } else {
        apply_record(spec_fold(rs.drop_last()), rs.last())
    }
}

/// Folding one more record applies it to the fold of the earlier ones:
/// replay is order-preserving, and the last record for a key wins.
pub proof fn lemma_fold_push(rs: Seq<RecordModel>, r: RecordModel)
    ensures
        spec_fold(rs.push(r)) == apply_record(spec_fold(rs), r),
{
    assert(rs.push(r).drop_last() =~= rs);
    assert(rs.push(r).last() == r);
}

/// A put appended to any history sets exactly its key in the replayed map.
pub proof fn lemma_fold_put(rs: Seq<RecordModel>, key: Seq<char>, value: Seq<u8>)
    ensures
        spec_fold(rs.push(RecordModel::Put { key, value })) == spec_fold(rs).insert(key, value),
{
    lemma_fold_push(rs, RecordModel::Put { key, value });
}

/// A delete appended to any history removes exactly its key from the
/// replayed map, whether or not the key was present.
pub proof fn lemma_fold_delete(rs: Seq<RecordModel>, key: Seq<char>)
    ensures
        spec_fold(rs.push(RecordModel::Delete { key })) == spec_fold(rs).remove(key),
{
    lemma_fold_push(rs, RecordModel::Delete { key });
}

/// The storage engine: the table of live keys, and (as ghost state) the
/// history of records made durable before each mutation was applied.
pub struct Engine {
    mem: MemTable,
    hist: Ghost<Seq<RecordModel>>,
}

impl View for Engine {
    type V = Map<Seq<char>, Seq<u8>>;

    closed spec fn view(&self) -> Map<Seq<char>, Seq<u8>> {
        self.mem@
    }
}

impl Engine {
    /// The records appended to the log, in order.
    pub closed spec fn log(&self) -> Seq<RecordModel> {
        self.hist@
    }

    /// The table is exactly the fold of the appended records, and every
    /// appended record fits the on-disk field widths.
    pub closed spec fn wf(&self) -> bool {
        &&& self.mem.wf()
        &&& self.mem@ == spec_fold(self.hist@)
        &&& valid_records(self.hist@)
    }

    /// A fresh engine over an empty log.
    pub fn new() -> (r: Engine)
        ensures
            r.wf(),
            r@ == Map::<Seq<char>, Seq<u8>>::empty(),
            r.log() == Seq::<RecordModel>::empty(),
    {
        Engine { mem: MemTable::new(), hist: Ghost(Seq::empty()) }
    }

    /// Rebuild an engine from the records recovered out of a log: fold them
    /// in file order into a fresh table.
    pub fn replay(records: &Vec<WalRecord>) -> (r: Engine)
        ensures
            r.wf(),
            r.log() == models(records@),
            r@ == spec_fold(models(records@)),
    {
        let mut mem = MemTable::new();
        let n = records.len();
        let mut i: usize = 0;
        proof {
            assert(models(records@).take(0) =~= Seq::<RecordModel>::empty());
        }
        while i < n
            invariant
                i <= n,
                n == records@.len(),
                mem.wf(),
                mem@ == spec_fold(models(records@).take(i as int)),
                valid_records(models(records@).take(i as int)),
            decreases n - i,
        {
            let ghost done = models(records@).take(i as int);
            let record = &records[i];
            proof {
                assert(models(records@)[i as int] == record@);
                assert(models(records@).take(i as int + 1) =~= done.push(record@));
                lemma_fold_push(done, record@);
            }
            match record {
                WalRecord::Put { key, value } => {
                    let _key_bytes_len: usize = key.as_str().as_bytes().len();
                    let _value_len: usize = value.len();
                    mem.insert(key.clone(), slice_to_vec(value.as_slice()));
                },
                WalRecord::Delete { key } => {
                    let _key_bytes_len: usize = key.as_str().as_bytes().len();
                    let _present = mem.remove(key.as_str());
                },
            }
            proof {
                assert(valid_record(record@));
                assert(valid_records(done.push(record@)));
            }
            i = i + 1;
        }
        proof {
            assert(models(records@).take(n as int) =~= models(records@));
        }
        Engine { mem, hist: Ghost(models(records@)) }
    }

    /// Set `key` to `value`. The caller has already made the matching put
    /// record durable; the new state is the old one with that record
    /// appended and applied.
    pub fn put(&mut self, key: String, value: Vec<u8>)
        requires
            old(self).wf(),
        ensures
            final(self).wf(),
            final(self)@ == old(self)@.insert(key@, value@),
            final(self).log() == old(self).log().push(
                RecordModel::Put { key: key@, value: value@ },
            ),
    {
        // the slice and vector lengths witness that both fields of the
        // appended record fit their eight-byte encodings
        let _key_bytes_len: usize = key.as_str().as_bytes().len();
        let _value_len: usize = value.len();
        proof {
            lemma_fold_push(self.hist@, RecordModel::Put { key: key@, value: value@ });
            assert(valid_records(
                self.hist@.push(RecordModel::Put { key: key@, value: value@ }),
            ));
        }
        self.hist = Ghost(self.hist@.push(RecordModel::Put { key: key@, value: value@ }));
        self.mem.insert(key, value);
    }

    /// Remove `key`, reporting whether it was present. The caller has
    /// already made the matching delete record durable; the record is
    /// appended even when the key is absent.
    pub fn delete(&mut self, key: &str) -> (r: bool)
        requires
            old(self).wf(),
        ensures
            final(self).wf(),
            final(self)@ == old(self)@.remove(key@),
            final(self).log() == old(self).log().push(RecordModel::Delete { key: key@ }),
            r == old(self)@.contains_key(key@),
    {
        let _key_bytes_len: usize = key.as_bytes().len();
        proof {
            lemma_fold_push(self.hist@, RecordModel::Delete { key: key@ });
            assert(valid_records(self.hist@.push(RecordModel::Delete { key: key@ })));
        }
        self.hist = Ghost(self.hist@.push(RecordModel::Delete { key: key@ }));
        self.mem.remove(key)
    }

    /// Look up `key` in the table; the log is never consulted.
    pub fn get(&self, key: &str) -> (r: Option<Vec<u8>>)
        requires
            self.wf(),
        ensures
            match r {
                Some(v) => self@.contains_key(key@) && v@ == self@[key@],
                None => !self@.contains_key(key@),
            },
    {
        self.mem.get_copy(key)
    }

    /// Number of live keys.
    pub fn len(&self) -> (r: usize)
        requires
            self.wf(),
        ensures
            r == self@.len(),
    {
        self.mem.len()
    }

    /// Whether the table holds no keys.
    pub fn is_empty(&self) -> (r: bool)
        requires
            self.wf(),
        ensures
            r == (self@.len() == 0),
    {
        self.len() == 0
    }
}

/// Durability: the bytes appended so far — the encodings of the log, in
/// order — recover to exactly the log, and folding that log rebuilds
/// exactly the current table. A crash after any acknowledged mutation
/// therefore loses nothing: reopening over the same bytes yields the same
/// state.
pub proof fn lemma_reopen_rebuilds_state(e: &Engine)
    requires
        e.wf(),
    ensures
        spec_recover(spec_encode_records(e.log())) == Ok::<Seq<RecordModel>, WalError>(e.log()),
        spec_fold(e.log()) == e@,
{
    lemma_recover_clean_log(e.log());
}

/// Durability of one acknowledged put: once the engine's log ends in the
/// put's record, recovering the appended bytes and folding them yields a
/// state that binds the key to the value just written.
pub proof fn lemma_put_is_durable(e: &Engine, key: Seq<char>, value: Seq<u8>)
    requires
        e.wf(),
        e.log().len() > 0,
        e.log().last() == (RecordModel::Put { key, value }),
    ensures
        spec_recover(spec_encode_records(e.log())) == Ok::<Seq<RecordModel>, WalError>(e.log()),
        spec_fold(e.log()).contains_key(key),
        spec_fold(e.log())[key] == value,
{
    lemma_recover_clean_log(e.log());
    assert(e.log().drop_last().push(RecordModel::Put { key, value }) =~= e.log());
    lemma_fold_put(e.log().drop_last(), key, value);
}

/// Durability of one acknowledged delete: once the engine's log ends in
/// the delete's record, recovering the appended bytes and folding them
/// yields a state without the key.
pub proof fn lemma_delete_is_durable(e: &Engine, key: Seq<char>)
    requires
        e.wf(),
        e.log().len() > 0,
        e.log().last() == (RecordModel::Delete { key }),
    ensures
        spec_recover(spec_encode_records(e.log())) == Ok::<Seq<RecordModel>, WalError>(e.log()),
        !spec_fold(e.log()).contains_key(key),
{
    lemma_recover_clean_log(e.log());
    assert(e.log().drop_last().push(RecordModel::Delete { key }) =~= e.log());
    lemma_fold_delete(e.log().drop_last(), key);
}

} // verus!
