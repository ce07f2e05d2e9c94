//! The primary map: record id -> (owner, payload).
//!
//! A dumb, exact map with unconditional insert and remove; every business
//! rule lives in the credential service. Records are kept in a vector with
//! pairwise-distinct ids, viewed as the mathematical map it denotes.

use vstd::prelude::*;
use crate::bytes::bytes_eq;
use crate::bytes::copy_bytes;

verus! {

/// One stored record: its content-derived id, the account that created it,
/// and the payload bytes.
pub struct Record {
    pub id: Vec<u8>,
    pub owner: u64,
    pub payload: Vec<u8>,
}

impl Record {
    /// The id as a mathematical byte sequence.
    pub open spec fn key(self) -> Seq<u8> {
        self.id@
    }

    /// The stored value: owning account and payload bytes.
    pub open spec fn value(self) -> (u64, Seq<u8>) {
        (self.owner, self.payload@)
    }
}

/// The map that a sequence of records denotes; a later record wins, though a
/// well-formed store never repeats an id.
pub open spec fn record_map(s: Seq<Record>) -> Map<Seq<u8>, (u64, Seq<u8>)>
    decreases s.len(),
{
    if s.len() == 0 {
        Map::empty()
    } else {
        record_map(s.drop_last()).insert(s.last().key(), s.last().value())
    }
}

/// No two records share an id.
pub open spec fn distinct_keys(s: Seq<Record>) -> bool {
    forall|i: int, j: int| 0 <= i < j < s.len() ==> s[i].key() != s[j].key()
}

proof fn lemma_distinct_keys_drop_last(s: Seq<Record>)
    requires
        distinct_keys(s),
        s.len() > 0,
    ensures
        distinct_keys(s.drop_last()),
{
}

/// A key is in the denoted map exactly when some record carries it.
proof fn lemma_record_map_contains(s: Seq<Record>, k: Seq<u8>)
    ensures
        record_map(s).contains_key(k) <==> exists|i: int| 0 <= i < s.len() && s[i].key() == k,
    decreases s.len(),
{
    if s.len() > 0 {
        lemma_record_map_contains(s.drop_last(), k);
        if s.last().key() == k {
            assert(s[s.len() - 1].key() == k);
        } else {
            if exists|i: int| 0 <= i < s.len() && s[i].key() == k {
                let i = choose|i: int| 0 <= i < s.len() && s[i].key() == k;
                assert(s.drop_last()[i] == s[i]);
            }
        }
    }
}

/// With distinct ids, the denoted map sends each record's id to its value.
proof fn lemma_record_map_at(s: Seq<Record>, i: int)
    requires
        distinct_keys(s),
        0 <= i < s.len(),
    ensures
        record_map(s).contains_key(s[i].key()),
        record_map(s)[s[i].key()] == s[i].value(),
    decreases s.len(),
{
    if i < s.len() - 1 {
        lemma_distinct_keys_drop_last(s);
        lemma_record_map_at(s.drop_last(), i);
        assert(s.drop_last()[i] == s[i]);
        assert(s.last().key() != s[i].key());
    }
}

/// Appending a record inserts its binding.
proof fn lemma_record_map_push(s: Seq<Record>, r: Record)
    ensures
        record_map(s.push(r)) == record_map(s).insert(r.key(), r.value()),
{
    assert(s.push(r).drop_last() =~= s);
    assert(s.push(r).last() == r);
}

/// Overwriting the record that holds a key updates that key's binding.
proof fn lemma_record_map_update(s: Seq<Record>, i: int, r: Record)
    requires
        distinct_keys(s),
        0 <= i < s.len(),
        s[i].key() == r.key(),
    ensures
        record_map(s.update(i, r)) == record_map(s).insert(r.key(), r.value()),
    decreases s.len(),
{
    let t = s.update(i, r);
    if i == s.len() - 1 {
        assert(t.drop_last() =~= s.drop_last());
        assert(t.last() == r);
        assert(record_map(s.drop_last()).insert(s.last().key(), s.last().value()).insert(
            r.key(),
            r.value(),
        ) =~= record_map(s.drop_last()).insert(r.key(), r.value()));
    } else {
        lemma_distinct_keys_drop_last(s);
        lemma_record_map_update(s.drop_last(), i, r);
        assert(t.drop_last() =~= s.drop_last().update(i, r));
        assert(t.last() == s.last());
        assert(s.last().key() != r.key());
        assert(record_map(s.drop_last()).insert(r.key(), r.value()).insert(
            s.last().key(),
            s.last().value(),
        ) =~= record_map(s.drop_last()).insert(s.last().key(), s.last().value()).insert(
            r.key(),
            r.value(),
        ));
    }
}

/// Removing the record that holds a key removes that key's binding.
proof fn lemma_record_map_remove(s: Seq<Record>, i: int)
    requires
        distinct_keys(s),
        0 <= i < s.len(),
    ensures
        record_map(s.remove(i)) == record_map(s).remove(s[i].key()),
    decreases s.len(),
{
    let t = s.remove(i);
    let k = s[i].key();
    lemma_distinct_keys_drop_last(s);
    if i == s.len() - 1 {
        assert(t =~= s.drop_last());
        lemma_record_map_contains(s.drop_last(), k);
        assert(forall|j: int| 0 <= j < s.len() - 1 ==> s.drop_last()[j] == s[j]);
        assert(!record_map(s.drop_last()).contains_key(k));
        assert(record_map(s.drop_last()) =~= record_map(s).remove(k));
    } else {
        lemma_record_map_remove(s.drop_last(), i);
        assert(t.drop_last() =~= s.drop_last().remove(i));
        assert(t.last() == s.last());
        assert(s.drop_last()[i] == s[i]);
        assert(s.last().key() != k);
        assert(record_map(s.drop_last()).remove(k).insert(s.last().key(), s.last().value())
            =~= record_map(s).remove(k));
    }
}

/// The record store. It owns the payloads; the owner index only refers to
/// them by id.
pub struct RecordStore {
    pub records: Vec<Record>,
}

impl View for RecordStore {
    type V = Map<Seq<u8>, (u64, Seq<u8>)>;

    open spec fn view(&self) -> Map<Seq<u8>, (u64, Seq<u8>)> {
        record_map(self.records@)
    }
}

impl RecordStore {
    /// Well-formed: ids are pairwise distinct, so the vector denotes its map
    /// unambiguously.
    pub open spec fn wf(&self) -> bool {
        distinct_keys(self.records@)
    }

    /// An empty store.
    pub fn new() -> (r: RecordStore)
        ensures
            r.wf(),
            r@ == Map::<Seq<u8>, (u64, Seq<u8>)>::empty(),
    {
        RecordStore { records: Vec::new() }
    }

    /// The position of the record with the given id, if any.
    fn find(&self, id: &Vec<u8>) -> (r: Option<usize>)
        ensures
            match r {
                Some(i) => i < self.records@.len() && self.records@[i as int].key() == id@,
                None => forall|j: int| 0 <= j < self.records@.len()
                    ==> self.records@[j].key() != id@,
            },
    {
        let mut i: usize = 0;
        while i < self.records.len()
            invariant
                i <= self.records@.len(),
                forall|j: int| 0 <= j < i ==> self.records@[j].key() != id@,
            decreases self.records@.len() - i,
        {
            if bytes_eq(&self.records[i].id, id) {
                return Some(i);
            }
            i = i + 1;
        }
        None
    }

    /// Whether a record with this id exists.
    pub fn contains(&self, id: &Vec<u8>) -> (r: bool)
        requires
            self.wf(),
        ensures
            r == self@.contains_key(id@),
    {
        proof {
            lemma_record_map_contains(self.records@, id@);
        }
        self.find(id).is_some()
    }

    /// The owner and payload stored under this id, if any.
    pub fn get(&self, id: &Vec<u8>) -> (r: Option<(u64, Vec<u8>)>)
        requires
            self.wf(),
        ensures
            match r {
                Some(p) => self@.contains_key(id@) && self@[id@] == (p.0, p.1@),
                None => !self@.contains_key(id@),
            },
    {
        proof {
            lemma_record_map_contains(self.records@, id@);
        }
        match self.find(id) {
            Some(i) => {
                proof {
                    lemma_record_map_at(self.records@, i as int);
                }
                let owner = self.records[i].owner;
                let payload = copy_bytes(&self.records[i].payload);
                Some((owner, payload))
            },
            None => None,
        }
    }

    /// Unconditional insert or overwrite; the credential service guarantees
    /// the business invariants before calling.
    pub fn put(&mut self, id: Vec<u8>, owner: u64, payload: Vec<u8>)
        requires
            old(self).wf(),
        ensures
            final(self).wf(),
            final(self)@ == old(self)@.insert(id@, (owner, payload@)),
    {
        let found = self.find(&id);
        let r = Record { id, owner, payload };
        match found {
            Some(i) => {
                proof {
                    lemma_record_map_update(self.records@, i as int, r);
                }
                self.records.set(i, r);
            },
            None => {
                proof {
                    lemma_record_map_push(self.records@, r);
                }
                self.records.push(r);
            },
        }
    }

    /// Unconditional delete; a no-op when the id is absent.
    pub fn remove(&mut self, id: &Vec<u8>)
        requires
            old(self).wf(),
        ensures
            final(self).wf(),
            final(self)@ == old(self)@.remove(id@),
    {
        proof {
            lemma_record_map_contains(self.records@, id@);
        }
        match self.find(id) {
            Some(i) => {
                proof {
                    lemma_record_map_remove(self.records@, i as int);
                }
                self.records.remove(i);
            },
            None => {
                proof {
                    assert(self@ =~= self@.remove(id@));
                }
            },
        }
    }
}

} // verus!
