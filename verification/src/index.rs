//! The secondary map: owner -> ordered list of record ids.
//!
//! It holds only identifiers (back-references into the record store), in
//! insertion order, at most `MAX_OWNED_CREDENTIALS` per owner. Entries are
//! created lazily and never deleted; an owner with no records has an empty
//! list. Owners are kept in a vector with pairwise-distinct keys, viewed as
//! the mathematical map it denotes.

use vstd::prelude::*;
use crate::bytes::bytes_eq;
use crate::bytes::copy_bytes;
use crate::bytes::views_of;
use crate::errors::Error;
use crate::limits::MAX_OWNED_CREDENTIALS;

verus! {

/// One owner's entry: the ids of the records it created, in creation order.
pub struct OwnerEntry {
    pub owner: u64,
    pub ids: Vec<Vec<u8>>,
}

impl OwnerEntry {
    /// The listed ids as mathematical byte sequences.
    pub open spec fn id_views(self) -> Seq<Seq<u8>> {
        views_of(self.ids@)
    }
}

/// The map that a sequence of owner entries denotes; a later entry wins,
/// though a well-formed index never repeats an owner.
pub open spec fn entry_map(s: Seq<OwnerEntry>) -> Map<u64, Seq<Seq<u8>>>
    decreases s.len(),
{
    if s.len() == 0 {
        Map::empty()
    } else {
        entry_map(s.drop_last()).insert(s.last().owner, s.last().id_views())
    }
}

/// No two entries share an owner.
pub open spec fn distinct_owners(s: Seq<OwnerEntry>) -> bool {
    forall|i: int, j: int| 0 <= i < j < s.len() ==> s[i].owner != s[j].owner
}

/// The given list with its first occurrence of `x` taken out; unchanged when
/// `x` does not occur.
pub open spec fn remove_first(s: Seq<Seq<u8>>, x: Seq<u8>) -> Seq<Seq<u8>>
    decreases s.len(),
{
    if s.len() == 0 {
        s
    } else if s[0] == x {
        s.drop_first()
    } else {
        seq![s[0]] + remove_first(s.drop_first(), x)
    }
}

/// At the first occurrence of `x`, `remove_first` is removal at that
/// position.
pub proof fn lemma_remove_first_at(s: Seq<Seq<u8>>, p: int)
    requires
        0 <= p < s.len(),
        forall|k: int| 0 <= k < p ==> s[k] != s[p],
    ensures
        remove_first(s, s[p]) == s.remove(p),
    decreases p,
{
    if p == 0 {
        assert(remove_first(s, s[0]) =~= s.remove(0));
    } else {
        assert(s[0] != s[p]);
        let t = s.drop_first();
        assert(t[p - 1] == s[p]);
        assert(forall|k: int| 0 <= k < p - 1 ==> t[k] == s[k + 1]);
        lemma_remove_first_at(t, p - 1);
        assert(seq![s[0]] + t.remove(p - 1) =~= s.remove(p));
    }
}

/// When `x` does not occur, `remove_first` changes nothing.
pub proof fn lemma_remove_first_absent(s: Seq<Seq<u8>>, x: Seq<u8>)
    requires
        !s.contains(x),
    ensures
        remove_first(s, x) == s,
    decreases s.len(),
{
    if s.len() > 0 {
        assert(s[0] != x);
        assert(!s.drop_first().contains(x)) by {
            if s.drop_first().contains(x) {
                let k = choose|k: int| 0 <= k < s.drop_first().len() && s.drop_first()[k] == x;
                assert(s[k + 1] == x);
            }
        }
        lemma_remove_first_absent(s.drop_first(), x);
        assert(seq![s[0]] + s.drop_first() =~= s);
    }
}

proof fn lemma_distinct_owners_drop_last(s: Seq<OwnerEntry>)
    requires
        distinct_owners(s),
        s.len() > 0,
    ensures
        distinct_owners(s.drop_last()),
{
}

/// An owner is in the denoted map exactly when some entry carries it.
proof fn lemma_entry_map_contains(s: Seq<OwnerEntry>, o: u64)
    ensures
        entry_map(s).contains_key(o) <==> exists|i: int| 0 <= i < s.len() && s[i].owner == o,
    decreases s.len(),
{
    if s.len() > 0 {
        lemma_entry_map_contains(s.drop_last(), o);
        if s.last().owner == o {
            assert(s[s.len() - 1].owner == o);
        } else {
            if exists|i: int| 0 <= i < s.len() && s[i].owner == o {
                let i = choose|i: int| 0 <= i < s.len() && s[i].owner == o;
                assert(s.drop_last()[i] == s[i]);
            }
        }
    }
}

/// With distinct owners, the denoted map sends each entry's owner to its
/// listed ids.
proof fn lemma_entry_map_at(s: Seq<OwnerEntry>, i: int)
    requires
        distinct_owners(s),
        0 <= i < s.len(),
    ensures
        entry_map(s).contains_key(s[i].owner),
        entry_map(s)[s[i].owner] == s[i].id_views(),
    decreases s.len(),
{
    if i < s.len() - 1 {
        lemma_distinct_owners_drop_last(s);
        lemma_entry_map_at(s.drop_last(), i);
        assert(s.drop_last()[i] == s[i]);
        assert(s.last().owner != s[i].owner);
    }
}

/// Appending an entry inserts its binding.
proof fn lemma_entry_map_push(s: Seq<OwnerEntry>, e: OwnerEntry)
    ensures
        entry_map(s.push(e)) == entry_map(s).insert(e.owner, e.id_views()),
{
    assert(s.push(e).drop_last() =~= s);
    assert(s.push(e).last() == e);
}

/// Overwriting the entry that holds an owner updates that owner's binding.
proof fn lemma_entry_map_update(s: Seq<OwnerEntry>, i: int, e: OwnerEntry)
    requires
        distinct_owners(s),
        0 <= i < s.len(),
        s[i].owner == e.owner,
    ensures
        entry_map(s.update(i, e)) == entry_map(s).insert(e.owner, e.id_views()),
    decreases s.len(),
{
    let t = s.update(i, e);
    if i == s.len() - 1 {
        assert(t.drop_last() =~= s.drop_last());
        assert(t.last() == e);
        assert(entry_map(s.drop_last()).insert(s.last().owner, s.last().id_views()).insert(
            e.owner,
            e.id_views(),
        ) =~= entry_map(s.drop_last()).insert(e.owner, e.id_views()));
    } else {
        lemma_distinct_owners_drop_last(s);
        lemma_entry_map_update(s.drop_last(), i, e);
        assert(t.drop_last() =~= s.drop_last().update(i, e));
        assert(t.last() == s.last());
        assert(s.last().owner != e.owner);
        assert(entry_map(s.drop_last()).insert(e.owner, e.id_views()).insert(
            s.last().owner,
            s.last().id_views(),
        ) =~= entry_map(s.drop_last()).insert(s.last().owner, s.last().id_views()).insert(
            e.owner,
            e.id_views(),
        ));
    }
}

/// The owner index.
pub struct OwnerIndex {
    pub entries: Vec<OwnerEntry>,
}

impl View for OwnerIndex {
    type V = Map<u64, Seq<Seq<u8>>>;

    open spec fn view(&self) -> Map<u64, Seq<Seq<u8>>> {
        entry_map(self.entries@)
    }
}

impl OwnerIndex {
    /// Well-formed: owners are pairwise distinct, so the vector denotes its
    /// map unambiguously.
    pub open spec fn wf(&self) -> bool {
        distinct_owners(self.entries@)
    }

    /// The ids listed for an owner; empty when the owner is unknown.
    pub open spec fn list_of(&self, owner: u64) -> Seq<Seq<u8>> {
        if self@.contains_key(owner) {
            self@[owner]
        } else {
            Seq::empty()
        }
    }

    /// An empty index.
    pub fn new() -> (r: OwnerIndex)
        ensures
            r.wf(),
            r@ == Map::<u64, Seq<Seq<u8>>>::empty(),
    {
        OwnerIndex { entries: Vec::new() }
    }

    /// The position of the entry for the given owner, if any.
    fn find(&self, owner: u64) -> (r: Option<usize>)
        ensures
            match r {
                Some(i) => i < self.entries@.len() && self.entries@[i as int].owner == owner,
                None => forall|j: int| 0 <= j < self.entries@.len()
                    ==> self.entries@[j].owner != owner,
            },
    {
        let mut i: usize = 0;
        while i < self.entries.len()
            invariant
                i <= self.entries@.len(),
                forall|j: int| 0 <= j < i ==> self.entries@[j].owner != owner,
            decreases self.entries@.len() - i,
        {
            if self.entries[i].owner == owner {
                return Some(i);
            }
            i = i + 1;
        }
        None
    }

    /// How many records the owner holds.
    pub fn count(&self, owner: u64) -> (r: usize)
        requires
            self.wf(),
        ensures
            r == self.list_of(owner).len(),
    {
        proof {
            lemma_entry_map_contains(self.entries@, owner);
        }
        match self.find(owner) {
            Some(i) => {
                proof {
                    lemma_entry_map_at(self.entries@, i as int);
                }
                self.entries[i].ids.len()
            },
            None => 0,
        }
    }

    /// A copy of the owner's id list, in insertion order.
    pub fn list(&self, owner: u64) -> (r: Vec<Vec<u8>>)
        requires
            self.wf(),
        ensures
            views_of(r@) == self.list_of(owner),
    {
        proof {
            lemma_entry_map_contains(self.entries@, owner);
        }
        match self.find(owner) {
            Some(i) => {
                proof {
                    lemma_entry_map_at(self.entries@, i as int);
                }
                let ids = &self.entries[i].ids;
                let mut r: Vec<Vec<u8>> = Vec::new();
                let mut k: usize = 0;
                while k < ids.len()
                    invariant
                        k <= ids@.len(),
                        r@.len() == k,
                        forall|j: int| 0 <= j < k ==> r@[j]@ == ids@[j]@,
                    decreases ids@.len() - k,
                {
                    r.push(copy_bytes(&ids[k]));
                    k = k + 1;
                }
                proof {
                    assert(views_of(r@) =~= views_of(ids@));
                }
                r
            },
            None => {
                let r: Vec<Vec<u8>> = Vec::new();
                proof {
                    assert(views_of(r@) =~= Seq::<Seq<u8>>::empty());
                }
                r
            },
        }
    }

    /// Appends a record id to the owner's list, unless the owner is already
    /// at capacity. The entry is created lazily when the owner is unknown.
    pub fn try_append(&mut self, owner: u64, id: Vec<u8>) -> (r: Result<(), Error>)
        requires
            old(self).wf(),
        ensures
            final(self).wf(),
            old(self).list_of(owner).len() >= MAX_OWNED_CREDENTIALS as nat ==> {
                &&& r == Err::<(), Error>(Error::TooManyCredentials)
                &&& *final(self) == *old(self)
            },
            old(self).list_of(owner).len() < MAX_OWNED_CREDENTIALS as nat ==> {
                &&& r == Ok::<(), Error>(())
                &&& final(self)@ == old(self)@.insert(
                    owner,
                    old(self).list_of(owner).push(id@),
                )
            },
    {
        proof {
            lemma_entry_map_contains(self.entries@, owner);
        }
        match self.find(owner) {
            Some(i) => {
                proof {
                    lemma_entry_map_at(self.entries@, i as int);
                }
                if self.entries[i].ids.len() >= MAX_OWNED_CREDENTIALS {
                    return Err(Error::TooManyCredentials);
                }
                let ghost entries0 = self.entries@;
                let mut e = self.entries.remove(i);
                e.ids.push(id);
                self.entries.insert(i, e);
                proof {
                    assert(self.entries@ =~= entries0.update(i as int, e));
                    assert(e.id_views() =~= entries0[i as int].id_views().push(id@));
                    lemma_entry_map_update(entries0, i as int, e);
                }
                Ok(())
            },
            None => {
                let mut ids: Vec<Vec<u8>> = Vec::new();
                ids.push(id);
                let e = OwnerEntry { owner, ids };
                proof {
                    lemma_entry_map_push(self.entries@, e);
                    assert(e.id_views() =~= Seq::<Seq<u8>>::empty().push(id@));
                }
                self.entries.push(e);
                Ok(())
            },
        }
    }

    /// Removes the first (and, under the service's invariant, only) matching
    /// id from the owner's list; keeps the list as it was when the id is
    /// absent.
    pub fn remove(&mut self, owner: u64, id: &Vec<u8>)
        requires
            old(self).wf(),
        ensures
            final(self).wf(),
            final(self)@ == old(self)@.insert(
                owner,
                remove_first(old(self).list_of(owner), id@),
            ),
    {
        proof {
            lemma_entry_map_contains(self.entries@, owner);
        }
        match self.find(owner) {
            Some(i) => {
                proof {
                    lemma_entry_map_at(self.entries@, i as int);
                }
                let ghost entries0 = self.entries@;
                let ghost list0 = entries0[i as int].id_views();
                let mut e = self.entries.remove(i);

                let mut p: usize = 0;
                let mut found: bool = false;
                while p < e.ids.len() && !found
                    invariant
                        p <= e.ids@.len(),
                        !found ==> forall|k: int| 0 <= k < p ==> e.ids@[k]@ != id@,
                        found ==> p < e.ids@.len() && e.ids@[p as int]@ == id@
                            && forall|k: int| 0 <= k < p ==> e.ids@[k]@ != id@,
                    decreases e.ids@.len() - p + (if found { 0int } else { 1int }),
                {
                    if bytes_eq(&e.ids[p], id) {
                        found = true;
                    } else {
                        p = p + 1;
                    }
                }

                if found {
                    proof {
                        assert(list0[p as int] == id@);
                        assert(forall|k: int| 0 <= k < p ==> list0[k] != id@);
                        lemma_remove_first_at(list0, p as int);
                    }
                    e.ids.remove(p);
                    proof {
                        assert(e.id_views() =~= list0.remove(p as int));
                    }
                } else {
                    proof {
                        assert(!list0.contains(id@)) by {
                            if list0.contains(id@) {
                                let k = choose|k: int| 0 <= k < list0.len() && list0[k] == id@;
                                assert(e.ids@[k]@ == id@);
                            }
                        }
                        lemma_remove_first_absent(list0, id@);
                    }
                }
                self.entries.insert(i, e);
                proof {
                    assert(self.entries@ =~= entries0.update(i as int, e));
                    lemma_entry_map_update(entries0, i as int, e);
                }
            },
            None => {
                let e = OwnerEntry { owner, ids: Vec::new() };
                proof {
                    lemma_entry_map_push(self.entries@, e);
                    lemma_remove_first_absent(Seq::<Seq<u8>>::empty(), id@);
                    assert(e.id_views() =~= Seq::<Seq<u8>>::empty());
                }
                self.entries.push(e);
            },
        }
    }
}

} // verus!
