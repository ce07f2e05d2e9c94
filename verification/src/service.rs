//! The credential service: orchestrates create, update and delete across the
//! record store and the owner index, enforces ownership and the two storage
//! bounds, keeps the two maps consistent, and emits one event per successful
//! mutation.
//!
//! Every operation is a synchronous function from (state, call) to
//! (state, result); its meaning is the spec-level transition function beside
//! it, and each executable method's contract ties it to that transition
//! exactly. A rejected call leaves the state exactly as it was.

use vstd::prelude::*;
use crate::bytes::copy_bytes;
use crate::bytes::views_of;
use crate::errors::Error;
use crate::hashing::hash_of;
use crate::hashing::hash_payload;
use crate::index::lemma_remove_first_at;
use crate::index::remove_first;
use crate::index::OwnerIndex;
use crate::limits::MAX_METADATA_BYTES;
use crate::limits::MAX_OWNED_CREDENTIALS;
use crate::store::RecordStore;

verus! {

/// An event emitted by a successful operation; it carries only identifiers,
/// never payload content. The service appends events to a trail that a
/// caller-supplied collector can drain.
#[derive(Clone, Debug, PartialEq, Eq)]
pub enum Event {
    /// A record was created and bound to its owner.
    CredentialMinted { credential_id: Vec<u8>, owner: u64 },
    /// A record's payload was replaced by its owner.
    CredentialUpdated { credential_id: Vec<u8>, owner: u64 },
    /// A record was deleted by its owner.
    CredentialDeleted { credential_id: Vec<u8>, owner: u64 },
}

/// The mathematical shape of an event.
pub enum EventView {
    CredentialMinted { credential_id: Seq<u8>, owner: u64 },
    CredentialUpdated { credential_id: Seq<u8>, owner: u64 },
    CredentialDeleted { credential_id: Seq<u8>, owner: u64 },
}

impl View for Event {
    type V = EventView;

    open spec fn view(&self) -> EventView {
        match self {
            Event::CredentialMinted { credential_id, owner } => EventView::CredentialMinted {
                credential_id: credential_id@,
                owner: *owner,
            },
            Event::CredentialUpdated { credential_id, owner } => EventView::CredentialUpdated {
                credential_id: credential_id@,
                owner: *owner,
            },
            Event::CredentialDeleted { credential_id, owner } => EventView::CredentialDeleted {
                credential_id: credential_id@,
                owner: *owner,
            },
        }
    }
}

/// The service's state, as mathematics: the primary record map, the
/// per-owner index, and the trail of emitted events.
#[verifier::ext_equal]
pub struct StateModel {
    pub store: Map<Seq<u8>, (u64, Seq<u8>)>,
    pub index: Map<u64, Seq<Seq<u8>>>,
    pub events: Seq<EventView>,
}

impl StateModel {
    /// The state before any call.
    pub open spec fn init() -> StateModel {
        StateModel { store: Map::empty(), index: Map::empty(), events: Seq::empty() }
    }

    /// The record ids indexed for an owner; empty when the owner is unknown.
    pub open spec fn owned(self, owner: u64) -> Seq<Seq<u8>> {
        if self.index.contains_key(owner) {
            self.index[owner]
        } else {
            Seq::empty()
        }
    }

    /// Storage consistency: an id is indexed for an owner exactly when the
    /// record store holds it with that owner; indexed lists repeat no id and
    /// respect the per-owner bound; stored payloads respect the size bound.
    pub open spec fn inv(self) -> bool {
        &&& (forall|o: u64, x: Seq<u8>| #[trigger] self.owned(o).contains(x)
            ==> self.store.contains_key(x) && self.store[x].0 == o)
        &&& (forall|x: Seq<u8>| #[trigger] self.store.contains_key(x)
            ==> self.owned(self.store[x].0).contains(x))
        &&& (forall|o: u64, i: int, j: int| #![trigger self.owned(o)[i], self.owned(o)[j]]
            0 <= i < j < self.owned(o).len() ==> self.owned(o)[i] != self.owned(o)[j])
        &&& (forall|o: u64| (#[trigger] self.owned(o)).len() <= MAX_OWNED_CREDENTIALS as nat)
        &&& (forall|x: Seq<u8>| self.store.contains_key(x)
            ==> (#[trigger] self.store[x]).1.len() <= MAX_METADATA_BYTES as nat)
    }
}

/// What creating a record does: reject an oversized payload, a duplicate id,
/// or an owner at capacity; otherwise bind the content-derived id to
/// (caller, payload), append the id to the caller's index list, and emit.
pub open spec fn spec_create(st: StateModel, caller: u64, payload: Seq<u8>) -> (StateModel,
    Result<Seq<u8>, Error>) {
    if payload.len() > MAX_METADATA_BYTES as nat {
        (st, Err(Error::MetadataTooLarge))
    } else {
        let id = hash_of(payload);
        if st.store.contains_key(id) {
            (st, Err(Error::CredentialAlreadyExists))
        } else if st.owned(caller).len() >= MAX_OWNED_CREDENTIALS as nat {
            (st, Err(Error::TooManyCredentials))
        } else {
            (
                StateModel {
                    store: st.store.insert(id, (caller, payload)),
                    index: st.index.insert(caller, st.owned(caller).push(id)),
                    events: st.events.push(
                        EventView::CredentialMinted { credential_id: id, owner: caller },
                    ),
                },
                Ok(id),
            )
        }
    }
}

/// What updating a record does: reject an unknown id, a caller that is not
/// the owner, or an oversized payload; otherwise replace the payload in
/// place — the id and the owner never change — and emit.
pub open spec fn spec_update(st: StateModel, caller: u64, id: Seq<u8>, payload: Seq<u8>) -> (
    StateModel,
    Result<(), Error>,
) {
    if !st.store.contains_key(id) {
        (st, Err(Error::CredentialNotFound))
    } else if st.store[id].0 != caller {
        (st, Err(Error::NotCredentialOwner))
    } else if payload.len() > MAX_METADATA_BYTES as nat {
        (st, Err(Error::MetadataTooLarge))
    } else {
        (
            StateModel {
                store: st.store.insert(id, (caller, payload)),
                index: st.index,
                events: st.events.push(
                    EventView::CredentialUpdated { credential_id: id, owner: caller },
                ),
            },
            Ok(()),
        )
    }
}

/// What deleting a record does: reject an unknown id or a caller that is not
/// the owner; otherwise remove the record and its index entry as one unit,
/// and emit.
pub open spec fn spec_delete(st: StateModel, caller: u64, id: Seq<u8>) -> (StateModel, Result<
    (),
    Error,
>) {
    if !st.store.contains_key(id) {
        (st, Err(Error::CredentialNotFound))
    } else if st.store[id].0 != caller {
        (st, Err(Error::NotCredentialOwner))
    } else {
        (
            StateModel {
                store: st.store.remove(id),
                index: st.index.insert(caller, remove_first(st.owned(caller), id)),
                events: st.events.push(
                    EventView::CredentialDeleted { credential_id: id, owner: caller },
                ),
            },
            Ok(()),
        )
    }
}

/// The initial state is consistent.
pub proof fn lemma_init_inv()
    ensures
        StateModel::init().inv(),
{
}

/// Creating preserves storage consistency, whatever the call's outcome.
pub proof fn lemma_create_preserves_inv(st: StateModel, caller: u64, payload: Seq<u8>)
    requires
        st.inv(),
    ensures
        spec_create(st, caller, payload).0.inv(),
{
    let id = hash_of(payload);
    let st2 = spec_create(st, caller, payload).0;
    if payload.len() <= MAX_METADATA_BYTES as nat && !st.store.contains_key(id)
        && st.owned(caller).len() < MAX_OWNED_CREDENTIALS as nat {
        let l0 = st.owned(caller);
        let l1 = l0.push(id);
        assert(st2.owned(caller) == l1);
        assert(forall|o: u64| o != caller ==> st2.owned(o) == st.owned(o));
        assert forall|o: u64, x: Seq<u8>| st2.owned(o).contains(x) implies st2.store.contains_key(
            x,
        ) && st2.store[x].0 == o by {
            if o == caller {
                let j = choose|j: int| 0 <= j < l1.len() && l1[j] == x;
                if j < l0.len() {
                    assert(l0[j] == x);
                    assert(l0.contains(x));
                } else {
                    assert(x == id);
                }
            } else {
                assert(st.owned(o).contains(x));
            }
        }
        assert forall|x: Seq<u8>| st2.store.contains_key(x) implies st2.owned(
            st2.store[x].0,
        ).contains(x) by {
            if x == id {
                assert(l1[l0.len() as int] == id);
                assert(l1.contains(id));
            } else {
                assert(st.store.contains_key(x));
                let o = st.store[x].0;
                assert(st.owned(o).contains(x));
                if o == caller {
                    let j = choose|j: int| 0 <= j < l0.len() && l0[j] == x;
                    assert(l1[j] == x);
                    assert(l1.contains(x));
                }
            }
        }
        assert forall|o: u64, i: int, j: int|
            0 <= i < j < st2.owned(o).len() implies st2.owned(o)[i] != st2.owned(o)[j] by {
            if o == caller {
                if j == l0.len() as int {
                    assert(l1[i] == l0[i]);
                    if l0[i] == id {
                        assert(l0.contains(id));
                    }
                } else {
                    assert(l1[i] == l0[i] && l1[j] == l0[j]);
                }
            }
        }
        assert forall|o: u64| st2.owned(o).len() <= MAX_OWNED_CREDENTIALS as nat by {
            if o != caller {
                assert(st2.owned(o) == st.owned(o));
            }
        }
    }
}

/// Updating preserves storage consistency, whatever the call's outcome.
pub proof fn lemma_update_preserves_inv(st: StateModel, caller: u64, id: Seq<u8>, payload: Seq<u8>)
    requires
        st.inv(),
    ensures
        spec_update(st, caller, id, payload).0.inv(),
{
    let st2 = spec_update(st, caller, id, payload).0;
    if st.store.contains_key(id) && st.store[id].0 == caller && payload.len()
        <= MAX_METADATA_BYTES as nat {
        assert(forall|o: u64| st2.owned(o) == st.owned(o));
        assert forall|o: u64, x: Seq<u8>| st2.owned(o).contains(x) implies st2.store.contains_key(
            x,
        ) && st2.store[x].0 == o by {
            assert(st.owned(o).contains(x));
        }
        assert forall|x: Seq<u8>| st2.store.contains_key(x) implies st2.owned(
            st2.store[x].0,
        ).contains(x) by {
            assert(st.store.contains_key(x));
            assert(st2.store[x].0 == st.store[x].0);
        }
    }
}

/// Deleting preserves storage consistency, whatever the call's outcome.
pub proof fn lemma_delete_preserves_inv(st: StateModel, caller: u64, id: Seq<u8>)
    requires
        st.inv(),
    ensures
        spec_delete(st, caller, id).0.inv(),
{
    let st2 = spec_delete(st, caller, id).0;
    if st.store.contains_key(id) && st.store[id].0 == caller {
        let l0 = st.owned(caller);
        assert(l0.contains(id));
        let p = choose|p: int| 0 <= p < l0.len() && l0[p] == id;
        assert forall|k: int| 0 <= k < p implies l0[k] != l0[p] by {}
        lemma_remove_first_at(l0, p);
        let l1 = l0.remove(p);
        assert(st2.owned(caller) == l1);
        assert(forall|o: u64| o != caller ==> st2.owned(o) == st.owned(o));
        assert(forall|j: int| 0 <= j < p ==> l1[j] == l0[j]);
        assert(forall|j: int| p <= j < l1.len() ==> l1[j] == l0[j + 1]);
        assert forall|o: u64, x: Seq<u8>| st2.owned(o).contains(x) implies st2.store.contains_key(
            x,
        ) && st2.store[x].0 == o by {
            if o == caller {
                let j = choose|j: int| 0 <= j < l1.len() && l1[j] == x;
                let k: int = if j < p {
                    j
                } else {
                    j + 1
                };
                assert(l0[k] == x);
                assert(l0.contains(x));
                assert(x != id);
            } else {
                assert(st.owned(o).contains(x));
                assert(x != id);
            }
        }
        assert forall|x: Seq<u8>| st2.store.contains_key(x) implies st2.owned(
            st2.store[x].0,
        ).contains(x) by {
            assert(st.store.contains_key(x));
            assert(x != id);
            let o = st.store[x].0;
            assert(st.owned(o).contains(x));
            if o == caller {
                let k = choose|k: int| 0 <= k < l0.len() && l0[k] == x;
                assert(k != p);
                if k < p {
                    assert(l1[k] == x);
                } else {
                    assert(l1[k - 1] == x);
                }
                assert(l1.contains(x));
            }
        }
        assert forall|o: u64, i: int, j: int|
            0 <= i < j < st2.owned(o).len() implies st2.owned(o)[i] != st2.owned(o)[j] by {
            if o == caller {
                let i0: int = if i < p {
                    i
                } else {
                    i + 1
                };
                let j0: int = if j < p {
                    j
                } else {
                    j + 1
                };
                assert(l1[i] == l0[i0]);
                assert(l1[j] == l0[j0]);
            }
        }
        assert forall|o: u64| st2.owned(o).len() <= MAX_OWNED_CREDENTIALS as nat by {
            if o != caller {
                assert(st2.owned(o) == st.owned(o));
            }
        }
    }
}

/// The credential service, with its two storage structures and the trail of
/// events it has emitted. Only the service mutates the record store and the
/// owner index; external reads go through its query surface.
pub struct Pallet {
    pub store: RecordStore,
    pub index: OwnerIndex,
    pub events: Vec<Event>,
}

impl View for Pallet {
    type V = StateModel;

    open spec fn view(&self) -> StateModel {
        StateModel {
            store: self.store@,
            index: self.index@,
            events: self.events@.map_values(|e: Event| e@),
        }
    }
}

impl Pallet {
    /// Well-formed: both storage vectors denote their maps unambiguously and
    /// the state satisfies storage consistency.
    pub open spec fn wf(&self) -> bool {
        &&& self.store.wf()
        &&& self.index.wf()
        &&& self@.inv()
    }

    /// A fresh service with no records, no index entries, and no events.
    pub fn new() -> (r: Pallet)
        ensures
            r.wf(),
            r@ == StateModel::init(),
    {
        let r = Pallet { store: RecordStore::new(), index: OwnerIndex::new(), events: Vec::new() };
        proof {
            assert(r.events@.map_values(|e: Event| e@) =~= Seq::<EventView>::empty());
            assert(r@ =~= StateModel::init());
            lemma_init_inv();
        }
        r
    }

    /// Creates a record bound to the caller, identified by the hash of its
    /// payload. Rejects, in this order: a payload over the size limit, a
    /// payload whose hash is already stored (from any caller), and a caller
    /// already at the ownership limit. On success, both maps change as one
    /// unit and the new id is returned.
    pub fn mint_credential(&mut self, caller: u64, metadata_json: Vec<u8>) -> (r: Result<
        Vec<u8>,
        Error,
    >)
        requires
            old(self).wf(),
        ensures
            final(self).wf(),
            final(self)@ == spec_create(old(self)@, caller, metadata_json@).0,
            (match r {
                Ok(id) => spec_create(old(self)@, caller, metadata_json@).1 == Ok::<
                    Seq<u8>,
                    Error,
                >(id@),
                Err(e) => spec_create(old(self)@, caller, metadata_json@).1 == Err::<
                    Seq<u8>,
                    Error,
                >(e),
            }),
    {
        if metadata_json.len() > MAX_METADATA_BYTES {
            return Err(Error::MetadataTooLarge);
        }
        let credential_id = hash_payload(&metadata_json);
        if self.store.contains(&credential_id) {
            return Err(Error::CredentialAlreadyExists);
        }
        if self.index.count(caller) >= MAX_OWNED_CREDENTIALS {
            return Err(Error::TooManyCredentials);
        }
        proof {
            lemma_create_preserves_inv(old(self)@, caller, metadata_json@);
        }
        let id_for_store = copy_bytes(&credential_id);
        let id_for_index = copy_bytes(&credential_id);
        let id_for_event = copy_bytes(&credential_id);
        self.store.put(id_for_store, caller, metadata_json);
        let appended = self.index.try_append(caller, id_for_index);
        if appended.is_err() {
            // the capacity check above makes this branch unreachable; restore
            // the record store all the same, so the two maps never diverge
            self.store.remove(&credential_id);
            return Err(Error::TooManyCredentials);
        }
        self.events.push(Event::CredentialMinted { credential_id: id_for_event, owner: caller });
        proof {
            assert(self.events@.map_values(|e: Event| e@) =~= old(self).events@.map_values(
                |e: Event| e@,
            ).push(EventView::CredentialMinted { credential_id: hash_of(metadata_json@), owner: caller }));
            assert(self@ =~= spec_create(old(self)@, caller, metadata_json@).0);
        }
        Ok(credential_id)
    }

    /// Replaces the entire payload of an existing record. Only the original
    /// owner may update; the record's id is fixed at creation and is not
    /// re-derived from the new payload, so the stored payload may drift from
    /// the id's preimage — deliberately. Rejects, in this order: an unknown
    /// id, a caller that is not the owner, and a payload over the size limit.
    pub fn update_credential(&mut self, caller: u64, credential_id: &Vec<u8>, new_metadata: Vec<
        u8,
    >) -> (r: Result<(), Error>)
        requires
            old(self).wf(),
        ensures
            final(self).wf(),
            final(self)@ == spec_update(old(self)@, caller, credential_id@, new_metadata@).0,
            (match r {
                Ok(u) => spec_update(old(self)@, caller, credential_id@, new_metadata@).1 == Ok::<
                    (),
                    Error,
                >(u),
                Err(e) => spec_update(old(self)@, caller, credential_id@, new_metadata@).1 == Err::<
                    (),
                    Error,
                >(e),
            }),
    {
        let owner = match self.store.get(credential_id) {
            None => {
                return Err(Error::CredentialNotFound);
            },
            Some((owner, _current_payload)) => owner,
        };
        if owner != caller {
            return Err(Error::NotCredentialOwner);
        }
        if new_metadata.len() > MAX_METADATA_BYTES {
            return Err(Error::MetadataTooLarge);
        }
        proof {
            lemma_update_preserves_inv(old(self)@, caller, credential_id@, new_metadata@);
        }
        self.store.put(copy_bytes(credential_id), caller, new_metadata);
        self.events.push(
            Event::CredentialUpdated { credential_id: copy_bytes(credential_id), owner: caller },
        );
        proof {
            assert(self.events@.map_values(|e: Event| e@) =~= old(self).events@.map_values(
                |e: Event| e@,
            ).push(EventView::CredentialUpdated { credential_id: credential_id@, owner: caller }));
            assert(self@ =~= spec_update(old(self)@, caller, credential_id@, new_metadata@).0);
        }
        Ok(())
    }

    /// Deletes an existing record. Only the original owner may delete.
    /// Rejects, in this order: an unknown id and a caller that is not the
    /// owner. On success, the record and its index entry vanish as one unit;
    /// the same payload may later be re-created, yielding the same id.
    pub fn delete_credential(&mut self, caller: u64, credential_id: &Vec<u8>) -> (r: Result<
        (),
        Error,
    >)
        requires
            old(self).wf(),
        ensures
            final(self).wf(),
            final(self)@ == spec_delete(old(self)@, caller, credential_id@).0,
            (match r {
                Ok(u) => spec_delete(old(self)@, caller, credential_id@).1 == Ok::<(), Error>(u),
                Err(e) => spec_delete(old(self)@, caller, credential_id@).1 == Err::<(), Error>(e),
            }),
    {
        let owner = match self.store.get(credential_id) {
            None => {
                return Err(Error::CredentialNotFound);
            },
            Some((owner, _payload)) => owner,
        };
        if owner != caller {
            return Err(Error::NotCredentialOwner);
        }
        proof {
            lemma_delete_preserves_inv(old(self)@, caller, credential_id@);
        }
        self.store.remove(credential_id);
        self.index.remove(caller, credential_id);
        self.events.push(
            Event::CredentialDeleted { credential_id: copy_bytes(credential_id), owner: caller },
        );
        proof {
            assert(self.events@.map_values(|e: Event| e@) =~= old(self).events@.map_values(
                |e: Event| e@,
            ).push(EventView::CredentialDeleted { credential_id: credential_id@, owner: caller }));
            assert(self@ =~= spec_delete(old(self)@, caller, credential_id@).0);
        }
        Ok(())
    }

    /// Whether a record with this id exists.
    pub fn credential_exists(&self, credential_id: &Vec<u8>) -> (r: bool)
        requires
            self.wf(),
        ensures
            r == self@.store.contains_key(credential_id@),
    {
        self.store.contains(credential_id)
    }

    /// The owner of the record with this id, if it exists.
    pub fn get_credential_owner(&self, credential_id: &Vec<u8>) -> (r: Option<u64>)
        requires
            self.wf(),
        ensures
            match r {
                Some(o) => self@.store.contains_key(credential_id@) && self@.store[
                    credential_id@
                ].0 == o,
                None => !self@.store.contains_key(credential_id@),
            },
    {
        match self.store.get(credential_id) {
            Some((owner, _payload)) => Some(owner),
            None => None,
        }
    }

    /// The owner and payload stored under this id, if any.
    pub fn credentials(&self, credential_id: &Vec<u8>) -> (r: Option<(u64, Vec<u8>)>)
        requires
            self.wf(),
        ensures
            match r {
                Some(p) => self@.store.contains_key(credential_id@) && self@.store[
                    credential_id@
                ] == (p.0, p.1@),
                None => !self@.store.contains_key(credential_id@),
            },
    {
        self.store.get(credential_id)
    }

    /// A copy of the ids an owner holds, in creation order.
    pub fn owner_credentials(&self, owner: u64) -> (r: Vec<Vec<u8>>)
        requires
            self.wf(),
        ensures
            views_of(r@) == self@.owned(owner),
    {
        self.index.list(owner)
    }

    /// Every (id, payload) the owner holds, in creation order, resolved
    /// through the record store. A lookup that fails is skipped defensively,
    /// but under well-formedness every indexed id resolves.
    pub fn get_credentials_by_owner(&self, owner: u64) -> (r: Vec<(Vec<u8>, Vec<u8>)>)
        requires
            self.wf(),
        ensures
            r@.len() == self@.owned(owner).len(),
            forall|k: int| #![trigger r@[k]] 0 <= k < r@.len() ==> {
                &&& r@[k].0@ == self@.owned(owner)[k]
                &&& self@.store.contains_key(self@.owned(owner)[k])
                &&& r@[k].1@ == self@.store[self@.owned(owner)[k]].1
            },
    {
        let ids = self.index.list(owner);
        let mut r: Vec<(Vec<u8>, Vec<u8>)> = Vec::new();
        let mut i: usize = 0;
        while i < ids.len()
            invariant
                self.wf(),
                views_of(ids@) == self@.owned(owner),
                i <= ids@.len(),
                r@.len() == i,
                forall|k: int| #![trigger r@[k]] 0 <= k < i ==> {
                    &&& r@[k].0@ == self@.owned(owner)[k]
                    &&& self@.store.contains_key(self@.owned(owner)[k])
                    &&& r@[k].1@ == self@.store[self@.owned(owner)[k]].1
                },
            decreases ids@.len() - i,
        {
            proof {
                assert(self@.owned(owner)[i as int] == ids@[i as int]@);
                assert(self@.owned(owner).contains(ids@[i as int]@));
            }
            match self.store.get(&ids[i]) {
                Some((_record_owner, payload)) => {
                    r.push((copy_bytes(&ids[i]), payload));
                },
                None => {
                    proof {
                        // under the invariant every indexed id is stored, so
                        // a failed lookup cannot be reached
                        assert(false);
                    }
                },
            }
            i = i + 1;
        }
        r
    }
}

/// Law: record identity is a function of content alone, so after a create
/// succeeds, creating the same payload again is rejected as a duplicate —
/// whoever the second caller is.
pub proof fn lemma_duplicate_create_rejected(
    st: StateModel,
    first_caller: u64,
    second_caller: u64,
    payload: Seq<u8>,
)
    requires
        spec_create(st, first_caller, payload).1 is Ok,
    ensures
        spec_create(spec_create(st, first_caller, payload).0, second_caller, payload).1 == Err::<
            Seq<u8>,
            Error,
        >(Error::CredentialAlreadyExists),
{
}

/// Law: a caller below the ownership bound can create, one at the bound is
/// rejected with the state unchanged — so an owner reaches exactly the bound
/// and never passes it.
pub proof fn lemma_capacity_boundary(st: StateModel, caller: u64, payload: Seq<u8>)
    requires
        payload.len() <= MAX_METADATA_BYTES as nat,
        !st.store.contains_key(hash_of(payload)),
    ensures
        st.owned(caller).len() < MAX_OWNED_CREDENTIALS as nat ==> spec_create(
            st,
            caller,
            payload,
        ).1 is Ok,
        st.owned(caller).len() >= MAX_OWNED_CREDENTIALS as nat ==> spec_create(st, caller, payload)
            == (st, Err::<Seq<u8>, Error>(Error::TooManyCredentials)),
{
}

/// Law: a record can be mutated only by its owner — update and delete by any
/// other caller are rejected with the state unchanged.
pub proof fn lemma_ownership_gate(st: StateModel, caller: u64, id: Seq<u8>, payload: Seq<u8>)
    requires
        st.store.contains_key(id),
        st.store[id].0 != caller,
    ensures
        spec_update(st, caller, id, payload) == (st, Err::<(), Error>(Error::NotCredentialOwner)),
        spec_delete(st, caller, id) == (st, Err::<(), Error>(Error::NotCredentialOwner)),
{
}

/// Law: a payload of exactly the size limit is accepted (absent a duplicate
/// or a full owner); one byte more is rejected as too large with the state
/// unchanged.
pub proof fn lemma_size_boundary(st: StateModel, caller: u64, payload: Seq<u8>)
    ensures
        payload.len() == MAX_METADATA_BYTES as nat && !st.store.contains_key(hash_of(payload))
            && st.owned(caller).len() < MAX_OWNED_CREDENTIALS as nat ==> spec_create(
            st,
            caller,
            payload,
        ).1 is Ok,
        payload.len() > MAX_METADATA_BYTES as nat ==> spec_create(st, caller, payload) == (
            st,
            Err::<Seq<u8>, Error>(Error::MetadataTooLarge),
        ),
{
}

/// Law: every rejected call leaves the state exactly as it was.
pub proof fn lemma_rejected_call_leaves_state_unchanged(
    st: StateModel,
    caller: u64,
    id: Seq<u8>,
    payload: Seq<u8>,
)
    ensures
        spec_create(st, caller, payload).1 is Err ==> spec_create(st, caller, payload).0 == st,
        spec_update(st, caller, id, payload).1 is Err ==> spec_update(st, caller, id, payload).0
            == st,
        spec_delete(st, caller, id).1 is Err ==> spec_delete(st, caller, id).0 == st,
{
}

/// Law: in every consistent state, an id is indexed for an owner exactly
/// when the record store holds it with that owner — the record map and the
/// owner index never diverge. Consistency holds initially and is preserved
/// by every operation, so it holds after any sequence of calls.
pub proof fn lemma_index_store_bijection(st: StateModel, owner: u64, id: Seq<u8>)
    requires
        st.inv(),
    ensures
        st.owned(owner).contains(id) <==> (st.store.contains_key(id) && st.store[id].0 == owner),
{
}

} // verus!
