use freelance_credentials::errors::Error;
use freelance_credentials::service::Pallet;

#[test]
fn test_hash_identity_stable_across_instances() {
    // The same payload yields the same content-derived id on two independent
    // service instances, and the id is a 32-byte digest, not the payload.
    let payload = b"{\"x\":1}".to_vec();

    let mut first = Pallet::new();
    let mut second = Pallet::new();
    let id_first = first
        .mint_credential(1u64, payload.clone())
        .expect("mint should succeed");
    let id_second = second
        .mint_credential(2u64, payload.clone())
        .expect("mint should succeed");

    assert_eq!(id_first, id_second);
    assert_eq!(id_first.len(), 32);
    assert_ne!(id_first, payload);
}

#[test]
fn test_payload_size_exact_boundary() {
    // Exactly 4096 bytes is accepted; 4097 bytes is rejected.
    let mut pallet = Pallet::new();
    let at_limit = vec![b'a'; 4096];
    assert!(pallet.mint_credential(1u64, at_limit).is_ok());

    let over_limit = vec![b'a'; 4097];
    assert_eq!(
        pallet.mint_credential(1u64, over_limit),
        Err(Error::MetadataTooLarge)
    );
}

#[test]
fn test_recreate_after_delete_yields_same_id() {
    // Identity is content-derived: deleting a record and re-creating the
    // same payload mints a fresh record under the same id.
    let mut pallet = Pallet::new();
    let payload = b"re-mintable content".to_vec();

    let id_1 = pallet
        .mint_credential(1u64, payload.clone())
        .expect("mint should succeed");
    assert!(pallet.delete_credential(1u64, &id_1).is_ok());
    assert!(!pallet.credential_exists(&id_1));

    let id_2 = pallet
        .mint_credential(1u64, payload)
        .expect("re-mint should succeed");
    assert_eq!(id_1, id_2);
    assert!(pallet.credential_exists(&id_2));
}

#[test]
fn test_update_replaces_payload_and_keeps_index() {
    let mut pallet = Pallet::new();
    let id = pallet
        .mint_credential(5u64, b"original payload".to_vec())
        .expect("mint should succeed");
    let listed_before = pallet.owner_credentials(5u64);

    assert!(pallet
        .update_credential(5u64, &id, b"replacement payload".to_vec())
        .is_ok());

    // The stored payload changed; the id, owner, and index did not.
    let (owner, payload) = pallet.credentials(&id).expect("record should exist");
    assert_eq!(owner, 5u64);
    assert_eq!(payload, b"replacement payload".to_vec());
    assert_eq!(pallet.owner_credentials(5u64), listed_before);
}

#[test]
fn test_index_store_agree_after_mixed_operations() {
    // After a mixed sequence of create/update/delete calls, each owner's
    // index lists exactly the ids the record store holds for that owner.
    let mut pallet = Pallet::new();
    let alice = 10u64;
    let bob = 20u64;

    let a1 = pallet.mint_credential(alice, b"alice one".to_vec()).unwrap();
    let a2 = pallet.mint_credential(alice, b"alice two".to_vec()).unwrap();
    let b1 = pallet.mint_credential(bob, b"bob one".to_vec()).unwrap();
    assert!(pallet.update_credential(alice, &a2, b"alice two revised".to_vec()).is_ok());
    assert!(pallet.delete_credential(alice, &a1).is_ok());

    for owner in [alice, bob] {
        let listed = pallet.owner_credentials(owner);
        for id in &listed {
            assert_eq!(pallet.get_credential_owner(id), Some(owner));
        }
        let resolved = pallet.get_credentials_by_owner(owner);
        assert_eq!(resolved.len(), listed.len());
        for (k, (id, payload)) in resolved.iter().enumerate() {
            assert_eq!(*id, listed[k]);
            let (_, stored_payload) = pallet.credentials(id).expect("listed id must resolve");
            assert_eq!(*payload, stored_payload);
        }
    }

    assert_eq!(pallet.owner_credentials(alice), vec![a2.clone()]);
    assert_eq!(pallet.owner_credentials(bob), vec![b1.clone()]);
}

#[test]
fn test_full_lifecycle_scenario() {
    // create(A, {"x":1}) succeeds; creating it again is a duplicate;
    // update(A) replaces the payload; delete(B) is rejected as not owner;
    // delete(A) succeeds; afterwards the record is gone and A's list empty.
    let mut pallet = Pallet::new();
    let a = 1u64;
    let b = 2u64;

    let h1 = pallet
        .mint_credential(a, b"{\"x\":1}".to_vec())
        .expect("first create should succeed");

    assert_eq!(
        pallet.mint_credential(a, b"{\"x\":1}".to_vec()),
        Err(Error::CredentialAlreadyExists)
    );

    assert!(pallet.update_credential(a, &h1, b"{\"x\":2}".to_vec()).is_ok());
    let (_, payload) = pallet.credentials(&h1).expect("record should exist");
    assert_eq!(payload, b"{\"x\":2}".to_vec());

    assert_eq!(pallet.delete_credential(b, &h1), Err(Error::NotCredentialOwner));

    assert!(pallet.delete_credential(a, &h1).is_ok());
    assert!(!pallet.credential_exists(&h1));
    assert_eq!(pallet.get_credentials_by_owner(a).len(), 0);
}

#[test]
fn test_rejected_calls_leave_state_unchanged() {
    let mut pallet = Pallet::new();
    let id = pallet.mint_credential(1u64, b"kept".to_vec()).unwrap();
    let listed = pallet.owner_credentials(1u64);
    let events_before = pallet.events.len();

    // Each rejected call leaves the record, the index, and the event trail
    // exactly as they were.
    assert!(pallet.mint_credential(2u64, b"kept".to_vec()).is_err());
    assert!(pallet.mint_credential(1u64, vec![0u8; 5000]).is_err());
    assert!(pallet.update_credential(2u64, &id, b"stolen".to_vec()).is_err());
    assert!(pallet.update_credential(1u64, &b"missing".to_vec(), b"x".to_vec()).is_err());
    assert!(pallet.delete_credential(2u64, &id).is_err());

    assert_eq!(pallet.owner_credentials(1u64), listed);
    assert_eq!(pallet.owner_credentials(2u64), Vec::<Vec<u8>>::new());
    let (owner, payload) = pallet.credentials(&id).expect("record should exist");
    assert_eq!(owner, 1u64);
    assert_eq!(payload, b"kept".to_vec());
    assert_eq!(pallet.events.len(), events_before);
}
