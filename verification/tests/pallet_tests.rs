use freelance_credentials::errors::Error;
use freelance_credentials::service::Event;
use freelance_credentials::service::Pallet;

// Helper function to create test metadata
fn create_test_metadata(content: &str) -> Vec<u8> {
    format!(
        "{{\"name\":\"{}\",\"type\":\"skill\",\"issuer\":\"test\",\"timestamp\":\"2024-01-01T00:00:00Z\"}}",
        content
    )
    .into_bytes()
}

// Helper function to create large metadata (near the 4096-byte limit)
fn create_large_metadata() -> Vec<u8> {
    let base = "{\"name\":\"Large Credential\",\"type\":\"skill\",\"issuer\":\"test\",\"timestamp\":\"2024-01-01T00:00:00Z\",\"description\":\"";
    let suffix = "\"}";
    let padding_size = 4096 - base.len() - suffix.len() - 10; // Leave some buffer
    let padding = "x".repeat(padding_size);
    format!("{}{}{}", base, padding, suffix).into_bytes()
}

// Helper function to create oversized metadata (over the 4096-byte limit)
fn create_oversized_metadata() -> Vec<u8> {
    let content = "x".repeat(4100);
    format!(
        "{{\"name\":\"{}\",\"type\":\"skill\",\"issuer\":\"test\",\"timestamp\":\"2024-01-01T00:00:00Z\"}}",
        content
    )
    .into_bytes()
}

#[test]
fn test_mint_credential_success() {
    let mut pallet = Pallet::new();
    let account_id = 1u64;
    let metadata = create_test_metadata("Test Skill");

    // Mint credential should succeed
    let credential_id = pallet
        .mint_credential(account_id, metadata.clone())
        .expect("mint should succeed");

    // Check that credential was stored
    assert!(pallet.credential_exists(&credential_id));

    // Check that owner is correct
    assert_eq!(pallet.get_credential_owner(&credential_id), Some(account_id));

    // Check that credential is in owner's list
    let owner_credentials = pallet.owner_credentials(account_id);
    assert_eq!(owner_credentials.len(), 1);
    assert_eq!(owner_credentials[0], credential_id);

    // Check that event was emitted
    let expected = Event::CredentialMinted {
        credential_id: credential_id.clone(),
        owner: account_id,
    };
    assert_eq!(pallet.events.last(), Some(&expected));
}

#[test]
fn test_mint_credential_duplicate_fails() {
    let mut pallet = Pallet::new();
    let account_id = 1u64;
    let metadata = create_test_metadata("Duplicate Test");

    // First mint should succeed
    assert!(pallet.mint_credential(account_id, metadata.clone()).is_ok());

    // Second mint with same metadata should fail
    assert_eq!(
        pallet.mint_credential(account_id, metadata),
        Err(Error::CredentialAlreadyExists)
    );
}

#[test]
fn test_mint_credential_duplicate_different_users() {
    let mut pallet = Pallet::new();
    let account_1 = 1u64;
    let account_2 = 2u64;
    let metadata = create_test_metadata("Same Content");

    // First user mints credential
    assert!(pallet.mint_credential(account_1, metadata.clone()).is_ok());

    // Second user tries to mint same credential - should fail
    assert_eq!(
        pallet.mint_credential(account_2, metadata),
        Err(Error::CredentialAlreadyExists)
    );
}

#[test]
fn test_metadata_size_validation_boundary() {
    let mut pallet = Pallet::new();
    let account_id = 1u64;

    // Test with large but valid metadata (just under 4096 bytes)
    let large_metadata = create_large_metadata();
    assert!(large_metadata.len() <= 4096);
    assert!(pallet.mint_credential(account_id, large_metadata).is_ok());

    // Test with oversized metadata (over 4096 bytes)
    let oversized_metadata = create_oversized_metadata();
    assert!(oversized_metadata.len() > 4096);
    assert_eq!(
        pallet.mint_credential(account_id, oversized_metadata),
        Err(Error::MetadataTooLarge)
    );
}

#[test]
fn test_maximum_credential_limit() {
    let mut pallet = Pallet::new();
    let account_id = 1u64;

    // Mint 500 credentials (the maximum)
    for i in 0..500 {
        let metadata = create_test_metadata(&format!("Credential {}", i));
        assert!(pallet.mint_credential(account_id, metadata).is_ok());
    }

    // Verify we have 500 credentials
    let owner_credentials = pallet.owner_credentials(account_id);
    assert_eq!(owner_credentials.len(), 500);

    // Try to mint the 501st credential - should fail
    let metadata_501 = create_test_metadata("Credential 501");
    assert_eq!(
        pallet.mint_credential(account_id, metadata_501),
        Err(Error::TooManyCredentials)
    );
}

#[test]
fn test_concurrent_minting_different_users() {
    let mut pallet = Pallet::new();
    let account_1 = 1u64;
    let account_2 = 2u64;
    let account_3 = 3u64;

    // Each user mints different credentials
    let metadata_1 = create_test_metadata("User 1 Skill");
    let metadata_2 = create_test_metadata("User 2 Skill");
    let metadata_3 = create_test_metadata("User 3 Skill");

    let credential_id_1 = pallet
        .mint_credential(account_1, metadata_1)
        .expect("mint should succeed");
    let credential_id_2 = pallet
        .mint_credential(account_2, metadata_2)
        .expect("mint should succeed");
    let credential_id_3 = pallet
        .mint_credential(account_3, metadata_3)
        .expect("mint should succeed");

    // Verify isolation - each user owns only their credential
    assert_eq!(pallet.owner_credentials(account_1).len(), 1);
    assert_eq!(pallet.owner_credentials(account_2).len(), 1);
    assert_eq!(pallet.owner_credentials(account_3).len(), 1);

    // Verify correct ownership
    assert_eq!(pallet.get_credential_owner(&credential_id_1), Some(account_1));
    assert_eq!(pallet.get_credential_owner(&credential_id_2), Some(account_2));
    assert_eq!(pallet.get_credential_owner(&credential_id_3), Some(account_3));
}

#[test]
fn test_soulbound_enforcement_no_transfer_function() {
    // This test verifies that there is no transfer functionality implemented
    // Since there are no transfer functions, credentials are soulbound by design
    let mut pallet = Pallet::new();
    let account_1 = 1u64;
    let account_2 = 2u64;
    let metadata = create_test_metadata("Soulbound Test");

    // Mint credential to account_1
    let credential_id = pallet
        .mint_credential(account_1, metadata)
        .expect("mint should succeed");

    // Verify credential is owned by account_1
    assert_eq!(pallet.get_credential_owner(&credential_id), Some(account_1));

    // Verify account_2 doesn't own the credential
    let account_2_credentials = pallet.owner_credentials(account_2);
    assert!(!account_2_credentials.contains(&credential_id));

    // Note: there is no transfer function to test - this enforces the
    // soulbound nature; the credential remains permanently bound to account_1
    assert_eq!(pallet.get_credential_owner(&credential_id), Some(account_1));
}

#[test]
fn test_update_credential_success() {
    let mut pallet = Pallet::new();
    let account_id = 1u64;
    let metadata = create_test_metadata("Update Test");

    // Mint credential first
    let credential_id = pallet
        .mint_credential(account_id, metadata)
        .expect("mint should succeed");

    // Update the payload
    assert!(pallet
        .update_credential(account_id, &credential_id, b"private".to_vec())
        .is_ok());

    // Check that event was emitted
    let expected = Event::CredentialUpdated {
        credential_id: credential_id.clone(),
        owner: account_id,
    };
    assert_eq!(pallet.events.last(), Some(&expected));

    // Update again, with a payload describing a proof document
    assert!(pallet
        .update_credential(account_id, &credential_id, b"proof document".to_vec())
        .is_ok());
}

#[test]
fn test_update_credential_not_owner() {
    let mut pallet = Pallet::new();
    let owner = 1u64;
    let non_owner = 2u64;
    let metadata = create_test_metadata("Ownership Test");

    // Mint credential as owner
    let credential_id = pallet
        .mint_credential(owner, metadata)
        .expect("mint should succeed");

    // Try to update as non-owner - should fail
    assert_eq!(
        pallet.update_credential(non_owner, &credential_id, b"private".to_vec()),
        Err(Error::NotCredentialOwner)
    );
}

#[test]
fn test_update_nonexistent_credential() {
    let mut pallet = Pallet::new();
    let account_id = 1u64;
    let fake_credential_id = b"nonexistent".to_vec();

    // Try to update non-existent credential
    assert_eq!(
        pallet.update_credential(account_id, &fake_credential_id, b"private".to_vec()),
        Err(Error::CredentialNotFound)
    );
}

#[test]
fn test_delete_credential_success() {
    let mut pallet = Pallet::new();
    let account_id = 1u64;
    let metadata = create_test_metadata("Delete Test");

    // Mint credential first
    let credential_id = pallet
        .mint_credential(account_id, metadata)
        .expect("mint should succeed");

    // Verify credential exists
    assert!(pallet.credential_exists(&credential_id));
    assert_eq!(pallet.owner_credentials(account_id).len(), 1);

    // Delete credential
    assert!(pallet.delete_credential(account_id, &credential_id).is_ok());

    // Verify credential is deleted
    assert!(!pallet.credential_exists(&credential_id));
    assert_eq!(pallet.owner_credentials(account_id).len(), 0);

    // Check that event was emitted
    let expected = Event::CredentialDeleted {
        credential_id: credential_id.clone(),
        owner: account_id,
    };
    assert_eq!(pallet.events.last(), Some(&expected));
}

#[test]
fn test_delete_credential_not_owner() {
    let mut pallet = Pallet::new();
    let owner = 1u64;
    let non_owner = 2u64;
    let metadata = create_test_metadata("Delete Ownership Test");

    // Mint credential as owner
    let credential_id = pallet
        .mint_credential(owner, metadata)
        .expect("mint should succeed");

    // Try to delete as non-owner - should fail
    assert_eq!(
        pallet.delete_credential(non_owner, &credential_id),
        Err(Error::NotCredentialOwner)
    );

    // Verify credential still exists
    assert!(pallet.credential_exists(&credential_id));
}

#[test]
fn test_delete_nonexistent_credential() {
    let mut pallet = Pallet::new();
    let account_id = 1u64;
    let fake_credential_id = b"nonexistent".to_vec();

    // Try to delete non-existent credential
    assert_eq!(
        pallet.delete_credential(account_id, &fake_credential_id),
        Err(Error::CredentialNotFound)
    );
}

#[test]
fn test_get_credentials_by_owner() {
    let mut pallet = Pallet::new();
    let account_id = 1u64;
    let metadata_1 = create_test_metadata("Skill 1");
    let metadata_2 = create_test_metadata("Skill 2");
    let metadata_3 = create_test_metadata("Skill 3");

    // Mint multiple credentials
    let id_1 = pallet
        .mint_credential(account_id, metadata_1)
        .expect("mint should succeed");
    let id_2 = pallet
        .mint_credential(account_id, metadata_2)
        .expect("mint should succeed");
    let id_3 = pallet
        .mint_credential(account_id, metadata_3)
        .expect("mint should succeed");

    // Get credentials by owner
    let credentials = pallet.get_credentials_by_owner(account_id);
    assert_eq!(credentials.len(), 3);

    // Verify all credentials are returned
    let credential_ids: Vec<Vec<u8>> = credentials.iter().map(|(id, _)| id.clone()).collect();
    assert!(credential_ids.contains(&id_1));
    assert!(credential_ids.contains(&id_2));
    assert!(credential_ids.contains(&id_3));
}

#[test]
fn test_update_credential_size_limit() {
    let mut pallet = Pallet::new();
    let account_id = 1u64;
    let metadata = create_large_metadata(); // Near the 4096-byte limit

    // Mint credential with large metadata
    let credential_id = pallet
        .mint_credential(account_id, metadata.clone())
        .expect("mint should succeed");

    // Try to update with additional data that would exceed the limit
    let mut grown_metadata = metadata;
    grown_metadata.extend(vec![b'x'; 100]);
    assert!(grown_metadata.len() > 4096);
    assert_eq!(
        pallet.update_credential(account_id, &credential_id, grown_metadata),
        Err(Error::MetadataTooLarge)
    );
}

#[test]
fn test_multiple_operations_same_user() {
    let mut pallet = Pallet::new();
    let account_id = 1u64;
    let metadata_1 = create_test_metadata("Multi Op 1");
    let metadata_2 = create_test_metadata("Multi Op 2");

    // Mint first credential
    let credential_id_1 = pallet
        .mint_credential(account_id, metadata_1)
        .expect("mint should succeed");

    // Update first credential
    assert!(pallet
        .update_credential(account_id, &credential_id_1, b"private".to_vec())
        .is_ok());

    // Mint second credential
    let credential_id_2 = pallet
        .mint_credential(account_id, metadata_2)
        .expect("mint should succeed");

    // Delete first credential
    assert!(pallet.delete_credential(account_id, &credential_id_1).is_ok());

    // Verify final state
    assert!(!pallet.credential_exists(&credential_id_1));
    assert!(pallet.credential_exists(&credential_id_2));
    assert_eq!(pallet.owner_credentials(account_id).len(), 1);
}

#[test]
fn test_boundary_conditions_499_500_501() {
    let mut pallet = Pallet::new();
    let account_id = 1u64;

    // Mint 499 credentials
    for i in 0..499 {
        let metadata = create_test_metadata(&format!("Boundary {}", i));
        assert!(pallet.mint_credential(account_id, metadata).is_ok());
    }

    // Verify we have 499 credentials
    assert_eq!(pallet.owner_credentials(account_id).len(), 499);

    // Mint the 500th credential - should succeed
    let metadata_500 = create_test_metadata("Boundary 500");
    assert!(pallet.mint_credential(account_id, metadata_500).is_ok());

    // Verify we have exactly 500 credentials
    assert_eq!(pallet.owner_credentials(account_id).len(), 500);

    // Try to mint the 501st credential - should fail
    let metadata_501 = create_test_metadata("Boundary 501");
    assert_eq!(
        pallet.mint_credential(account_id, metadata_501),
        Err(Error::TooManyCredentials)
    );
}
