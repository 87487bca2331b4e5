use aio_base_backend::society_profile_types::{
    generate_social_pair_key, ChatStore, Contact, ContactNameKey, ContactOwnerKey, ContactStatus, ContactStore,
    ContactType, LoginMethod, LoginStatus, MessageMode, ProfileStore, UserProfile,
};

fn profile(user_id: &str, principal: &str, name: Option<&str>, email: Option<&str>) -> UserProfile {
    UserProfile {
        user_id: user_id.to_string(),
        principal_id: principal.to_string(),
        name: name.map(|n| n.to_string()),
        nickname: "nick".to_string(),
        login_method: LoginMethod::Wallet,
        login_status: LoginStatus::Authenticated,
        email: email.map(|e| e.to_string()),
        picture: Some("pic.png".to_string()),
        wallet_address: None,
        devices: vec!["dev-a".to_string()],
        created_at: 0,
        updated_at: 0,
        metadata: None,
    }
}

#[test]
fn test_user_profile_creation() {
    let now = 1_700_000_000_000_000_000u64;
    let profile = UserProfile {
        user_id: "user123".to_string(),
        principal_id: "principal456".to_string(),
        name: Some("Test User".to_string()),
        nickname: "Test".to_string(),
        login_method: LoginMethod::Wallet,
        login_status: LoginStatus::Authenticated,
        email: Some("test@example.com".to_string()),
        picture: Some("avatar.jpg".to_string()),
        wallet_address: Some("0x123...".to_string()),
        devices: vec!["Device1".to_string(), "Device2".to_string()],
        created_at: now,
        updated_at: now,
        metadata: Some("Test metadata".to_string()),
    };

    assert_eq!(profile.user_id, "user123");
    assert_eq!(profile.principal_id, "principal456");
    assert_eq!(profile.name, Some("Test User".to_string()));
    assert_eq!(profile.devices.len(), 2);
    assert_eq!(profile.devices[0], "Device1");
    assert_eq!(profile.devices[1], "Device2");
}

#[test]
fn test_contact_creation() {
    let contact = Contact {
        id: 0,
        owner_principal_id: "owner123".to_string(),
        contact_principal_id: "contact456".to_string(),
        name: "Test Contact".to_string(),
        nickname: Some("Test".to_string()),
        contact_type: ContactType::Friend,
        status: ContactStatus::Active,
        avatar: Some("AV".to_string()),
        devices: vec!["Device1".to_string(), "Device2".to_string()],
        is_online: true,
        created_at: 0,
        updated_at: 0,
        metadata: Some("Test metadata".to_string()),
    };

    assert_eq!(contact.owner_principal_id, "owner123");
    assert_eq!(contact.contact_principal_id, "contact456");
    assert_eq!(contact.name, "Test Contact");
    assert_eq!(contact.contact_type, ContactType::Friend);
    assert_eq!(contact.status, ContactStatus::Active);
    assert_eq!(contact.devices.len(), 2);
    assert!(contact.is_online);
}

#[test]
fn test_contact_type_variants() {
    let friend = ContactType::Friend;
    let system = ContactType::System;
    let business = ContactType::Business;
    let family = ContactType::Family;

    assert_ne!(friend, system);
    assert_ne!(business, family);
    assert_eq!(friend, ContactType::Friend);
}

#[test]
fn test_contact_status_variants() {
    let active = ContactStatus::Active;
    let pending = ContactStatus::Pending;
    let blocked = ContactStatus::Blocked;
    let deleted = ContactStatus::Deleted;

    assert_ne!(active, pending);
    assert_ne!(blocked, deleted);
    assert_eq!(active, ContactStatus::Active);
}

#[test]
fn test_contact_owner_key() {
    let key = ContactOwnerKey {
        owner_principal_id: "owner123".to_string(),
        contact_principal_id: "contact456".to_string(),
    };

    assert_eq!(key.owner_principal_id, "owner123");
    assert_eq!(key.contact_principal_id, "contact456");
}

#[test]
fn test_contact_name_key() {
    let key = ContactNameKey {
        owner_principal_id: "owner123".to_string(),
        name: "Test Contact".to_string(),
    };

    assert_eq!(key.owner_principal_id, "owner123");
    assert_eq!(key.name, "Test Contact");
}

#[test]
fn test_social_pair_key_generation() {
    let key1 = generate_social_pair_key("alice".to_string(), "bob".to_string());
    let key2 = generate_social_pair_key("bob".to_string(), "alice".to_string());

    assert_eq!(key1, key2);
    assert!(key1.starts_with("social_pair_"));
}

#[test]
fn test_message_mode_variants() {
    let text = MessageMode::Text;
    let voice = MessageMode::Voice;
    let image = MessageMode::Image;
    let emoji = MessageMode::Emoji;

    assert_ne!(text, voice);
    assert_ne!(image, emoji);
    assert_eq!(text, MessageMode::Text);
}

#[test]
fn test_bidirectional_contact_creation() {
    let owner_principal = "owner-principal-123".to_string();
    let contact_principal = "contact-principal-456".to_string();
    let nickname = Some("My Friend".to_string());

    assert_eq!(owner_principal, "owner-principal-123");
    assert_eq!(contact_principal, "contact-principal-456");
    assert_eq!(nickname, Some("My Friend".to_string()));
}

#[test]
fn test_bidirectional_contact_data_structure() {
    let owner_principal = "owner-principal-123".to_string();
    let contact_principal = "contact-principal-456".to_string();
    let nickname = Some("我的好友".to_string());

    let owner_to_contact = Contact {
        id: 0,
        owner_principal_id: owner_principal.clone(),
        contact_principal_id: contact_principal.clone(),
        name: "Bob".to_string(),
        nickname: nickname.clone(),
        contact_type: ContactType::Friend,
        status: ContactStatus::Active,
        avatar: Some("avatar.jpg".to_string()),
        devices: vec!["device1".to_string()],
        is_online: false,
        created_at: 1700000000,
        updated_at: 1700000000,
        metadata: None,
    };

    let contact_to_owner = Contact {
        id: 0,
        owner_principal_id: contact_principal.clone(),
        contact_principal_id: owner_principal.clone(),
        name: "Alice".to_string(),
        nickname: None,
        contact_type: ContactType::Friend,
        status: ContactStatus::Active,
        avatar: Some("avatar2.jpg".to_string()),
        devices: vec!["device2".to_string()],
        is_online: false,
        created_at: 1700000000,
        updated_at: 1700000000,
        metadata: None,
    };

    assert_eq!(owner_to_contact.owner_principal_id, owner_principal);
    assert_eq!(owner_to_contact.contact_principal_id, contact_principal);
    assert_eq!(owner_to_contact.nickname, nickname);
    assert_eq!(owner_to_contact.contact_type, ContactType::Friend);
    assert_eq!(owner_to_contact.status, ContactStatus::Active);

    assert_eq!(contact_to_owner.owner_principal_id, contact_principal);
    assert_eq!(contact_to_owner.contact_principal_id, owner_principal);
    assert_eq!(contact_to_owner.nickname, None);
    assert_eq!(contact_to_owner.contact_type, ContactType::Friend);
    assert_eq!(contact_to_owner.status, ContactStatus::Active);

    assert_ne!(owner_to_contact.owner_principal_id, contact_to_owner.owner_principal_id);
    assert_eq!(owner_to_contact.owner_principal_id, contact_to_owner.contact_principal_id);
    assert_eq!(owner_to_contact.contact_principal_id, contact_to_owner.owner_principal_id);
}

#[test]
fn test_bidirectional_contact_error_cases() {
    let empty_principal = "".to_string();
    let valid_principal = "valid-principal".to_string();

    assert!(empty_principal.is_empty());
    assert!(!valid_principal.is_empty());

    let nickname_none: Option<String> = None;
    let nickname_some = Some("昵称".to_string());

    assert!(nickname_none.is_none());
    assert!(nickname_some.is_some());

    let same_principal = "same-principal".to_string();
    assert_eq!(same_principal.clone(), same_principal);
}

#[test]
fn profile_upsert_then_lookups_find_it() {
    let mut store = ProfileStore::new();
    let index = store.upsert_user_profile(profile("u1", "p1", Some("Ann"), Some("a@x.io")), 500).unwrap();
    assert_eq!(index, 0);
    let by_principal = store.get_user_profile_by_principal("p1".to_string()).unwrap();
    assert_eq!(by_principal.user_id, "u1");
    assert_eq!(by_principal.created_at, 500);
    assert_eq!(by_principal.updated_at, 500);
    assert_eq!(store.get_user_profile_by_user_id("u1".to_string()).unwrap().principal_id, "p1");
    assert_eq!(store.get_user_profile_by_email("a@x.io".to_string()).unwrap().principal_id, "p1");
    assert!(store.get_user_profile_by_email("b@x.io".to_string()).is_none());
    assert_eq!(store.get_total_user_profiles(), 1);
}

#[test]
fn profile_upsert_same_principal_replaces_in_place() {
    let mut store = ProfileStore::new();
    store.upsert_user_profile(profile("u1", "p1", None, None), 10).unwrap();
    store.upsert_user_profile(profile("u2", "p2", None, None), 11).unwrap();
    let again = store.upsert_user_profile(profile("u1b", "p1", None, None), 12).unwrap();
    assert_eq!(again, 0);
    assert_eq!(store.get_total_user_profiles(), 2);
    assert_eq!(store.get_user_profile(0).unwrap().user_id, "u1b");
    assert_eq!(store.get_user_profile_by_user_id("u1b".to_string()).unwrap().principal_id, "p1");
}

#[test]
fn profile_edits_and_errors() {
    let mut store = ProfileStore::new();
    store.upsert_user_profile(profile("u1", "p1", None, None), 10).unwrap();
    let p = store.update_user_nickname("p1".to_string(), "Nina".to_string(), 20).unwrap();
    assert_eq!(p.nickname, "Nina");
    assert_eq!(p.updated_at, 20);
    let p = store.add_user_device("p1".to_string(), "dev-b".to_string(), 21).unwrap();
    assert_eq!(p.devices, vec!["dev-a".to_string(), "dev-b".to_string()]);
    let same = store.add_user_device("p1".to_string(), "dev-b".to_string(), 22).unwrap();
    assert_eq!(same.devices.len(), 2);
    assert_eq!(same.updated_at, 21);
    let p = store.remove_user_device("p1".to_string(), "dev-a".to_string(), 23).unwrap();
    assert_eq!(p.devices, vec!["dev-b".to_string()]);
    let p = store.update_user_devices("p1".to_string(), vec!["x".to_string()], 24).unwrap();
    assert_eq!(p.devices, vec!["x".to_string()]);
    assert_eq!(store.update_user_nickname("nobody".to_string(), "n".to_string(), 25).unwrap_err(), "User profile not found");
    assert_eq!(store.add_user_device("nobody".to_string(), "d".to_string(), 25).unwrap_err(), "User profile not found");
}

#[test]
fn profile_delete_drops_indices_but_keeps_record() {
    let mut store = ProfileStore::new();
    store.upsert_user_profile(profile("u1", "p1", None, Some("e@x.io")), 10).unwrap();
    assert_eq!(store.delete_user_profile("p1".to_string()), Ok(true));
    assert!(store.get_user_profile_by_principal("p1".to_string()).is_none());
    assert!(store.get_user_profile_by_user_id("u1".to_string()).is_none());
    assert!(store.get_user_profile_by_email("e@x.io".to_string()).is_none());
    assert_eq!(store.get_total_user_profiles(), 1);
    assert_eq!(store.delete_user_profile("p1".to_string()), Ok(false));
    let page = store.get_user_profiles_paginated(0, 10);
    assert_eq!(page.len(), 1);
    assert!(store.get_user_profiles_paginated(1, 10).is_empty());
}

#[test]
fn bidirectional_contacts_are_created_both_ways() {
    let mut profiles = ProfileStore::new();
    profiles.upsert_user_profile(profile("ua", "alice", Some("Alice"), None), 1).unwrap();
    profiles.upsert_user_profile(profile("ub", "bob", None, None), 2).unwrap();
    let mut contacts = ContactStore::new();
    let first = contacts
        .create_contact_from_principal_id("alice".to_string(), "bob".to_string(), Some("Bobby".to_string()), 3, &profiles)
        .unwrap();
    assert_eq!(first, 0);
    let ab = contacts.get_contact_by_principal_ids("alice".to_string(), "bob".to_string()).unwrap();
    assert_eq!(ab.name, "Unknown User");
    assert_eq!(ab.nickname, Some("Bobby".to_string()));
    assert_eq!(ab.contact_type, ContactType::Friend);
    assert_eq!(ab.status, ContactStatus::Active);
    assert_eq!(ab.created_at, 3);
    let ba = contacts.get_contact_by_principal_ids("bob".to_string(), "alice".to_string()).unwrap();
    assert_eq!(ba.name, "Alice");
    assert_eq!(ba.nickname, None);
    assert_eq!(contacts.get_total_contacts_by_owner("alice".to_string()), 1);
    assert_eq!(
        contacts.create_contact_from_principal_id("alice".to_string(), "carol".to_string(), None, 4, &profiles).unwrap_err(),
        "Contact user profile not found for the given principal ID"
    );
    assert_eq!(
        contacts.create_contact_from_principal_id("dave".to_string(), "bob".to_string(), None, 4, &profiles).unwrap_err(),
        "Owner user profile not found for the given principal ID"
    );
    let before = contacts.get_total_contacts_by_owner("alice".to_string());
    assert_eq!(
        contacts.create_contact_from_principal_id("alice".to_string(), "alice".to_string(), None, 5, &profiles).unwrap_err(),
        "Cannot add yourself as a contact"
    );
    assert_eq!(contacts.get_total_contacts_by_owner("alice".to_string()), before);
    assert!(contacts.get_contact_by_principal_ids("alice".to_string(), "alice".to_string()).is_none());
}

#[test]
fn contact_search_status_and_delete() {
    let mut profiles = ProfileStore::new();
    profiles.upsert_user_profile(profile("ub", "bob", None, None), 1).unwrap();
    let mut contacts = ContactStore::new();
    let c = Contact {
        id: 0,
        owner_principal_id: "alice".to_string(),
        contact_principal_id: "bob".to_string(),
        name: "Robert".to_string(),
        nickname: Some("BigBob".to_string()),
        contact_type: ContactType::Business,
        status: ContactStatus::Pending,
        avatar: None,
        devices: vec![],
        is_online: false,
        created_at: 0,
        updated_at: 0,
        metadata: None,
    };
    assert_eq!(contacts.upsert_contact(c, 5, &profiles), Ok(0));
    let stored = contacts.get_contact_by_id(0).unwrap();
    assert_eq!(stored.devices, vec!["dev-a".to_string()]);
    assert_eq!(contacts.search_contacts_by_name("alice".to_string(), "bigb".to_string()).len(), 1);
    assert_eq!(contacts.search_contacts_by_name("alice".to_string(), "ROB".to_string()).len(), 1);
    assert_eq!(contacts.search_contacts_by_name("alice".to_string(), "zed".to_string()).len(), 0);
    let updated = contacts
        .update_contact_status("alice".to_string(), "bob".to_string(), ContactStatus::Blocked, 6, &profiles)
        .unwrap();
    assert_eq!(updated.status, ContactStatus::Blocked);
    assert_eq!(contacts.get_contact_by_id(0).unwrap().status, ContactStatus::Blocked);
    assert_eq!(
        contacts.update_contact_nickname("alice".to_string(), "nobody".to_string(), "n".to_string(), 7, &profiles).unwrap_err(),
        "Contact not found"
    );
    assert_eq!(contacts.delete_contact("alice".to_string(), "bob".to_string()), Ok(true));
    assert!(contacts.get_contact_by_principal_ids("alice".to_string(), "bob".to_string()).is_none());
    assert_eq!(contacts.delete_contact("alice".to_string(), "bob".to_string()), Ok(false));
    assert_eq!(contacts.get_contacts_by_owner("alice".to_string()).len(), 1);
    assert_eq!(contacts.get_contacts_by_owner_paginated("alice".to_string(), 1, 5).len(), 0);
}

#[test]
fn chat_messages_and_notifications() {
    let mut chat = ChatStore::new();
    for i in 0..7u64 {
        let idx = chat
            .add_chat_message("alice".to_string(), "bob".to_string(), format!("m{}", i), MessageMode::Text, 100 + i)
            .unwrap();
        assert_eq!(idx, i);
    }
    assert_eq!(chat.get_chat_message_count("bob".to_string(), "alice".to_string()), 7);
    let recent = chat.get_recent_chat_messages("bob".to_string(), "alice".to_string());
    assert_eq!(recent.len(), 5);
    assert_eq!(recent[0].content, "m2");
    assert_eq!(recent[4].content, "m6");
    let page = chat.get_chat_messages_paginated("alice".to_string(), "bob".to_string(), 5, 10);
    assert_eq!(page.len(), 2);
    assert_eq!(chat.get_notifications_for_receiver("bob".to_string()).len(), 7);
    assert!(chat.get_notifications_for_receiver("alice".to_string()).is_empty());
    let first = chat.pop_notification("bob".to_string()).unwrap();
    assert_eq!(first.message_id, 0);
    assert_eq!(chat.get_notifications_for_receiver("bob".to_string()).len(), 6);
    let key = generate_social_pair_key("alice".to_string(), "bob".to_string());
    assert_eq!(chat.clear_notifications_for_pair(key, "bob".to_string()), Ok(6));
    assert!(chat.pop_notification("bob".to_string()).is_none());
}
