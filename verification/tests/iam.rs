use iam_core::bits_to_permission_names;
use iam_core::find_next_available_bit;
use iam_core::permission_names_to_bits;
use iam_core::IamError;
use iam_core::IamManager;
use iam_core::PermissionRegistry;
use iam_core::User;

fn names(list: &[&str]) -> Vec<String> {
    list.iter().map(|s| s.to_string()).collect()
}

#[test]
fn default_permissions_are_listed_in_value_order() {
    let m = IamManager::new();
    let listed = m.list_permissions();
    let pairs: Vec<(String, u64)> = listed.iter().map(|p| (p.name.clone(), p.value)).collect();
    assert_eq!(
        pairs,
        vec![
            ("READ".to_string(), 1),
            ("WRITE".to_string(), 2),
            ("EXECUTE".to_string(), 4),
            ("DELETE".to_string(), 8),
        ]
    );
}

#[test]
fn full_scenario() {
    let mut m = IamManager::new();
    let user = m
        .create_user(
            "John Doe".to_string(),
            "john@example.com".to_string(),
            "secure_password".to_string(),
            &names(&["READ", "WRITE"]),
        )
        .unwrap();
    assert_eq!(user.permissions, 3);

    let (ok, missing) = m.check_permissions(&user.id, &names(&["READ", "WRITE"])).unwrap();
    assert!(ok);
    assert!(missing.is_empty());

    let (ok, missing) = m.check_permissions(&user.id, &names(&["EXECUTE"])).unwrap();
    assert!(!ok);
    assert_eq!(missing, vec!["EXECUTE".to_string()]);

    let admin = m.add_permission("ADMIN".to_string()).unwrap();
    assert_eq!(admin.name, "ADMIN");
    assert_eq!(admin.value, 16);

    let updated = m
        .update_user_permissions(&user.id, &names(&["READ", "WRITE", "EXECUTE", "ADMIN"]))
        .unwrap();
    assert_eq!(updated.permissions, 23);

    let (ok, missing) = m
        .check_permissions(&user.id, &names(&["READ", "EXECUTE", "ADMIN"]))
        .unwrap();
    assert!(ok);
    assert!(missing.is_empty());
}

#[test]
fn empty_requirement_is_trivially_satisfied() {
    let mut m = IamManager::new();
    let user = m
        .create_user(
            "a".to_string(),
            "a@example.com".to_string(),
            "pw".to_string(),
            &names(&["READ"]),
        )
        .unwrap();
    let (ok, missing) = m.check_permissions(&user.id, &names(&[])).unwrap();
    assert!(ok);
    assert!(missing.is_empty());
}

#[test]
fn unregistered_name_is_an_error_not_a_false_result() {
    let mut m = IamManager::new();
    let user = m
        .create_user(
            "a".to_string(),
            "a@example.com".to_string(),
            "pw".to_string(),
            &names(&["READ"]),
        )
        .unwrap();
    let err = m
        .check_permissions(&user.id, &names(&["NONEXISTENT"]))
        .unwrap_err();
    assert!(matches!(err, IamError::PermissionNotFound(n) if n == "NONEXISTENT"));
}

#[test]
fn round_trip_returns_the_same_sorted_names() {
    let reg = PermissionRegistry::new();
    let bits = permission_names_to_bits(&reg, &names(&["WRITE", "DELETE"])).unwrap();
    assert_eq!(bits, 10);
    let back = bits_to_permission_names(&reg, bits).unwrap();
    assert_eq!(back, vec!["DELETE".to_string(), "WRITE".to_string()]);
}

#[test]
fn empty_name_list_translates_to_mask_zero() {
    let reg = PermissionRegistry::new();
    assert_eq!(permission_names_to_bits(&reg, &names(&[])).unwrap(), 0);
}

#[test]
fn names_to_bits_reports_first_missing_name() {
    let reg = PermissionRegistry::new();
    let err = permission_names_to_bits(&reg, &names(&["READ", "NOPE", "ALSO_NOPE"])).unwrap_err();
    assert!(matches!(err, IamError::PermissionNotFound(n) if n == "NOPE"));
}

#[test]
fn unknown_bits_translate_to_no_names() {
    let reg = PermissionRegistry::new();
    let listed = bits_to_permission_names(&reg, 1u64 << 40).unwrap();
    assert!(listed.is_empty());
}

#[test]
fn stale_bit_is_omitted_after_removal() {
    let mut m = IamManager::new();
    let user = m
        .create_user(
            "a".to_string(),
            "a@example.com".to_string(),
            "pw".to_string(),
            &names(&["READ", "WRITE"]),
        )
        .unwrap();
    assert_eq!(user.permissions, 3);
    m.remove_permission(&"WRITE".to_string()).unwrap();
    let (stored, granted) = m.get_user_with_permission_names(&user.id).unwrap();
    assert_eq!(stored.permissions, 3);
    assert_eq!(granted, vec!["READ".to_string()]);
}

#[test]
fn freed_bit_is_reused_by_the_next_registration() {
    let mut m = IamManager::new();
    m.remove_permission(&"WRITE".to_string()).unwrap();
    let fresh = m.add_permission("TEMP".to_string()).unwrap();
    assert_eq!(fresh.value, 2);
}

#[test]
fn duplicate_registration_is_rejected() {
    let mut m = IamManager::new();
    let err = m.add_permission("READ".to_string()).unwrap_err();
    assert!(matches!(err, IamError::PermissionAlreadyExists(n) if n == "READ"));
}

#[test]
fn removal_of_an_absent_name_is_an_error() {
    let mut m = IamManager::new();
    let err = m.remove_permission(&"NOPE".to_string()).unwrap_err();
    assert!(matches!(err, IamError::PermissionNotFound(n) if n == "NOPE"));
}

#[test]
fn operations_on_an_absent_user_fail_with_user_not_found() {
    let mut m = IamManager::new();
    let id = "no-such-id".to_string();
    assert!(m.get_user(&id).is_none());
    assert!(m.get_user_with_permission_names(&id).is_none());
    let err = m.update_user_permissions(&id, &names(&["READ"])).unwrap_err();
    assert!(matches!(err, IamError::UserNotFound(n) if n == "no-such-id"));
    let err = m.check_permissions(&id, &names(&["READ"])).unwrap_err();
    assert!(matches!(err, IamError::UserNotFound(n) if n == "no-such-id"));
}

#[test]
fn update_replaces_instead_of_merging() {
    let mut m = IamManager::new();
    let user = m
        .create_user(
            "a".to_string(),
            "a@example.com".to_string(),
            "pw".to_string(),
            &names(&["READ"]),
        )
        .unwrap();
    let updated = m.update_user_permissions(&user.id, &names(&["WRITE"])).unwrap();
    assert_eq!(updated.permissions, 2);
    let (ok, missing) = m.check_permissions(&user.id, &names(&["READ"])).unwrap();
    assert!(!ok);
    assert_eq!(missing, vec!["READ".to_string()]);
    let (ok, missing) = m.check_permissions(&user.id, &names(&["WRITE"])).unwrap();
    assert!(ok);
    assert!(missing.is_empty());
}

#[test]
fn next_available_bit_takes_the_lowest_free_slot() {
    assert_eq!(find_next_available_bit(&vec![]).unwrap(), 1);
    assert_eq!(find_next_available_bit(&vec![1, 2, 4, 8]).unwrap(), 16);
    assert_eq!(find_next_available_bit(&vec![1, 4]).unwrap(), 2);
    assert_eq!(find_next_available_bit(&vec![2]).unwrap(), 1);
}

#[test]
fn next_available_bit_fails_when_all_slots_are_taken() {
    let full: Vec<u64> = (0..64).map(|k| 1u64 << k).collect();
    let err = find_next_available_bit(&full).unwrap_err();
    assert!(matches!(err, IamError::SlotsExhausted));
}

#[test]
fn registration_fails_once_all_bits_are_assigned() {
    let mut m = IamManager::new();
    for i in 0..60 {
        let p = m.add_permission(format!("P{:02}", i)).unwrap();
        assert!(p.value.is_power_of_two());
    }
    let err = m.add_permission("ONE_TOO_MANY".to_string()).unwrap_err();
    assert!(matches!(err, IamError::SlotsExhausted));
}

#[test]
fn created_user_carries_the_given_fields() {
    let user = User::new(
        "Ada".to_string(),
        "ada@example.com".to_string(),
        "pw".to_string(),
        5,
    )
    .unwrap();
    assert_eq!(user.name, "Ada");
    assert_eq!(user.email, "ada@example.com");
    assert_eq!(user.permissions, 5);
    assert!(!user.id.is_empty());
    assert!(!user.password_hash.is_empty());
    assert_ne!(user.password_hash, "pw");
}

#[test]
fn permission_names_sort_lexicographically() {
    let mut m = IamManager::new();
    m.add_permission("APPEND".to_string()).unwrap();
    let user = m
        .create_user(
            "a".to_string(),
            "a@example.com".to_string(),
            "pw".to_string(),
            &names(&["WRITE", "APPEND", "DELETE"]),
        )
        .unwrap();
    let (_, granted) = m.get_user_with_permission_names(&user.id).unwrap();
    assert_eq!(
        granted,
        vec!["APPEND".to_string(), "DELETE".to_string(), "WRITE".to_string()]
    );
}
