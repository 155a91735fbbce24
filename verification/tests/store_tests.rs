use modelstore::database::Database;
use modelstore::error::StoreError;
use modelstore::index_value::IndexValue;
use modelstore::memory::MockDatabase;
use modelstore::models::{Unit, User};
use modelstore::record_id::RecordId;
use modelstore::store::DatabaseLike;

// Helper to create test users
fn create_user(id: u128, email: &str, name: &str, age: u32) -> User {
    User {
        id: RecordId::new(id),
        email: email.to_string(),
        name: name.to_string(),
        age,
    }
}

// --- Schema & Initialization ---

#[test]
fn test_initialize_schema() {
    let mut store = MockDatabase::<Unit>::new();
    let result = store.initialize_schema();
    assert!(result.is_ok());
}

// --- Basic CRUD Operations ---

#[test]
fn test_insert_and_get() {
    let mut store = MockDatabase::<Unit>::new();
    let unit = Unit { id: RecordId::new(1) };

    store.insert(&unit).unwrap();
    let retrieved = store.get(unit.id).unwrap();

    assert_eq!(retrieved, Some(unit));
}

#[test]
fn test_insert_duplicate_id_fails() {
    let mut store = MockDatabase::<Unit>::new();
    let unit = Unit { id: RecordId::new(1) };

    store.insert(&unit).unwrap();
    let result = store.insert(&unit);

    assert!(result.is_err());
}

#[test]
fn test_insert_duplicate_unique_index_fails() {
    let mut store = MockDatabase::<User>::new();
    let user1 = create_user(1, "alice@example.com", "Alice", 30);
    let user2 = create_user(2, "alice@example.com", "Alice Clone", 25);

    store.insert(&user1).unwrap();
    let result = store.insert(&user2);

    assert!(matches!(result, Err(StoreError::UniqueViolation { .. })));
}

#[test]
fn test_update_existing_record() {
    let mut store = MockDatabase::<User>::new();
    let user = create_user(1, "alice@example.com", "Alice", 30);
    store.insert(&user).unwrap();

    let updated = create_user(1, "alice@example.com", "Alice Updated", 31);
    store.update(&updated).unwrap();

    let retrieved = store.get(user.id).unwrap().unwrap();
    assert_eq!(retrieved.name, "Alice Updated");
    assert_eq!(retrieved.age, 31);
}

#[test]
fn test_update_nonexistent_record_fails() {
    let mut store = MockDatabase::<Unit>::new();
    let unit = Unit { id: RecordId::new(999) };

    let result = store.update(&unit);
    assert!(matches!(result, Err(StoreError::NotFound(_))));
}

#[test]
fn test_delete_existing_record() {
    let mut store = MockDatabase::<Unit>::new();
    let unit = Unit { id: RecordId::new(1) };
    store.insert(&unit).unwrap();

    store.delete(unit.id).unwrap();

    let retrieved = store.get(unit.id).unwrap();
    assert_eq!(retrieved, None);
}

#[test]
fn test_delete_nonexistent_record_fails() {
    let mut store = MockDatabase::<Unit>::new();
    let result = store.delete(RecordId::new(999));

    assert!(matches!(result, Err(StoreError::NotFound(_))));
}

#[test]
fn test_get_nonexistent_record() {
    let store = MockDatabase::<Unit>::new();
    let result = store.get(RecordId::new(999)).unwrap();

    assert_eq!(result, None);
}

// --- Upsert Operations ---

#[test]
fn test_upsert_insert_path() {
    let mut store = MockDatabase::<Unit>::new();
    let unit = Unit { id: RecordId::new(1) };

    let inserted = store.upsert(&unit).unwrap();

    assert!(inserted); // Should return true for insert
    let retrieved = store.get(unit.id).unwrap();
    assert_eq!(retrieved, Some(unit));
}

#[test]
fn test_upsert_update_path() {
    let mut store = MockDatabase::<User>::new();
    let user = create_user(1, "alice@example.com", "Alice", 30);
    store.insert(&user).unwrap();

    let updated = create_user(1, "alice@example.com", "Alice Updated", 31);
    let inserted = store.upsert(&updated).unwrap();

    assert!(!inserted); // Should return false for update
    let retrieved = store.get(user.id).unwrap().unwrap();
    assert_eq!(retrieved.name, "Alice Updated");
}

// --- Batch Operations ---

#[test]
fn test_get_many() {
    let mut store = MockDatabase::<Unit>::new();
    let unit1 = Unit { id: RecordId::new(1) };
    let unit2 = Unit { id: RecordId::new(2) };
    let unit3 = Unit { id: RecordId::new(3) };

    store.insert(&unit1).unwrap();
    store.insert(&unit2).unwrap();
    // unit3 not inserted

    let ids = vec![unit1.id, unit2.id, unit3.id];
    let results = store.get_many(&ids).unwrap();

    assert_eq!(results.len(), 3);
    assert_eq!(results[0], Some(unit1));
    assert_eq!(results[1], Some(unit2));
    assert_eq!(results[2], None);
}

#[test]
fn test_get_many_empty() {
    let store = MockDatabase::<Unit>::new();
    let results = store.get_many(&Vec::new()).unwrap();

    assert_eq!(results.len(), 0);
}

#[test]
fn test_list_with_pagination() {
    let mut store = MockDatabase::<User>::new();
    for i in 1..=5u32 {
        let user = create_user(
            i as u128,
            &format!("user{}@example.com", i),
            &format!("User{}", i),
            20 + i,
        );
        store.insert(&user).unwrap();
    }

    let page1 = store.list(2, 0).unwrap();
    assert_eq!(page1.len(), 2);

    let page2 = store.list(2, 2).unwrap();
    assert_eq!(page2.len(), 2);

    let page3 = store.list(2, 4).unwrap();
    assert_eq!(page3.len(), 1);
}

#[test]
fn test_list_all() {
    let mut store = MockDatabase::<User>::new();
    for i in 1..=5u32 {
        let user = create_user(
            i as u128,
            &format!("user{}@example.com", i),
            &format!("User{}", i),
            20 + i,
        );
        store.insert(&user).unwrap();
    }

    let all = store.list_all().unwrap();
    assert_eq!(all.len(), 5);
}

#[test]
fn test_list_empty_store() {
    let store = MockDatabase::<Unit>::new();
    let results = store.list(10, 0).unwrap();

    assert_eq!(results.len(), 0);
}

// --- Index Queries ---

#[test]
fn test_find_by_unique_index() {
    let mut store = MockDatabase::<User>::new();
    let user = create_user(1, "alice@example.com", "Alice", 30);
    store.insert(&user).unwrap();

    let found = store
        .find_by_unique_index("email", &IndexValue::new_single("alice@example.com"))
        .unwrap();

    assert_eq!(found, Some(user));
}

#[test]
fn test_find_by_unique_index_not_found() {
    let store = MockDatabase::<User>::new();

    let found = store
        .find_by_unique_index("email", &IndexValue::new_single("nonexistent@example.com"))
        .unwrap();

    assert_eq!(found, None);
}

#[test]
fn test_find_by_index() {
    let mut store = MockDatabase::<User>::new();
    let user1 = create_user(1, "alice1@example.com", "Alice", 30);
    let user2 = create_user(2, "alice2@example.com", "Alice", 25);
    let user3 = create_user(3, "bob@example.com", "Bob", 35);

    store.insert(&user1).unwrap();
    store.insert(&user2).unwrap();
    store.insert(&user3).unwrap();

    let found = store
        .find_by_index("name", &IndexValue::new_single("Alice"))
        .unwrap();

    assert_eq!(found.len(), 2);
    assert!(found.contains(&user1));
    assert!(found.contains(&user2));
}

#[test]
fn test_find_by_index_empty() {
    let store = MockDatabase::<User>::new();

    let found = store
        .find_by_index("name", &IndexValue::new_single("NonExistent"))
        .unwrap();

    assert_eq!(found.len(), 0);
}

#[test]
fn test_find_one_by_index() {
    let mut store = MockDatabase::<User>::new();
    let user1 = create_user(1, "alice1@example.com", "Alice", 30);
    let user2 = create_user(2, "alice2@example.com", "Alice", 25);

    store.insert(&user1).unwrap();
    store.insert(&user2).unwrap();

    let found = store
        .find_one_by_index("name", &IndexValue::new_single("Alice"))
        .unwrap();

    assert!(found.is_some());
    let found_user = found.unwrap();
    assert!(found_user == user1 || found_user == user2);
}

#[test]
fn test_find_one_by_index_not_found() {
    let store = MockDatabase::<User>::new();

    let found = store
        .find_one_by_index("name", &IndexValue::new_single("NonExistent"))
        .unwrap();

    assert_eq!(found, None);
}

// --- Counting ---

#[test]
fn test_count() {
    let mut store = MockDatabase::<User>::new();
    for i in 1..=5u32 {
        let user = create_user(
            i as u128,
            &format!("user{}@example.com", i),
            &format!("User{}", i),
            20 + i,
        );
        store.insert(&user).unwrap();
    }

    let count = store.count().unwrap();
    assert_eq!(count, 5);
}

#[test]
fn test_count_empty() {
    let store = MockDatabase::<Unit>::new();
    let count = store.count().unwrap();

    assert_eq!(count, 0);
}

#[test]
fn test_count_by_index() {
    let mut store = MockDatabase::<User>::new();
    let user1 = create_user(1, "alice1@example.com", "Alice", 30);
    let user2 = create_user(2, "alice2@example.com", "Alice", 25);
    let user3 = create_user(3, "bob@example.com", "Bob", 35);

    store.insert(&user1).unwrap();
    store.insert(&user2).unwrap();
    store.insert(&user3).unwrap();

    let count = store
        .count_by_index("name", &IndexValue::new_single("Alice"))
        .unwrap();

    assert_eq!(count, 2);
}

#[test]
fn test_count_by_index_zero() {
    let store = MockDatabase::<User>::new();

    let count = store
        .count_by_index("name", &IndexValue::new_single("NonExistent"))
        .unwrap();

    assert_eq!(count, 0);
}

// --- Existence Checks ---

#[test]
fn test_exists_true() {
    let mut store = MockDatabase::<Unit>::new();
    let unit = Unit { id: RecordId::new(1) };
    store.insert(&unit).unwrap();

    let exists = store.exists_record(unit.id).unwrap();
    assert!(exists);
}

#[test]
fn test_exists_false() {
    let store = MockDatabase::<Unit>::new();
    let exists = store.exists_record(RecordId::new(999)).unwrap();

    assert!(!exists);
}

#[test]
fn test_exists_by_unique_index_true() {
    let mut store = MockDatabase::<User>::new();
    let user = create_user(1, "alice@example.com", "Alice", 30);
    store.insert(&user).unwrap();

    let exists = store
        .exists_by_unique_index("email", &IndexValue::new_single("alice@example.com"))
        .unwrap();

    assert!(exists);
}

#[test]
fn test_exists_by_unique_index_false() {
    let store = MockDatabase::<User>::new();

    let exists = store
        .exists_by_unique_index("email", &IndexValue::new_single("nonexistent@example.com"))
        .unwrap();

    assert!(!exists);
}

// --- Helper Methods ---

#[test]
fn test_get_or_error_success() {
    let mut store = MockDatabase::<Unit>::new();
    let unit = Unit { id: RecordId::new(1) };
    store.insert(&unit).unwrap();

    let retrieved = store.get_or_error(unit.id).unwrap();
    assert_eq!(retrieved, unit);
}

#[test]
fn test_get_or_error_not_found() {
    let store = MockDatabase::<Unit>::new();
    let result = store.get_or_error(RecordId::new(999));

    assert!(matches!(result, Err(StoreError::NotFound(_))));
}

#[test]
fn test_delete_and_return() {
    let mut store = MockDatabase::<User>::new();
    let user = create_user(1, "alice@example.com", "Alice", 30);
    store.insert(&user).unwrap();

    let deleted = store.delete_and_return(user.id).unwrap();
    assert_eq!(deleted, user);

    let exists = store.exists_record(user.id).unwrap();
    assert!(!exists);
}

#[test]
fn test_delete_and_return_not_found() {
    let mut store = MockDatabase::<Unit>::new();
    let result = store.delete_and_return(RecordId::new(999));

    assert!(matches!(result, Err(StoreError::NotFound(_))));
}

#[test]
fn test_find_by_unique_index_or_error_success() {
    let mut store = MockDatabase::<User>::new();
    let user = create_user(1, "alice@example.com", "Alice", 30);
    store.insert(&user).unwrap();

    let found = store
        .find_by_unique_index_or_error("email", &IndexValue::new_single("alice@example.com"))
        .unwrap();

    assert_eq!(found, user);
}

#[test]
fn test_find_by_unique_index_or_error_not_found() {
    let store = MockDatabase::<User>::new();

    let result = store
        .find_by_unique_index_or_error("email", &IndexValue::new_single("nonexistent@example.com"));

    assert!(matches!(result, Err(StoreError::NotFound(_))));
}

// --- Edge Cases & Complex Scenarios ---

#[test]
fn test_update_changes_index() {
    let mut store = MockDatabase::<User>::new();
    let user = create_user(1, "alice@example.com", "Alice", 30);
    store.insert(&user).unwrap();

    // Update changes the indexed field
    let updated = create_user(1, "alice@example.com", "Alicia", 30);
    store.update(&updated).unwrap();

    // Old index should not find it
    let found_old = store
        .find_by_index("name", &IndexValue::new_single("Alice"))
        .unwrap();
    assert_eq!(found_old.len(), 0);

    // New index should find it
    let found_new = store
        .find_by_index("name", &IndexValue::new_single("Alicia"))
        .unwrap();
    assert_eq!(found_new.len(), 1);
}

#[test]
fn test_delete_removes_from_indexes() {
    let mut store = MockDatabase::<User>::new();
    let user = create_user(1, "alice@example.com", "Alice", 30);
    store.insert(&user).unwrap();

    store.delete(user.id).unwrap();

    let found_by_email = store
        .find_by_unique_index("email", &IndexValue::new_single("alice@example.com"))
        .unwrap();
    assert_eq!(found_by_email, None);

    let found_by_name = store
        .find_by_index("name", &IndexValue::new_single("Alice"))
        .unwrap();
    assert_eq!(found_by_name.len(), 0);
}

// --- The Database facade over the same backend ---

#[test]
fn test_database_facade_crud() {
    let mut db = Database::<User>::new_mock();
    db.initialize_schema().unwrap();
    let user = create_user(7, "carol@example.com", "Carol", 41);
    db.insert(&user).unwrap();
    assert_eq!(db.count().unwrap(), 1);
    assert_eq!(db.get(user.id).unwrap(), Some(user.clone()));
    assert!(db.exists_record(user.id).unwrap());
    let updated = create_user(7, "carol@example.com", "Caroline", 42);
    assert!(!db.upsert(&updated).unwrap());
    assert_eq!(db.get_or_error(user.id).unwrap().name, "Caroline");
    let gone = db.delete_and_return(user.id).unwrap();
    assert_eq!(gone.name, "Caroline");
    assert_eq!(db.count().unwrap(), 0);
}

#[test]
fn test_database_facade_index_errors() {
    let db = Database::<User>::new_mock();
    let missing = db.find_by_unique_index("nickname", &IndexValue::new_single("x"));
    assert!(matches!(missing, Err(StoreError::IndexNotFound(_))));
    let non_unique = db.find_by_unique_index("name", &IndexValue::new_single("x"));
    assert!(matches!(non_unique, Err(StoreError::IndexNotUnique(_))));
    let by_missing = db.find_by_index("nickname", &IndexValue::new_single("x"));
    assert!(matches!(by_missing, Err(StoreError::IndexNotFound(_))));
}

#[test]
fn test_clear_resets_everything() {
    let mut store = MockDatabase::<User>::new();
    store.insert(&create_user(1, "a@example.com", "A", 1)).unwrap();
    store.insert(&create_user(2, "b@example.com", "B", 2)).unwrap();
    assert_eq!(store.len(), 2);
    assert!(!store.is_empty());
    store.clear();
    assert_eq!(store.len(), 0);
    assert!(store.is_empty());
    let found = store
        .find_by_unique_index("email", &IndexValue::new_single("a@example.com"))
        .unwrap();
    assert_eq!(found, None);
}
