use modelstore::database::Database;
use modelstore::error::StoreError;
use modelstore::index_value::IndexValue;
use modelstore::memory::MockDatabase;
use modelstore::model::{IndexDefinition, IndexRegistry, Model};
use modelstore::models::{Unit, User};
use modelstore::record_id::RecordId;
use modelstore::relational;
use modelstore::store::DatabaseLike;
use modelstore::text::to_pascal_case;

fn user(id: u128, email: &str, name: &str, age: u32) -> User {
    User {
        id: RecordId::new(id),
        email: email.to_string(),
        name: name.to_string(),
        age,
    }
}

// Scenario: five users, two named Alice and three named Bob, with distinct
// emails; a sixth user reusing an email must be rejected without changing
// the count.
#[test]
fn test_unique_and_non_unique_indices_scenario() {
    let mut db = Database::<User>::new_mock();
    db.insert(&user(1, "a1@example.com", "Alice", 21)).unwrap();
    db.insert(&user(2, "a2@example.com", "Alice", 22)).unwrap();
    db.insert(&user(3, "b1@example.com", "Bob", 23)).unwrap();
    db.insert(&user(4, "b2@example.com", "Bob", 24)).unwrap();
    db.insert(&user(5, "b3@example.com", "Bob", 25)).unwrap();

    assert_eq!(db.count().unwrap(), 5);
    let alices = db
        .find_by_index("name", &IndexValue::new_single("Alice"))
        .unwrap();
    assert_eq!(alices.len(), 2);
    let bobs = db
        .find_by_index("name", &IndexValue::new_single("Bob"))
        .unwrap();
    assert_eq!(bobs.len(), 3);

    let sixth = user(6, "b3@example.com", "Eve", 26);
    let result = db.insert(&sixth);
    assert!(matches!(
        result,
        Err(StoreError::UniqueViolation { .. })
    ));
    assert_eq!(db.count().unwrap(), 5);
    if let Err(StoreError::UniqueViolation { index, value }) = result {
        assert_eq!(index, "email");
        assert_eq!(value, "b3@example.com");
    }
}

// Scenario: rename Alice to Alicia; the old name lookup empties, the new one
// holds exactly the updated record.
#[test]
fn test_rename_moves_record_between_lookups() {
    let mut db = Database::<User>::new_mock();
    let a = user(1, "alice@example.com", "Alice", 30);
    db.insert(&a).unwrap();
    let renamed = user(1, "alice@example.com", "Alicia", 30);
    db.update(&renamed).unwrap();

    let old_name = db
        .find_by_index("name", &IndexValue::new_single("Alice"))
        .unwrap();
    assert!(old_name.is_empty());
    let new_name = db
        .find_by_index("name", &IndexValue::new_single("Alicia"))
        .unwrap();
    assert_eq!(new_name, vec![renamed]);
}

// Scenario: delete a user; both the identifier lookup and the unique-index
// lookup stop seeing it.
#[test]
fn test_delete_clears_all_lookups() {
    let mut db = Database::<User>::new_mock();
    let a = user(1, "alice@example.com", "Alice", 30);
    db.insert(&a).unwrap();
    db.delete(a.id).unwrap();

    assert_eq!(db.get(a.id).unwrap(), None);
    let by_email = db
        .find_by_unique_index("email", &IndexValue::new_single("alice@example.com"))
        .unwrap();
    assert_eq!(by_email, None);
}

// A failed duplicate insert leaves the original record byte-for-byte intact.
#[test]
fn test_duplicate_insert_changes_nothing() {
    let mut db = Database::<User>::new_mock();
    let original = user(1, "alice@example.com", "Alice", 30);
    db.insert(&original).unwrap();
    let imposter = user(1, "other@example.com", "Other", 99);
    assert!(db.insert(&imposter).is_err());
    assert_eq!(db.count().unwrap(), 1);
    assert_eq!(db.get(original.id).unwrap(), Some(original));
}

// A failed unique-violation insert leaves no orphan index rows behind.
#[test]
fn test_conflicting_insert_leaves_no_orphans() {
    let mut db = Database::<User>::new_mock();
    db.insert(&user(1, "alice@example.com", "Alice", 30)).unwrap();
    let clash = user(2, "alice@example.com", "Imposter", 20);
    assert!(db.insert(&clash).is_err());
    assert_eq!(db.count().unwrap(), 1);
    let by_name = db
        .find_by_index("name", &IndexValue::new_single("Imposter"))
        .unwrap();
    assert!(by_name.is_empty());
    assert_eq!(db.get(clash.id).unwrap(), None);
}

// Concatenating successive pages covers every record exactly once.
#[test]
fn test_paging_covers_every_record_once() {
    let mut db = Database::<User>::new_mock();
    for i in 1..=7u32 {
        db.insert(&user(
            i as u128,
            &format!("u{}@example.com", i),
            &format!("U{}", i),
            i,
        ))
        .unwrap();
    }
    let mut seen: Vec<User> = Vec::new();
    let mut offset = 0u32;
    loop {
        let page = db.list(3, offset).unwrap();
        if page.is_empty() {
            break;
        }
        offset += page.len() as u32;
        seen.extend(page);
    }
    assert_eq!(seen.len(), 7);
    for i in 1..=7u32 {
        let wanted = RecordId::new(i as u128);
        assert_eq!(seen.iter().filter(|u| u.id == wanted).count(), 1);
    }
}

// count_by_index always equals the length of find_by_index.
#[test]
fn test_count_agrees_with_find() {
    let mut db = Database::<User>::new_mock();
    db.insert(&user(1, "a@example.com", "Alice", 1)).unwrap();
    db.insert(&user(2, "b@example.com", "Alice", 2)).unwrap();
    db.insert(&user(3, "c@example.com", "Bob", 3)).unwrap();
    for name in ["Alice", "Bob", "Nobody"] {
        let key = IndexValue::new_single(name);
        let found = db.find_by_index("name", &key).unwrap();
        let counted = db.count_by_index("name", &key).unwrap();
        assert_eq!(counted, found.len() as u64);
    }
}

// get_many preserves input order and reports None positionally.
#[test]
fn test_get_many_positional() {
    let mut db = Database::<Unit>::new_mock();
    db.insert(&Unit { id: RecordId::new(5) }).unwrap();
    db.insert(&Unit { id: RecordId::new(9) }).unwrap();
    let ids = vec![
        RecordId::new(9),
        RecordId::new(404),
        RecordId::new(5),
    ];
    let got = db.get_many(&ids).unwrap();
    assert_eq!(got.len(), 3);
    assert_eq!(got[0], Some(Unit { id: RecordId::new(9) }));
    assert_eq!(got[1], None);
    assert_eq!(got[2], Some(Unit { id: RecordId::new(5) }));
}

// --- Error texts and identifiers ---

#[test]
fn test_record_id_text() {
    assert_eq!(RecordId::new(0).to_text(), "0");
    assert_eq!(RecordId::new(42).to_text(), "42");
    assert_eq!(RecordId::new(340282366920938463463374607431768211455).to_text(),
        "340282366920938463463374607431768211455");
}

#[test]
fn test_not_found_error_carries_id() {
    let store = MockDatabase::<Unit>::new();
    match store.get_or_error(RecordId::new(321)) {
        Err(StoreError::NotFound(msg)) => assert_eq!(msg, "321"),
        _ => panic!("expected a not-found error"),
    }
}

#[test]
fn test_duplicate_insert_error_message() {
    let mut store = MockDatabase::<Unit>::new();
    store.insert(&Unit { id: RecordId::new(12) }).unwrap();
    match store.insert(&Unit { id: RecordId::new(12) }) {
        Err(e) => {
            assert!(!e.is_not_found());
            assert!(!e.is_unique_violation());
            match e {
                StoreError::Database(msg) => {
                    assert_eq!(msg, "Record with id 12 already exists");
                }
                _ => panic!("expected a backend error"),
            }
        }
        Ok(()) => panic!("expected the duplicate insert to fail"),
    }
}

#[test]
fn test_key_not_found_error_message() {
    let store = MockDatabase::<User>::new();
    match store.find_by_unique_index_or_error("email", &IndexValue::new_single("x@example.com")) {
        Err(StoreError::NotFound(msg)) => assert_eq!(msg, "email=x@example.com"),
        _ => panic!("expected a not-found error"),
    }
}

// --- Index values and the registry ---

#[test]
fn test_index_value_encoding() {
    let single = IndexValue::new_single("plain");
    assert_eq!(single.encode(), "plain");

    let composite = IndexValue::new(vec!["alice".to_string(), "30".to_string()]);
    assert_eq!(composite.encode(), "alice:30");

    // the delimiter is sanitized away, keeping the encoding unambiguous
    let tricky = IndexValue::new(vec!["a:b".to_string(), "c".to_string()]);
    assert_eq!(tricky.encode(), "a-b:c");
    assert_eq!(
        IndexValue::new(vec!["a".to_string(), "b:c".to_string()]).encode(),
        "a:b-c"
    );

    assert!(IndexValue::new_single("x") == IndexValue::new_single("x"));
    assert!(IndexValue::new_single("x") != IndexValue::new_single("y"));
    assert!(composite != IndexValue::new(vec!["alice:30".to_string()]));
}

#[test]
fn test_index_registry_lookup() {
    let registry = User::indices();
    let email = registry.get("email").unwrap();
    assert!(email.unique);
    assert_eq!(email.name, "email");
    assert_eq!(email.ordinal, 0);
    let name = registry.get("name").unwrap();
    assert!(!name.unique);
    assert!(registry.get("age").is_none());

    let uniques = registry.unique_indices();
    assert_eq!(uniques.len(), 1);
    assert_eq!(uniques[0].name, "email");
    let non_uniques = registry.non_unique_indices();
    assert_eq!(non_uniques.len(), 1);
    assert_eq!(non_uniques[0].name, "name");
}

#[test]
fn test_index_definition_extract() {
    let registry = User::indices();
    let u = user(1, "alice@example.com", "Alice", 30);
    let email_def = registry.get("email").unwrap();
    assert_eq!(email_def.extract(&u).encode(), "alice@example.com");
    let name_def = registry.get("name").unwrap();
    assert_eq!(name_def.extract(&u).encode(), "Alice");
}

#[test]
fn test_registry_construction() {
    let defs = vec![
        IndexDefinition::new("sku".to_string(), true, 0),
        IndexDefinition::new("color".to_string(), false, 1),
    ];
    let registry = IndexRegistry::new(defs);
    assert_eq!(registry.definitions.len(), 2);
    assert!(registry.get("sku").unwrap().unique);
}

// --- Text helpers ---

#[test]
fn test_to_pascal_case() {
    assert_eq!(to_pascal_case("name_age"), "NameAge");
    assert_eq!(to_pascal_case("email"), "Email");
    assert_eq!(to_pascal_case("a__b"), "AB");
    assert_eq!(to_pascal_case("_x"), "X");
    assert_eq!(to_pascal_case(""), "");
}

// --- The relational planning layer ---

#[test]
fn test_schema_plan_texts() {
    let plan = relational::initialize_schema_plan::<User>();
    let texts: Vec<&str> = plan.iter().map(|s| s.text.as_str()).collect();
    assert_eq!(
        texts,
        vec![
            "CREATE TABLE IF NOT EXISTS users (id TEXT PRIMARY KEY, data JSONB NOT NULL, created_at TIMESTAMPTZ NOT NULL DEFAULT NOW(), updated_at TIMESTAMPTZ NOT NULL DEFAULT NOW())",
            "CREATE INDEX IF NOT EXISTS idx_users_updated_at ON users(updated_at)",
            "CREATE TABLE IF NOT EXISTS users__idx_email (index_key TEXT NOT NULL, record_id TEXT NOT NULL REFERENCES users(id) ON DELETE CASCADE, UNIQUE (index_key))",
            "CREATE INDEX IF NOT EXISTS idx_users__idx_email_key ON users__idx_email(index_key)",
            "CREATE TABLE IF NOT EXISTS users__idx_name (index_key TEXT NOT NULL, record_id TEXT NOT NULL REFERENCES users(id) ON DELETE CASCADE)",
            "CREATE INDEX IF NOT EXISTS idx_users__idx_name_key ON users__idx_name(index_key)",
            "CREATE INDEX IF NOT EXISTS idx_users__idx_name_record ON users__idx_name(record_id)",
        ]
    );
    assert!(plan.iter().all(|s| s.params.is_empty()));
}

#[test]
fn test_insert_plan_statements() {
    let u = user(11, "alice@example.com", "Alice", 30);
    let plan = relational::insert_plan(&u, "{\"age\":30}");
    assert_eq!(plan.len(), 3);
    assert_eq!(plan[0].text, "INSERT INTO users (id, data) VALUES ($1, $2)");
    assert_eq!(plan[0].params, vec!["11", "{\"age\":30}"]);
    assert_eq!(
        plan[1].text,
        "INSERT INTO users__idx_email (index_key, record_id) VALUES ($1, $2)"
    );
    assert_eq!(plan[1].params, vec!["alice@example.com", "11"]);
    assert_eq!(
        plan[2].text,
        "INSERT INTO users__idx_name (index_key, record_id) VALUES ($1, $2)"
    );
    assert_eq!(plan[2].params, vec!["Alice", "11"]);
}

#[test]
fn test_update_plan_statements() {
    let u = user(11, "alice@example.com", "Alice", 31);
    let plan = relational::update_plan(&u, "{}");
    assert_eq!(plan.len(), 5);
    assert_eq!(
        plan[0].text,
        "UPDATE users SET data = $1, updated_at = NOW() WHERE id = $2"
    );
    assert_eq!(plan[0].params, vec!["{}", "11"]);
    assert_eq!(plan[1].text, "DELETE FROM users__idx_email WHERE record_id = $1");
    assert_eq!(plan[2].text, "DELETE FROM users__idx_name WHERE record_id = $1");
    assert_eq!(
        plan[3].text,
        "INSERT INTO users__idx_email (index_key, record_id) VALUES ($1, $2)"
    );
    assert_eq!(
        plan[4].text,
        "INSERT INTO users__idx_name (index_key, record_id) VALUES ($1, $2)"
    );
}

#[test]
fn test_query_statements() {
    let id = RecordId::new(8);
    let del = relational::delete_statement::<User>(id);
    assert_eq!(del.text, "DELETE FROM users WHERE id = $1");
    assert_eq!(del.params, vec!["8"]);

    let get = relational::get_statement::<User>(id);
    assert_eq!(get.text, "SELECT data FROM users WHERE id = $1");

    let find = relational::find_by_unique_index_statement::<User>(
        "email",
        &IndexValue::new_single("alice@example.com"),
    )
    .unwrap();
    assert_eq!(
        find.text,
        "SELECT m.data FROM users m INNER JOIN users__idx_email i ON m.id = i.record_id WHERE i.index_key = $1"
    );
    assert_eq!(find.params, vec!["alice@example.com"]);

    let by_name =
        relational::find_by_index_statement::<User>("name", &IndexValue::new_single("Alice"))
            .unwrap();
    assert_eq!(
        by_name.text,
        "SELECT m.data FROM users m INNER JOIN users__idx_name i ON m.id = i.record_id WHERE i.index_key = $1 ORDER BY m.updated_at DESC"
    );

    let list = relational::list_statement::<User>(10, 20);
    assert_eq!(
        list.text,
        "SELECT data FROM users ORDER BY updated_at DESC LIMIT $1 OFFSET $2"
    );
    assert_eq!(list.params, vec!["10", "20"]);

    let count = relational::count_statement::<User>();
    assert_eq!(count.text, "SELECT COUNT(*) as count FROM users");

    assert!(matches!(
        relational::find_by_unique_index_statement::<User>(
            "name",
            &IndexValue::new_single("Alice")
        ),
        Err(StoreError::IndexNotUnique(_))
    ));
    assert!(matches!(
        relational::find_by_index_statement::<User>("age", &IndexValue::new_single("30")),
        Err(StoreError::IndexNotFound(_))
    ));
}

#[test]
fn test_outcome_interpretation() {
    assert!(relational::interpret_write_outcome(1, RecordId::new(4)).is_ok());
    match relational::interpret_write_outcome(0, RecordId::new(4)) {
        Err(StoreError::NotFound(msg)) => assert_eq!(msg, "4"),
        _ => panic!("expected a not-found error"),
    }

    assert!(relational::is_unique_violation("23505"));
    assert!(!relational::is_unique_violation("40001"));

    let u = user(2, "bob@example.com", "Bob", 50);
    let e = relational::translate_index_insert_failure(&u, 0, "23505", "boom".to_string());
    match e {
        StoreError::UniqueViolation { index, value } => {
            assert_eq!(index, "email");
            assert_eq!(value, "bob@example.com");
        }
        _ => panic!("expected a unique violation"),
    }
    let e2 = relational::translate_index_insert_failure(&u, 0, "40001", "boom".to_string());
    match e2 {
        StoreError::Database(msg) => assert_eq!(msg, "boom"),
        _ => panic!("expected a backend error"),
    }
}

#[test]
fn test_calculate_index_table_name() {
    assert_eq!(
        relational::calculate_index_table_name("users", "email"),
        "users__idx_email"
    );
}

#[test]
fn test_table_names() {
    assert_eq!(User::table_name(), "users");
    assert_eq!(Unit::table_name(), "unit");
}
