use zam::error::StoreError;
use zam::record::Alias;
use zam::store::Database;

fn memory_db() -> Database {
    Database::new(String::from(":memory:")).expect("an in-memory store always opens")
}

#[test]
fn add_then_list_shows_the_record() {
    let mut db = memory_db();
    let a = Alias::with_time(
        String::from("ll"),
        String::from("ls -la"),
        String::from("List files"),
        1_705_314_600,
    );
    db.add_alias(&a).unwrap();
    let list = db.list_aliases().unwrap();
    assert_eq!(list.len(), 1);
    assert_eq!(list[0].alias, "ll");
    assert_eq!(list[0].command, "ls -la");
    assert_eq!(list[0].description, "List files");
    assert_eq!(list[0].date_updated, 1_705_314_600);
}

#[test]
fn add_twice_gives_duplicate_key_and_one_row() {
    let mut db = memory_db();
    let a = Alias::with_time(
        String::from("gs"),
        String::from("git status"),
        String::new(),
        1_000_000,
    );
    db.add_alias(&a).unwrap();
    let again = Alias::with_time(
        String::from("gs"),
        String::from("git status"),
        String::new(),
        2_000_000,
    );
    assert_eq!(db.add_alias(&again), Err(StoreError::DuplicateKey));
    let list = db.list_aliases().unwrap();
    assert_eq!(list.len(), 1);
    assert_eq!(list[0].date_updated, 1_000_000);
}

#[test]
fn remove_is_idempotent() {
    let mut db = memory_db();
    let a = Alias::with_time(String::from("x"), String::from("y"), String::new(), 7);
    db.add_alias(&a).unwrap();
    assert_eq!(db.remove_alias("x"), Ok(()));
    assert_eq!(db.remove_alias("x"), Ok(()));
    assert_eq!(db.list_aliases().unwrap().len(), 0);
}

#[test]
fn update_changes_command_and_timestamp_only() {
    let mut db = memory_db();
    let a = Alias::with_time(
        String::from("gs"),
        String::from("git status"),
        String::new(),
        1_000,
    );
    db.add_alias(&a).unwrap();
    let mut changed = Alias::with_time(
        String::from("gs"),
        String::from("git status"),
        String::new(),
        1_000,
    );
    changed.update_at(String::from("git status -sb"), 2_000);
    assert_eq!(changed.date_created, 1_000);
    assert_eq!(changed.date_updated, 2_000);
    assert_eq!(changed.description, "");
    db.update_alias(&changed).unwrap();
    let list = db.list_aliases().unwrap();
    assert_eq!(list.len(), 1);
    assert_eq!(list[0].command, "git status -sb");
    assert_eq!(list[0].description, "");
    assert_eq!(list[0].date_updated, 2_000);
}

#[test]
fn update_of_missing_key_succeeds_silently() {
    let mut db = memory_db();
    let a = Alias::with_time(String::from("no"), String::from("c"), String::new(), 5);
    assert_eq!(db.update_alias(&a), Ok(()));
    assert_eq!(db.list_aliases().unwrap().len(), 0);
}

#[test]
fn listing_is_sorted_by_alias_for_any_insertion_order() {
    let mut db = memory_db();
    for name in ["zeta", "alpha", "mike"] {
        let a = Alias::with_time(String::from(name), String::from("c"), String::new(), 1);
        db.add_alias(&a).unwrap();
    }
    let list = db.list_aliases().unwrap();
    let names: Vec<&str> = list.iter().map(|d| d.alias.as_str()).collect();
    assert_eq!(names, vec!["alpha", "mike", "zeta"]);
}

#[test]
fn open_fails_with_storage_unavailable_on_a_bad_path() {
    let r = Database::new(String::from("missing_directory_for_zam/deeper/zam.db"));
    assert!(matches!(r, Err(StoreError::StorageUnavailable)));
}

#[test]
fn record_construction_sets_both_timestamps_to_one_instant() {
    let a = Alias::new(String::from("n"), String::from("c"), String::from("d"));
    assert_eq!(a.date_created, a.date_updated);
    let mut b = Alias::new(String::from("n"), String::from("c"), String::from("d"));
    b.update(String::from("c2"));
    assert_eq!(b.command, "c2");
    assert!(b.date_updated >= b.date_created);
}

#[test]
fn error_messages_name_each_failure() {
    assert_eq!(
        StoreError::DuplicateKey.message(),
        "an alias with this name already exists"
    );
    assert_eq!(
        StoreError::StorageUnavailable.message(),
        "the backing store cannot be reached"
    );
    assert_eq!(
        StoreError::MalformedInput.message(),
        "the imported text is not a well-formed record table"
    );
}

#[test]
fn string_order_is_lexicographic() {
    assert!(zam::order::str_le("alpha", "mike"));
    assert!(!zam::order::str_le("zeta", "mike"));
    assert!(zam::order::str_le("same", "same"));
    assert!(zam::order::str_le("ab", "abc"));
    assert!(!zam::order::str_le("abc", "ab"));
}
