use zam::csvtext::parse_table;
use zam::error::StoreError;
use zam::record::Alias;
use zam::store::Database;
use zam::timefmt::{format_rfc3339, parse_rfc3339};

fn memory_db() -> Database {
    Database::new(String::from(":memory:")).expect("an in-memory store always opens")
}

#[test]
fn timestamp_text_is_rfc3339_and_reads_back() {
    assert_eq!(format_rfc3339(0), "1970-01-01T00:00:00+00:00");
    assert_eq!(format_rfc3339(1_705_314_600), "2024-01-15T10:30:00+00:00");
    assert_eq!(parse_rfc3339("2024-01-15T10:30:00+00:00"), Some(1_705_314_600));
    assert_eq!(parse_rfc3339("2024-01-15T10:30:00Z"), Some(1_705_314_600));
    assert_eq!(parse_rfc3339("1970-01-01T01:00:00+01:00"), Some(0));
    assert_eq!(parse_rfc3339("not a timestamp"), None);
}

#[test]
fn export_writes_header_and_one_line_per_alias() {
    let mut db = memory_db();
    let a = Alias::with_time(
        String::from("ll"),
        String::from("ls -la"),
        String::from("List files"),
        1_705_314_600,
    );
    db.add_alias(&a).unwrap();
    let text = db.export_aliases_to_csv_buffer().unwrap();
    assert_eq!(
        text,
        "alias,command,description,date_updated\nll,ls -la,List files,2024-01-15T10:30:00+00:00\n"
    );
    assert_eq!(text.lines().count(), 2);
}

#[test]
fn import_of_an_export_reproduces_the_listing() {
    let mut db = memory_db();
    let a = Alias::with_time(
        String::from("ll"),
        String::from("ls -la"),
        String::from("List files"),
        1_705_314_600,
    );
    db.add_alias(&a).unwrap();
    let text = db.export_aliases_to_csv_buffer().unwrap();

    let mut fresh = memory_db();
    fresh.import_aliases_from_csv_text(&text).unwrap();
    let old_list = db.list_aliases().unwrap();
    let new_list = fresh.list_aliases().unwrap();
    assert_eq!(old_list.len(), new_list.len());
    assert_eq!(old_list[0].alias, new_list[0].alias);
    assert_eq!(old_list[0].command, new_list[0].command);
    assert_eq!(old_list[0].description, new_list[0].description);
    assert_eq!(old_list[0].date_updated, new_list[0].date_updated);
}

#[test]
fn round_trip_keeps_fields_that_need_quoting() {
    let mut db = memory_db();
    let a = Alias::with_time(
        String::from("tricky"),
        String::from("echo \"a,b\""),
        String::from("line one\nline two"),
        42,
    );
    db.add_alias(&a).unwrap();
    let text = db.export_aliases_to_csv_buffer().unwrap();
    let mut fresh = memory_db();
    fresh.import_aliases_from_csv_text(&text).unwrap();
    let list = fresh.list_aliases().unwrap();
    assert_eq!(list.len(), 1);
    assert_eq!(list[0].command, "echo \"a,b\"");
    assert_eq!(list[0].description, "line one\nline two");
    assert_eq!(list[0].date_updated, 42);
}

#[test]
fn import_restores_the_creation_timestamp_from_a_full_table() {
    let mut db = memory_db();
    let text = "alias,command,description,date_created,date_updated\n\
                gs,git status,short,2024-01-15T10:00:00+00:00,2024-01-15T10:30:00+00:00\n";
    db.import_aliases_from_csv_text(text).unwrap();
    let list = db.list_aliases().unwrap();
    assert_eq!(list.len(), 1);
    assert_eq!(list[0].alias, "gs");
    assert_eq!(list[0].date_updated, 1_705_314_600);
}

#[test]
fn import_accepts_columns_in_any_order() {
    let mut db = memory_db();
    let text = "date_updated,alias,description,command\n\
                2024-01-15T10:30:00+00:00,gs,short,git status\n";
    db.import_aliases_from_csv_text(text).unwrap();
    let list = db.list_aliases().unwrap();
    assert_eq!(list.len(), 1);
    assert_eq!(list[0].alias, "gs");
    assert_eq!(list[0].command, "git status");
    assert_eq!(list[0].description, "short");
}

#[test]
fn import_refuses_a_bad_timestamp_as_malformed() {
    let mut db = memory_db();
    let text = "alias,command,description,date_updated\ngs,git status,short,yesterday\n";
    assert_eq!(
        db.import_aliases_from_csv_text(text),
        Err(StoreError::MalformedInput)
    );
    assert_eq!(db.list_aliases().unwrap().len(), 0);
}

#[test]
fn import_refuses_a_header_without_the_record_fields() {
    let mut db = memory_db();
    let text = "alias,cmd\ngs,git status\n";
    assert_eq!(
        db.import_aliases_from_csv_text(text),
        Err(StoreError::MalformedInput)
    );
}

#[test]
fn import_of_a_duplicate_key_stops_but_keeps_earlier_rows() {
    let mut db = memory_db();
    let text = "alias,command,description,date_updated\n\
                a,one,,1970-01-01T00:00:10+00:00\n\
                a,two,,1970-01-01T00:00:20+00:00\n";
    assert_eq!(
        db.import_aliases_from_csv_text(text),
        Err(StoreError::DuplicateKey)
    );
    let list = db.list_aliases().unwrap();
    assert_eq!(list.len(), 1);
    assert_eq!(list[0].command, "one");
}

#[test]
fn csv_text_parses_with_quotes_and_crlf() {
    let parsed = parse_table("a,\"b,c\",\"say \"\"hi\"\"\"\r\nd,e,f\n").unwrap();
    assert_eq!(parsed.len(), 2);
    assert_eq!(parsed[0], vec!["a", "b,c", "say \"hi\""]);
    assert_eq!(parsed[1], vec!["d", "e", "f"]);
    assert!(parse_table("\"unterminated\n").is_none());
}
