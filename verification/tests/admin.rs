//! The administrative registry: database records, the case-folded by-name
//! view, and case-insensitive name uniqueness.

use docstore::admin::{
    admin_schematic, ascii_lowercase, by_name_view, databases_collection, decode_database_record,
    encode_database_record, AdminSchema,
};
use docstore::database::{AccessPolicy, Database, QueryKey};
use docstore::error::Error;
use docstore::transaction::Transaction;

fn open_registry() -> Database<AdminSchema> {
    Database::new("admin".to_string(), admin_schematic(), AdminSchema {}, None).unwrap()
}

fn register(db: &mut Database<AdminSchema>, name: &[u8], schema: &[u8]) -> Result<(), Error> {
    let mut txn = Transaction::new();
    txn.insert(
        databases_collection(),
        encode_database_record(&name.to_vec(), &schema.to_vec()),
    );
    db.apply_transaction(&txn).map(|_| ())
}

#[test]
fn ascii_lowercase_folds_letters_only() {
    assert_eq!(ascii_lowercase(&b"MyDB-1.Backup".to_vec()), b"mydb-1.backup".to_vec());
    assert_eq!(ascii_lowercase(&b"already".to_vec()), b"already".to_vec());
}

#[test]
fn database_record_round_trip() {
    let bytes = encode_database_record(&b"default".to_vec(), &b"basic".to_vec());
    let (name, schema) = decode_database_record(&bytes).unwrap();
    assert_eq!(name, b"default".to_vec());
    assert_eq!(schema, b"basic".to_vec());
    assert!(decode_database_record(&b"short".to_vec()).is_none());
}

#[test]
fn database_names_are_case_insensitively_unique() {
    let mut db = open_registry();
    register(&mut db, b"Tasks", b"basic").unwrap();
    let err = register(&mut db, b"tasks", b"basic").unwrap_err();
    assert!(matches!(err, Error::UniqueKeyViolation(_, _)));
    // A genuinely different name registers.
    register(&mut db, b"other", b"basic").unwrap();
    let rows = db
        .query(
            &by_name_view(),
            &Some(QueryKey::Matches(b"tasks".to_vec())),
            AccessPolicy::NoUpdate,
        )
        .unwrap();
    assert_eq!(rows.len(), 1);
    assert_eq!(rows[0].value, b"basic".to_vec());
}
