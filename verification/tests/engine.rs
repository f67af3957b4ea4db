//! End-to-end scenarios against the database engine: inserts, updates,
//! deletes, unique views, range queries, reductions, background updates,
//! and pub/sub delivery.

use docstore::codec::{id_key, read_u64};
use docstore::database::{AccessPolicy, Database, QueryKey};
use docstore::document::Document;
use docstore::error::Error;
use docstore::schema::{
    CollectionDescriptor, CollectionName, EmittedMapping, Schema, Schematic, ViewDescriptor,
    ViewName,
};
use docstore::transaction::{Command, Operation, OperationResult, Transaction};
use docstore::vault::Permissions;

#[derive(Debug)]
struct TestSchema;

impl Schema for TestSchema {
    fn map(&self, _view: &ViewName, document: &Document) -> Result<Vec<EmittedMapping>, Error> {
        if document.contents.is_empty() {
            Ok(Vec::new())
        } else {
            Ok(vec![EmittedMapping {
                key: document.contents.clone(),
                value: document.contents.clone(),
            }])
        }
    }

    fn reduce(
        &self,
        _view: &ViewName,
        values: &Vec<(Vec<u8>, Vec<u8>)>,
        rereduce: bool,
    ) -> Result<Vec<u8>, Error> {
        if rereduce {
            let mut total: u64 = 0;
            for (_, value) in values.iter() {
                total += read_u64(value, 0);
            }
            Ok(id_key(total))
        } else {
            Ok(id_key(values.len() as u64))
        }
    }
}

fn collection() -> CollectionName {
    CollectionName::new("tests", "c")
}

fn unique_view() -> ViewName {
    ViewName::new("tests", "by-name")
}

fn lazy_view() -> ViewName {
    ViewName::new("tests", "all")
}

fn schematic() -> Schematic {
    Schematic {
        collections: vec![CollectionDescriptor { name: collection(), encryption_key: None }],
        views: vec![
            ViewDescriptor {
                name: unique_view(),
                collection: collection(),
                unique: true,
                version: 1,
                has_reduce: true,
                keys_are_encryptable: false,
            },
            ViewDescriptor {
                name: lazy_view(),
                collection: collection(),
                unique: false,
                version: 1,
                has_reduce: false,
                keys_are_encryptable: false,
            },
        ],
    }
}

fn open_db() -> Database<TestSchema> {
    Database::new("db".to_string(), schematic(), TestSchema, None).unwrap()
}

fn insert(db: &mut Database<TestSchema>, contents: &[u8]) -> docstore::document::Header {
    let mut txn = Transaction::new();
    txn.insert(collection(), contents.to_vec());
    let results = db.apply_transaction(&txn).unwrap();
    assert_eq!(results.len(), 1);
    match &results[0] {
        OperationResult::DocumentUpdated { header, .. } => header.clone(),
        other => panic!("unexpected result: {:?}", other),
    }
}

#[test]
fn insert_then_get_by_first_id() {
    let mut db = open_db();
    let header = insert(&mut db, b"{\"name\":\"a\"}");
    assert_eq!(header.id, 1);
    assert_eq!(header.revision.generation, 1);
    let doc = db.get(&collection(), 1).unwrap().expect("document must exist");
    assert_eq!(doc.header.id, 1);
    assert_eq!(doc.header.revision.generation, 1);
    assert_eq!(doc.contents, b"{\"name\":\"a\"}".to_vec());
}

#[test]
fn update_with_identical_contents_keeps_revision() {
    let mut db = open_db();
    let header = insert(&mut db, b"{\"name\":\"a\"}");
    let mut txn = Transaction::new();
    txn.update(collection(), header.clone(), b"{\"name\":\"a\"}".to_vec());
    let results = db.apply_transaction(&txn).unwrap();
    match &results[0] {
        OperationResult::DocumentUpdated { header: updated, .. } => {
            assert_eq!(updated.revision.generation, header.revision.generation);
            assert_eq!(updated.revision.sha256, header.revision.sha256);
        }
        other => panic!("unexpected result: {:?}", other),
    }
}

#[test]
fn update_with_new_contents_advances_generation() {
    let mut db = open_db();
    let header = insert(&mut db, b"one");
    let mut txn = Transaction::new();
    txn.update(collection(), header.clone(), b"two".to_vec());
    let results = db.apply_transaction(&txn).unwrap();
    match &results[0] {
        OperationResult::DocumentUpdated { header: updated, .. } => {
            assert_eq!(updated.revision.generation, 2);
            assert_ne!(updated.revision.sha256, header.revision.sha256);
        }
        other => panic!("unexpected result: {:?}", other),
    }
    let doc = db.get(&collection(), 1).unwrap().unwrap();
    assert_eq!(doc.contents, b"two".to_vec());
}

#[test]
fn unique_view_distinct_keys_query_matches() {
    let mut db = open_db();
    let h1 = insert(&mut db, b"x");
    let _h2 = insert(&mut db, b"y");
    let rows = db
        .query(
            &unique_view(),
            &Some(QueryKey::Matches(b"x".to_vec())),
            AccessPolicy::NoUpdate,
        )
        .unwrap();
    assert_eq!(rows.len(), 1);
    assert_eq!(rows[0].source, h1.id);
    assert_eq!(rows[0].key, b"x".to_vec());
    assert_eq!(rows[0].value, b"x".to_vec());
}

#[test]
fn unique_key_violation_aborts_whole_transaction() {
    let mut db = open_db();
    let mut txn = Transaction::new();
    txn.insert(collection(), b"z".to_vec());
    txn.insert(collection(), b"z".to_vec());
    let before = db.last_transaction_id();
    let err = db.apply_transaction(&txn).unwrap_err();
    assert!(matches!(err, Error::UniqueKeyViolation(_, _)));
    // Neither document exists and the log is unchanged.
    assert!(db.get(&collection(), 1).unwrap().is_none());
    assert!(db.get(&collection(), 2).unwrap().is_none());
    assert_eq!(db.last_transaction_id(), before);
}

#[test]
fn range_query_after_delete_returns_remaining_keys() {
    let mut db = open_db();
    let _h1 = insert(&mut db, &id_key(1));
    let h2 = insert(&mut db, &id_key(2));
    let _h3 = insert(&mut db, &id_key(3));
    let mut txn = Transaction::new();
    txn.delete(collection(), h2);
    db.apply_transaction(&txn).unwrap();
    let rows = db
        .query(
            &unique_view(),
            &Some(QueryKey::Range(id_key(1), id_key(4))),
            AccessPolicy::NoUpdate,
        )
        .unwrap();
    assert_eq!(rows.len(), 2);
    assert_eq!(rows[0].key, id_key(1));
    assert_eq!(rows[1].key, id_key(3));
}

#[test]
fn range_scan_is_sorted_regardless_of_insert_order() {
    let mut db = open_db();
    insert(&mut db, &id_key(3));
    insert(&mut db, &id_key(1));
    insert(&mut db, &id_key(2));
    let rows = db
        .query(
            &unique_view(),
            &Some(QueryKey::Range(id_key(0), id_key(10))),
            AccessPolicy::NoUpdate,
        )
        .unwrap();
    let keys: Vec<Vec<u8>> = rows.iter().map(|r| r.key.clone()).collect();
    assert_eq!(keys, vec![id_key(1), id_key(2), id_key(3)]);
}

#[test]
fn multiple_selector_keeps_caller_order_and_drops_missing() {
    let mut db = open_db();
    insert(&mut db, b"x");
    insert(&mut db, b"y");
    let rows = db
        .query(
            &unique_view(),
            &Some(QueryKey::Multiple(vec![
                b"y".to_vec(),
                b"missing".to_vec(),
                b"x".to_vec(),
            ])),
            AccessPolicy::NoUpdate,
        )
        .unwrap();
    let keys: Vec<Vec<u8>> = rows.iter().map(|r| r.key.clone()).collect();
    assert_eq!(keys, vec![b"y".to_vec(), b"x".to_vec()]);
}

#[test]
fn document_map_records_emitted_keys() {
    let mut db = open_db();
    let h1 = insert(&mut db, b"x");
    let keys = db.view_states[0].document_map.get_keys(h1.id).expect("keys must be recorded");
    assert_eq!(keys, vec![b"x".to_vec()]);
}

#[test]
fn lazy_view_is_invalidated_then_updated_before_query() {
    let mut db = open_db();
    let h1 = insert(&mut db, b"x");
    // The non-unique view holds an invalidation for the changed document.
    assert!(db.view_states[1].invalidated.contains(h1.id));
    let rows = db
        .query(&lazy_view(), &None, AccessPolicy::UpdateBefore)
        .unwrap();
    assert_eq!(rows.len(), 1);
    assert_eq!(rows[0].key, b"x".to_vec());
    assert!(db.view_states[1].invalidated.is_empty());
}

#[test]
fn update_if_needed_on_clean_view_changes_nothing() {
    let mut db = open_db();
    insert(&mut db, b"x");
    db.update_view_if_needed(1).unwrap();
    assert!(db.view_states[1].invalidated.is_empty());
    let entries_before = db.view_states[1].entries.len();
    db.update_view_if_needed(1).unwrap();
    assert_eq!(db.view_states[1].entries.len(), entries_before);
    assert!(db.view_states[1].invalidated.is_empty());
}

#[test]
fn delete_after_map_removes_entry_when_last_mapping() {
    let mut db = open_db();
    let h1 = insert(&mut db, b"k");
    let mut txn = Transaction::new();
    txn.delete(collection(), h1);
    db.apply_transaction(&txn).unwrap();
    let rows = db
        .query(
            &unique_view(),
            &Some(QueryKey::Matches(b"k".to_vec())),
            AccessPolicy::NoUpdate,
        )
        .unwrap();
    assert!(rows.is_empty());
    assert_eq!(db.view_states[0].entries.len(), 0);
}

#[test]
fn reduce_single_entry_returns_stored_value_verbatim() {
    let mut db = open_db();
    insert(&mut db, b"x");
    let value = db
        .reduce_in_view(
            &unique_view(),
            &Some(QueryKey::Matches(b"x".to_vec())),
            AccessPolicy::NoUpdate,
        )
        .unwrap();
    assert_eq!(value, id_key(1));
}

#[test]
fn reduce_matches_rereduce_of_grouped_reduction() {
    let mut db = open_db();
    insert(&mut db, b"x");
    insert(&mut db, b"y");
    let grouped = db
        .grouped_reduce_in_view(&unique_view(), &None, AccessPolicy::NoUpdate)
        .unwrap();
    assert_eq!(grouped.len(), 2);
    let total = db
        .reduce_in_view(&unique_view(), &None, AccessPolicy::NoUpdate)
        .unwrap();
    let schema_logic = TestSchema;
    let expected = schema_logic.reduce(&unique_view(), &grouped, true).unwrap();
    assert_eq!(total, expected);
    assert_eq!(total, id_key(2));
}

#[test]
fn query_with_docs_joins_sources() {
    let mut db = open_db();
    let h1 = insert(&mut db, b"x");
    let joined = db
        .query_with_docs(&unique_view(), &None, AccessPolicy::NoUpdate)
        .unwrap();
    assert_eq!(joined.len(), 1);
    assert_eq!(joined[0].key, b"x".to_vec());
    assert_eq!(joined[0].source.header.id, h1.id);
    assert_eq!(joined[0].source.contents, b"x".to_vec());
}

#[test]
fn transaction_log_is_gap_free() {
    let mut db = open_db();
    insert(&mut db, b"x");
    insert(&mut db, b"y");
    let listed = db.list_executed_transactions(None, None);
    assert_eq!(listed.len(), 2);
    assert_eq!(listed[0].id, 1);
    assert_eq!(listed[1].id, 2);
    assert_eq!(listed[1].changed_documents.len(), 1);
    assert!(!listed[1].changed_documents[0].deleted);
    assert_eq!(db.last_transaction_id(), Some(2));
    let tail = db.list_executed_transactions(Some(2), None);
    assert_eq!(tail.len(), 1);
    assert_eq!(tail[0].id, 2);
    let capped = db.list_executed_transactions(None, Some(1));
    assert_eq!(capped.len(), 1);
    assert_eq!(capped[0].id, 1);
    let empty = db.list_executed_transactions(None, Some(0));
    assert!(empty.is_empty());
}

#[test]
fn update_of_missing_document_is_refused() {
    let mut db = open_db();
    let header = insert(&mut db, b"x");
    let mut missing = header.clone();
    missing.id = 99;
    let mut txn = Transaction::new();
    txn.update(collection(), missing, b"y".to_vec());
    let err = db.apply_transaction(&txn).unwrap_err();
    assert!(matches!(err, Error::DocumentNotFound(_, 99)));
}

#[test]
fn update_with_stale_revision_is_refused() {
    let mut db = open_db();
    let header = insert(&mut db, b"one");
    let mut txn = Transaction::new();
    txn.update(collection(), header.clone(), b"two".to_vec());
    db.apply_transaction(&txn).unwrap();
    // The held header is now stale.
    let mut retry = Transaction::new();
    retry.update(collection(), header, b"three".to_vec());
    let err = db.apply_transaction(&retry).unwrap_err();
    assert!(matches!(err, Error::DocumentConflict(_, 1)));
}

#[test]
fn unknown_collection_is_refused() {
    let mut db = open_db();
    let mut txn = Transaction::new();
    txn.insert(CollectionName::new("tests", "absent"), b"x".to_vec());
    let err = db.apply_transaction(&txn).unwrap_err();
    assert!(matches!(err, Error::CollectionNotFound));
    let err = db
        .query(&ViewName::new("tests", "absent"), &None, AccessPolicy::NoUpdate)
        .unwrap_err();
    assert!(matches!(err, Error::CollectionNotFound));
}

#[test]
fn range_query_on_encryptable_keys_is_refused() {
    let mut schema = schematic();
    schema.views[0].keys_are_encryptable = true;
    let mut db = Database::new("db".to_string(), schema, TestSchema, None).unwrap();
    insert(&mut db, b"x");
    let err = db
        .query(
            &unique_view(),
            &Some(QueryKey::Range(b"a".to_vec(), b"z".to_vec())),
            AccessPolicy::NoUpdate,
        )
        .unwrap_err();
    assert!(matches!(err, Error::RangeQueryNotSupported));
}

#[test]
fn encrypted_document_requires_permissions() {
    let mut db = open_db();
    let mut txn = Transaction::new();
    txn.operations.push(Operation {
        collection: collection(),
        command: Command::Insert {
            contents: b"secret".to_vec(),
            encryption_key: Some(b"master".to_vec()),
        },
    });
    db.apply_transaction(&txn).unwrap();
    // Unrestricted access decrypts.
    let doc = db.get(&collection(), 1).unwrap().unwrap();
    assert_eq!(doc.contents, b"secret".to_vec());
    // The stored form is not the plaintext.
    assert_ne!(db.collections[0].get(1).unwrap().contents.clone(), b"secret".to_vec());
    // A caller without the key is refused.
    let restricted = db.with_effective_permissions(Permissions {
        allowed_key_ids: Some(vec![b"other".to_vec()]),
    });
    let err = restricted.get(&collection(), 1).unwrap_err();
    assert!(matches!(err, Error::Unauthorized));
    // A caller holding the key reads the document.
    let allowed = restricted.with_effective_permissions(Permissions {
        allowed_key_ids: Some(vec![b"master".to_vec()]),
    });
    let doc = allowed.get(&collection(), 1).unwrap().unwrap();
    assert_eq!(doc.contents, b"secret".to_vec());
}

#[test]
fn integrity_scan_invalidates_on_version_change() {
    let mut db = open_db();
    let h1 = insert(&mut db, b"x");
    db.update_view_if_needed(1).unwrap();
    assert!(db.view_states[1].invalidated.is_empty());
    // Pretend the schema evolved: the stored marker no longer matches.
    db.view_states[1].stored_version = 0;
    db.integrity_scan();
    assert_eq!(db.view_states[1].stored_version, 1);
    assert_eq!(db.view_states[1].entries.len(), 0);
    assert!(db.view_states[1].invalidated.contains(h1.id));
    // The unique view matched its version and is untouched.
    assert_eq!(db.view_states[0].entries.len(), 1);
}

#[test]
fn empty_transaction_commits_empty_result() {
    let mut db = open_db();
    let txn = Transaction::new();
    let results = db.apply_transaction(&txn).unwrap();
    assert!(results.is_empty());
    assert_eq!(db.last_transaction_id(), Some(1));
    let listed = db.list_executed_transactions(None, None);
    assert!(listed[0].changed_documents.is_empty());
}

#[test]
fn pubsub_delivers_to_matching_subscriber_only() {
    let mut db = open_db();
    let a = db.create_subscriber().unwrap();
    let b = db.create_subscriber().unwrap();
    let topic = serde_cbor::to_vec(&"t").unwrap();
    let payload = serde_cbor::to_vec(&"m").unwrap();
    db.subscribe_to(a, &topic);
    db.publish(&topic, &payload);
    let message = db.try_receive(a).expect("subscriber a must receive one message");
    let mut expected_topic = b"db".to_vec();
    expected_topic.push(0);
    expected_topic.extend_from_slice(&topic);
    assert_eq!(message.topic, expected_topic);
    assert_eq!(message.payload, payload);
    assert!(db.try_receive(a).is_none());
    assert!(db.try_receive(b).is_none());
}

#[test]
fn pubsub_unsubscribe_stops_delivery() {
    let mut db = open_db();
    let a = db.create_subscriber().unwrap();
    let topic = b"t".to_vec();
    db.subscribe_to(a, &topic);
    let m1 = b"m1".to_vec();
    let m2 = b"m2".to_vec();
    let m3 = b"m3".to_vec();
    db.publish(&topic, &m1);
    db.unsubscribe_from(a, &topic);
    db.publish(&topic, &m2);
    db.subscribe_to(a, &topic);
    db.publish(&topic, &m3);
    assert_eq!(db.try_receive(a).unwrap().payload, b"m1".to_vec());
    assert_eq!(db.try_receive(a).unwrap().payload, b"m3".to_vec());
    assert!(db.try_receive(a).is_none());
}

#[test]
fn pubsub_unregister_drops_queue() {
    let mut db = open_db();
    let a = db.create_subscriber().unwrap();
    let topic = b"t".to_vec();
    let payload = b"m".to_vec();
    db.subscribe_to(a, &topic);
    db.publish(&topic, &payload);
    db.unregister_subscriber(a);
    assert!(db.try_receive(a).is_none());
}

struct PoisonSchema;

impl Schema for PoisonSchema {
    fn map(&self, _view: &ViewName, document: &Document) -> Result<Vec<EmittedMapping>, Error> {
        if document.contents == b"poison".to_vec() {
            Err(Error::Serialization("poisoned document".to_string()))
        } else {
            Ok(vec![EmittedMapping {
                key: document.contents.clone(),
                value: document.contents.clone(),
            }])
        }
    }

    fn reduce(
        &self,
        _view: &ViewName,
        values: &Vec<(Vec<u8>, Vec<u8>)>,
        _rereduce: bool,
    ) -> Result<Vec<u8>, Error> {
        Ok(id_key(values.len() as u64))
    }
}

#[test]
fn poison_pill_stays_invalidated_without_blocking_others() {
    let schema = Schematic {
        collections: vec![CollectionDescriptor { name: collection(), encryption_key: None }],
        views: vec![ViewDescriptor {
            name: lazy_view(),
            collection: collection(),
            unique: false,
            version: 1,
            has_reduce: false,
            keys_are_encryptable: false,
        }],
    };
    let mut db = Database::new("db".to_string(), schema, PoisonSchema, None).unwrap();
    let mut txn = Transaction::new();
    txn.insert(collection(), b"good".to_vec());
    txn.insert(collection(), b"poison".to_vec());
    let results = db.apply_transaction(&txn).unwrap();
    assert_eq!(results.len(), 2);
    // The background update maps the good document and reports the poison
    // pill, which stays invalidated.
    let err = db.update_view_if_needed(0).unwrap_err();
    assert!(matches!(err, Error::Serialization(_)));
    let rows = db.query(&lazy_view(), &None, AccessPolicy::NoUpdate).unwrap();
    assert_eq!(rows.len(), 1);
    assert_eq!(rows[0].key, b"good".to_vec());
    assert!(!db.view_states[0].invalidated.contains(1));
    assert!(db.view_states[0].invalidated.contains(2));
}

#[test]
fn get_multiple_keeps_order_and_drops_missing() {
    let mut db = open_db();
    insert(&mut db, b"x");
    insert(&mut db, b"y");
    insert(&mut db, b"z2");
    let docs = db
        .get_multiple(&collection(), &vec![3, 7, 1])
        .unwrap();
    assert_eq!(docs.len(), 2);
    assert_eq!(docs[0].header.id, 3);
    assert_eq!(docs[1].header.id, 1);
}

#[test]
fn publish_to_all_delivers_once_per_matching_topic() {
    let mut db = open_db();
    let a = db.create_subscriber().unwrap();
    let t1 = b"one".to_vec();
    let t2 = b"two".to_vec();
    let t3 = b"three".to_vec();
    db.subscribe_to(a, &t1);
    db.subscribe_to(a, &t3);
    let payload = b"p".to_vec();
    db.publish_to_all(&vec![t1.clone(), t2.clone(), t3.clone()], &payload);
    let first = db.try_receive(a).unwrap();
    let second = db.try_receive(a).unwrap();
    assert!(db.try_receive(a).is_none());
    assert_eq!(first.payload, payload);
    assert_eq!(second.payload, payload);
    assert_ne!(first.topic, second.topic);
}

#[test]
fn subscribing_twice_delivers_once() {
    let mut db = open_db();
    let a = db.create_subscriber().unwrap();
    let topic = b"t".to_vec();
    db.subscribe_to(a, &topic);
    db.subscribe_to(a, &topic);
    let payload = b"m".to_vec();
    db.publish(&topic, &payload);
    assert!(db.try_receive(a).is_some());
    assert!(db.try_receive(a).is_none());
}

#[test]
fn encrypted_document_serialization_records_key_id() {
    let mut db = open_db();
    let mut txn = Transaction::new();
    txn.operations.push(Operation {
        collection: collection(),
        command: Command::Insert {
            contents: b"abc".to_vec(),
            encryption_key: Some(b"master".to_vec()),
        },
    });
    db.apply_transaction(&txn).unwrap();
    let doc = db.get(&collection(), 1).unwrap().unwrap();
    let bytes = db.serialize_document(&doc).unwrap();
    // Key flag, 8-byte key length, then the key id bytes follow the digest.
    assert_eq!(bytes[44], 1);
    assert_eq!(&bytes[45..53], id_key(6).as_slice());
    assert_eq!(&bytes[53..59], b"master");
}

#[test]
fn duplicate_view_names_refuse_the_schematic() {
    let mut schema = schematic();
    let dup = ViewDescriptor {
        name: unique_view(),
        collection: collection(),
        unique: false,
        version: 1,
        has_reduce: false,
        keys_are_encryptable: false,
    };
    schema.views.push(dup);
    let err = Database::new("db".to_string(), schema, TestSchema, None).unwrap_err();
    assert!(matches!(err, Error::SchemaAlreadyRegistered(_)));
}

#[test]
fn collection_default_key_encrypts_inserts() {
    let mut schema = schematic();
    schema.collections[0].encryption_key = Some(b"coll-key".to_vec());
    let mut db = Database::new("db".to_string(), schema, TestSchema, None).unwrap();
    let header = insert(&mut db, b"data");
    assert_eq!(header.encryption_key, Some(b"coll-key".to_vec()));
    // The stored bytes are an envelope, and reads decrypt transparently.
    assert_ne!(db.collections[0].get(1).unwrap().contents.clone(), b"data".to_vec());
    let doc = db.get(&collection(), 1).unwrap().unwrap();
    assert_eq!(doc.contents, b"data".to_vec());
}
