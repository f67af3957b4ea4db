//! Checks of the building blocks: big-endian encodings, byte order, the
//! vault envelope, the revision digest, document serialization, tree names,
//! topic namespacing, name validation, and the task queue.

use docstore::byteorder::{bytes_eq, bytes_lt};
use docstore::codec::{encode_u32, encode_u64, id_key, read_u32, read_u64};
use docstore::database::{
    document_tree_name, parse_serialized_document, transaction_tree_name, validate_database_name,
};
use docstore::document::{sha256_digest, Document};
use docstore::error::{Error, ServerError};
use docstore::pubsub::database_topic;
use docstore::database::Database;
use docstore::schema::{CollectionName, EmittedMapping, Schema, Schematic, ViewName};
use docstore::tasks::{JobKind, TaskQueue};
use docstore::networking::{DatabaseRequest, Payload, Request, Response, ServerResponse};
use docstore::vault::{Permissions, Vault};
use sha2::Digest;

#[test]
fn u64_big_endian_round_trip() {
    let mut out = Vec::new();
    encode_u64(&mut out, 0x0102_0304_0506_0708);
    assert_eq!(out, vec![1, 2, 3, 4, 5, 6, 7, 8]);
    assert_eq!(read_u64(&out, 0), 0x0102_0304_0506_0708);
    assert_eq!(id_key(1), vec![0, 0, 0, 0, 0, 0, 0, 1]);
}

#[test]
fn u32_big_endian_round_trip() {
    let mut out = Vec::new();
    encode_u32(&mut out, 0xdead_beef);
    assert_eq!(out, vec![0xde, 0xad, 0xbe, 0xef]);
    assert_eq!(read_u32(&out, 0), 0xdead_beef);
}

#[test]
fn big_endian_keys_preserve_numeric_order() {
    let pairs = [(0u64, 1u64), (1, 2), (255, 256), (65535, 65536), (1, u64::MAX)];
    for (lo, hi) in pairs {
        assert!(bytes_lt(&id_key(lo), &id_key(hi)));
        assert!(!bytes_lt(&id_key(hi), &id_key(lo)));
    }
    assert!(!bytes_lt(&id_key(7), &id_key(7)));
}

#[test]
fn byte_order_is_lexicographic() {
    assert!(bytes_lt(&b"a".to_vec(), &b"ab".to_vec()));
    assert!(bytes_lt(&b"ab".to_vec(), &b"b".to_vec()));
    assert!(!bytes_lt(&b"b".to_vec(), &b"ab".to_vec()));
    assert!(bytes_eq(&b"ab".to_vec(), &b"ab".to_vec()));
    assert!(!bytes_eq(&b"ab".to_vec(), &b"ac".to_vec()));
}

#[test]
fn vault_envelope_round_trip_and_permissions() {
    let vault = Vault::new();
    let key = b"master".to_vec();
    let payload = b"payload".to_vec();
    let sealed = vault.encrypt_payload(&key, &payload, &None).unwrap();
    assert_ne!(sealed, payload);
    let opened = vault.decrypt_payload(&sealed, &None).unwrap();
    assert_eq!(opened, payload);
    let restricted = Some(Permissions { allowed_key_ids: Some(vec![b"other".to_vec()]) });
    let err = vault.decrypt_payload(&sealed, &restricted).unwrap_err();
    assert!(matches!(err, Error::Unauthorized));
    let allowed = Some(Permissions { allowed_key_ids: Some(vec![key.clone()]) });
    assert_eq!(vault.decrypt_payload(&sealed, &allowed).unwrap(), payload);
    let garbage = vault.decrypt_payload(&b"not an envelope".to_vec(), &None).unwrap_err();
    assert!(matches!(garbage, Error::Serialization(_)));
}

#[test]
fn revision_digest_is_sha256() {
    let contents = b"contents".to_vec();
    let ours = sha256_digest(&contents);
    let theirs = sha2::Sha256::digest(&contents).to_vec();
    assert_eq!(ours, theirs);
    assert_eq!(ours.len(), 32);
    let doc = Document::new(1, contents, None);
    assert_eq!(doc.header.revision.sha256, theirs);
    assert_eq!(doc.header.revision.generation, 1);
}

#[test]
fn document_serialization_frames_header_then_contents() {
    struct NoViews;
    impl Schema for NoViews {
        fn map(&self, _v: &ViewName, _d: &Document) -> Result<Vec<EmittedMapping>, Error> {
            Ok(Vec::new())
        }
        fn reduce(
            &self,
            _v: &ViewName,
            _values: &Vec<(Vec<u8>, Vec<u8>)>,
            _rereduce: bool,
        ) -> Result<Vec<u8>, Error> {
            Ok(Vec::new())
        }
    }
    let schema = Schematic { collections: Vec::new(), views: Vec::new() };
    let db = Database::new("db".to_string(), schema, NoViews, None).unwrap();
    let doc = Document::new(7, b"abc".to_vec(), None);
    let bytes = db.serialize_document(&doc).unwrap();
    // 8-byte id, 4-byte generation, 32-byte digest, key flag, contents.
    assert_eq!(bytes.len(), 8 + 4 + 32 + 1 + 3);
    assert_eq!(&bytes[0..8], id_key(7).as_slice());
    assert_eq!(&bytes[8..12], &[0, 0, 0, 1]);
    assert_eq!(&bytes[12..44], doc.header.revision.sha256.as_slice());
    assert_eq!(bytes[44], 0);
    assert_eq!(&bytes[45..], b"abc");
}

#[test]
fn document_record_parses_back() {
    let doc = Document::new(7, b"abc".to_vec(), Some(b"master".to_vec()));
    let schema = Schematic { collections: Vec::new(), views: Vec::new() };
    struct Plain;
    impl Schema for Plain {
        fn map(&self, _v: &ViewName, _d: &Document) -> Result<Vec<EmittedMapping>, Error> {
            Ok(Vec::new())
        }
        fn reduce(
            &self,
            _v: &ViewName,
            _values: &Vec<(Vec<u8>, Vec<u8>)>,
            _rereduce: bool,
        ) -> Result<Vec<u8>, Error> {
            Ok(Vec::new())
        }
    }
    let db = Database::new("db".to_string(), schema, Plain, None).unwrap();
    let bytes = db.serialize_document(&doc).unwrap();
    let parsed = parse_serialized_document(&bytes).expect("the record must parse");
    assert_eq!(parsed.header.id, doc.header.id);
    assert_eq!(parsed.header.revision.generation, doc.header.revision.generation);
    assert_eq!(parsed.header.revision.sha256, doc.header.revision.sha256);
    assert_eq!(parsed.header.encryption_key, Some(b"master".to_vec()));
    // The parsed contents are the stored (sealed) form, not the plaintext.
    assert_ne!(parsed.contents, doc.contents);
    assert!(parse_serialized_document(&b"short".to_vec()).is_none());
}

#[test]
fn storage_tree_names() {
    assert_eq!(transaction_tree_name("db"), "db::transactions");
    let c = CollectionName::new("tests", "c");
    assert_eq!(document_tree_name("db", &c), "db::collection::tests.c");
}

#[test]
fn database_topic_is_name_zero_topic() {
    let topic = database_topic("db", b"t");
    assert_eq!(topic, vec![b'd', b'b', 0, b't']);
}

#[test]
fn database_name_validation() {
    assert!(validate_database_name("a").is_ok());
    assert!(validate_database_name("default").is_ok());
    assert!(validate_database_name("db-1.backup").is_ok());
    assert!(matches!(
        validate_database_name(""),
        Err(Error::InvalidDatabaseName(_))
    ));
    assert!(matches!(
        validate_database_name("-leading"),
        Err(Error::InvalidDatabaseName(_))
    ));
    assert!(matches!(
        validate_database_name("has space"),
        Err(Error::InvalidDatabaseName(_))
    ));
}

#[test]
fn task_queue_coalesces_submissions() {
    let mut q = TaskQueue::new();
    q.submit(0, JobKind::Update);
    q.submit(0, JobKind::Update);
    q.submit(0, JobKind::Integrity);
    q.submit(1, JobKind::Update);
    assert!(q.is_pending(0, JobKind::Update));
    assert_eq!(q.take_next(), Some((0, JobKind::Update)));
    assert_eq!(q.take_next(), Some((0, JobKind::Integrity)));
    assert_eq!(q.take_next(), Some((1, JobKind::Update)));
    assert_eq!(q.take_next(), None);
}

#[test]
fn server_errors_fold_into_core_kinds() {
    assert!(matches!(
        Error::from(ServerError::InvalidDatabaseName("x".to_string())),
        Error::InvalidDatabaseName(_)
    ));
    assert!(matches!(
        Error::from(ServerError::Websocket("closed".to_string())),
        Error::Transport(_)
    ));
    assert!(matches!(
        Error::from(ServerError::Core(Error::Disconnected)),
        Error::Disconnected
    ));
    assert!(matches!(
        Error::from(ServerError::Storage("io".to_string())),
        Error::Storage(_)
    ));
    assert_eq!(Error::Unauthorized.kind(), "unauthorized");
    assert_eq!(Error::CollectionNotFound.kind(), "collection-not-found");
}

#[test]
fn wire_envelope_shapes() {
    let request = Payload {
        id: Some(7),
        wrapped: Request::Database {
            database: "db".to_string(),
            request: DatabaseRequest::LastTransactionId,
        },
    };
    assert_eq!(request.id, Some(7));
    match request.wrapped {
        Request::Database { database, request: DatabaseRequest::LastTransactionId } => {
            assert_eq!(database, "db");
        }
        other => panic!("unexpected request: {:?}", other),
    }
    let response = Payload {
        id: Some(7),
        wrapped: Response::Server(ServerResponse::DatabaseCreated { name: "db".to_string() }),
    };
    match response.wrapped {
        Response::Server(ServerResponse::DatabaseCreated { name }) => assert_eq!(name, "db"),
        other => panic!("unexpected response: {:?}", other),
    }
}
