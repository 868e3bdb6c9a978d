//! The engine: serial versions, monotone timestamps, idempotent creates,
//! key independence and the end-to-end pipeline.

use eventdb::ast::Value;
use eventdb::db::DB;
use eventdb::event::{Attribute, Event};
use eventdb::pipeline::run_command;
use eventdb::schema::{
    Attribute as SchemaAttribute, AttributeName, Event as SchemaEvent, Schema, Stream, StreamName,
    EventName,
};
use std::time::{SystemTime, UNIX_EPOCH};

fn account_schema() -> Schema {
    Schema {
        streams: vec![Stream {
            name: StreamName("account".to_string()),
            key: "account-id".to_string(),
        }],
        events: vec![SchemaEvent {
            name: EventName("AccountCreated".to_string()),
            stream_name: StreamName("account".to_string()),
        }],
        attributes: vec![SchemaAttribute {
            name: AttributeName("owner-name".to_string()),
            event_name: EventName("AccountCreated".to_string()),
            stream_name: StreamName("account".to_string()),
            required: true,
            attribute_type: "string".to_string(),
        }],
    }
}

fn now_millis() -> u128 {
    SystemTime::now().duration_since(UNIX_EPOCH).unwrap().as_millis()
}

#[test]
fn test_db() {
    let db_schema = account_schema();
    let mut db = DB::new(Some(db_schema));

    let stream_name = "account".to_string();
    let event_name = "AccountCreated".to_string();
    let key = "123".to_string();

    let event = Event {
        stream: stream_name.clone(),
        key: key.clone(),
        event: event_name.clone(),
        attributes: vec![Attribute {
            name: "owner-name".to_string(),
            value: Value::String("axel".to_string()),
        }],
        version: 1,
        timestamp: now_millis(),
    };

    match db.add_event(event.clone()) {
        Ok(_) => (),
        Err(e) => panic!("failed to add event: {}", e.message()),
    }

    let got = match db.get_events(stream_name.clone(), key.clone()) {
        Ok(e) => e.unwrap(),
        Err(e) => panic!("failed to add event: {}", e.message()),
    };

    if got.len() != 1 {
        panic!("event stream is empty. expected one event")
    }

    assert_eq!(event, got[0]);
}

#[test]
fn test_db_migrate() {
    let db_schema = account_schema();
    let mut db = DB::new(None);

    match db.migrate(db_schema) {
        Ok(_) => (),
        Err(e) => panic!("failed to migrate: {}", e.message()),
    }

    let event = Event {
        stream: "account".to_string(),
        key: "123".to_string(),
        event: "AccountCreated".to_string(),
        attributes: vec![Attribute {
            name: "owner-name".to_string(),
            value: Value::String("axel".to_string()),
        }],
        version: 1,
        timestamp: now_millis(),
    };

    match db.add_event(event) {
        Ok(_) => (),
        Err(e) => panic!("failed to add event: {}", e.message()),
    }
}

#[test]
fn test_ensure_serial_version() {
    let db_schema = account_schema();
    let mut db = DB::new(None);

    match db.migrate(db_schema) {
        Ok(_) => (),
        Err(e) => panic!("failed to migrate: {}", e.message()),
    }

    let event = Event {
        stream: "account".to_string(),
        key: "123".to_string(),
        event: "AccountCreated".to_string(),
        attributes: vec![Attribute {
            name: "owner-name".to_string(),
            value: Value::String("axel".to_string()),
        }],
        version: 1,
        timestamp: now_millis(),
    };

    match db.add_event(event.clone()) {
        Ok(_) => (),
        Err(e) => panic!("failed to add event: {}", e.message()),
    }

    match db.add_event(event.clone()) {
        Ok(_) => panic!("expected failure to add event due to version incorrect"),
        Err(e) => println!("failed to add event: {}", e.message()),
    }
}

#[test]
fn test_end_to_end_two_appends() {
    let mut db = DB::new(None);
    run_command("create stream account;", &mut db).unwrap();
    run_command(
        "create event AccountCreated(owner string, amount int) on account;",
        &mut db,
    )
    .unwrap();
    run_command(
        r#"add AccountCreated(owner="a", amount=10) to account(id="123");"#,
        &mut db,
    )
    .unwrap();
    run_command(
        r#"add AccountCreated(owner="b", amount=20) to account(id="123");"#,
        &mut db,
    )
    .unwrap();

    let log = db
        .get_events("account".to_string(), "123".to_string())
        .unwrap()
        .unwrap();
    assert_eq!(log.len(), 2);
    assert_eq!(log[0].version, 1);
    assert_eq!(log[1].version, 2);
    assert_eq!(log[0].attributes[0].name, "owner");
    assert_eq!(log[0].attributes[0].value, Value::String("a".to_string()));
    assert_eq!(log[0].attributes[1].value, Value::Int(10));
    assert_eq!(log[1].attributes[0].value, Value::String("b".to_string()));
    assert_eq!(log[1].attributes[1].value, Value::Int(20));
    assert!(log[0].timestamp <= log[1].timestamp);
}

#[test]
fn test_serialized_appends_are_dense() {
    let mut db = DB::new(None);
    run_command("create stream account;", &mut db).unwrap();
    run_command(
        "create event AccountCreated(owner string) on account;",
        &mut db,
    )
    .unwrap();
    for _ in 0..5 {
        run_command(
            r#"add AccountCreated(owner="x") to account(id="X");"#,
            &mut db,
        )
        .unwrap();
    }
    let log = db
        .get_events("account".to_string(), "X".to_string())
        .unwrap()
        .unwrap();
    assert_eq!(log.len(), 5);
    for i in 0..5 {
        assert_eq!(log[i].version, (i + 1) as u64);
        if i > 0 {
            assert!(log[i - 1].timestamp <= log[i].timestamp);
        }
    }
}

#[test]
fn test_appends_to_distinct_keys_are_independent() {
    let mut db = DB::new(None);
    run_command("create stream account;", &mut db).unwrap();
    run_command(
        "create event AccountCreated(owner string) on account;",
        &mut db,
    )
    .unwrap();
    for key in ["123", "1234", "12345"] {
        let cmd = format!(r#"add AccountCreated(owner="axel") to account(id="{}");"#, key);
        run_command(&cmd, &mut db).unwrap();
        run_command(&cmd, &mut db).unwrap();
    }
    for key in ["123", "1234", "12345"] {
        let log = db
            .get_events("account".to_string(), key.to_string())
            .unwrap()
            .unwrap();
        assert_eq!(log.len(), 2);
        assert_eq!(log[0].version, 1);
        assert_eq!(log[1].version, 2);
    }
}

#[test]
fn test_idempotent_create_stream() {
    let mut db = DB::new(None);
    run_command("create stream account;", &mut db).unwrap();
    run_command("create stream account;", &mut db).unwrap();
    let count = db
        .schema
        .streams
        .iter()
        .filter(|s| s.name.0 == "account")
        .count();
    assert_eq!(count, 1);
}

#[test]
fn test_missing_stream_rejects_append() {
    let mut db = DB::new(None);
    let r = run_command(
        r#"add AccountCreated(owner="a") to account(id="x");"#,
        &mut db,
    );
    assert!(r.is_err());
    assert!(db
        .get_events("account".to_string(), "x".to_string())
        .unwrap()
        .is_none());
}

#[test]
fn test_type_mismatch_rejects_append() {
    let mut db = DB::new(None);
    run_command("create stream account;", &mut db).unwrap();
    run_command(
        "create event AccountCreated(owner string) on account;",
        &mut db,
    )
    .unwrap();
    let r = run_command(
        r#"add AccountCreated(owner=10) to account(id="x");"#,
        &mut db,
    );
    assert!(r.is_err());
    assert!(db
        .get_events("account".to_string(), "x".to_string())
        .unwrap()
        .is_none());
}

#[test]
fn test_attribute_conflict() {
    let mut db = DB::new(None);
    run_command("create stream account;", &mut db).unwrap();
    run_command(
        "create event AccountCreated(owner string) on account;",
        &mut db,
    )
    .unwrap();
    // same declared type again: idempotent
    run_command(
        "create event AccountCreated(owner string) on account;",
        &mut db,
    )
    .unwrap();
    // a different declared type conflicts
    let r = run_command(
        "create event AccountCreated(owner int) on account;",
        &mut db,
    );
    assert!(r.is_err());
}

#[test]
fn test_missing_event_rejected() {
    let mut db = DB::new(None);
    run_command("create stream account;", &mut db).unwrap();
    let r = run_command(
        r#"add Nonexistent(owner="a") to account(id="x");"#,
        &mut db,
    );
    assert!(r.is_err());
}

#[test]
fn test_find_is_unsupported() {
    let mut db = DB::new(None);
    let r = run_command("find account.amount limit 10;", &mut db);
    assert!(r.is_err());
}

#[test]
fn test_show_schema_renders() {
    let mut db = DB::new(None);
    run_command("create stream account;", &mut db).unwrap();
    let out = run_command("show schema;", &mut db).unwrap();
    assert!(out.contains("account"));
    let again = run_command("show schema;", &mut db).unwrap();
    assert_eq!(out, again);
}

#[test]
fn test_create_event_without_stream_fails() {
    let mut db = DB::new(None);
    let r = run_command(
        "create event AccountCreated(owner string) on account;",
        &mut db,
    );
    assert!(r.is_err());
}
