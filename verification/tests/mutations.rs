//! The string-command operations against the engine: `add` and `mutate`.

use eventdb::db::DB;
use eventdb::operation::add::add;
use eventdb::operation::general::{Operation, OperationType};
use eventdb::operation::mutation::mutate;
use eventdb::schema::{
    Attribute, AttributeName, Event, EventName, Schema, Stream, StreamName,
};

fn two_attribute_schema() -> Schema {
    Schema {
        streams: vec![Stream {
            name: StreamName("account".to_string()),
            key: "account-id".to_string(),
        }],
        events: vec![Event {
            name: EventName("AccountCreated".to_string()),
            stream_name: StreamName("account".to_string()),
        }],
        attributes: vec![
            Attribute {
                name: AttributeName("owner-name".to_string()),
                event_name: EventName("AccountCreated".to_string()),
                stream_name: StreamName("account".to_string()),
                required: true,
                attribute_type: "string".to_string(),
            },
            Attribute {
                name: AttributeName("created_at".to_string()),
                event_name: EventName("AccountCreated".to_string()),
                stream_name: StreamName("account".to_string()),
                required: true,
                attribute_type: "string".to_string(),
            },
        ],
    }
}

fn one_attribute_schema() -> Schema {
    Schema {
        streams: vec![Stream {
            name: StreamName("account".to_string()),
            key: "account-id".to_string(),
        }],
        events: vec![Event {
            name: EventName("AccountCreated".to_string()),
            stream_name: StreamName("account".to_string()),
        }],
        attributes: vec![Attribute {
            name: AttributeName("owner-name".to_string()),
            event_name: EventName("AccountCreated".to_string()),
            stream_name: StreamName("account".to_string()),
            required: true,
            attribute_type: "string".to_string(),
        }],
    }
}

#[test]
fn test_add_valid() {
    let op = Operation {
        op_type: OperationType::Add,
        body: String::from(
            r#"AccountCreated(owner-name="axel", created_at="2025-01-02 14:00:00")->account:123"#,
        ),
    };

    let mut db = DB::new(Some(two_attribute_schema()));

    match add(op, &mut db) {
        Ok(_) => println!("Success"),
        Err(e) => panic!("Failed. Got error {}", e.message()),
    }
}

#[test]
fn test_add_stream_attribute_does_not_exist() {
    let op = Operation {
        op_type: OperationType::Add,
        body: String::from(
            r#"AccountCreated(owner-name="axel", created_at="2025-01-02 14:00:00")->account:123"#,
        ),
    };

    let mut db = DB::new(Some(one_attribute_schema()));

    match add(op, &mut db) {
        Ok(_) => panic!("expected error"),
        Err(e) => println!("success. Got error {}", e.message()),
    }
}

#[test]
fn test_mutate_valid() {
    let input = r#"
        ADD AccountCreated(owner-name="axel") TO account:123
    "#;

    let mut db = DB::new(Some(one_attribute_schema()));

    match mutate(input, &mut db) {
        Ok(_) => println!("Success"),
        Err(e) => panic!("Failed. Got error {}", e),
    }
}

#[test]
fn test_mutate_stream_invalid() {
    let input = r#"
        ADD AccountCreated(owner-name="axel") TO NON_EXISTENT_STREAM:123
    "#;

    let mut db = DB::new(Some(one_attribute_schema()));

    match mutate(input, &mut db) {
        Ok(_) => panic!("expected error"),
        Err(e) => println!("success. Got error {}", e),
    }
}

#[test]
fn test_find_operation_is_unsupported() {
    let db = DB::new(None);
    let op = Operation {
        op_type: OperationType::Add,
        body: String::from("account.amount"),
    };
    let r = eventdb::operation::find::find(op, &db);
    match r {
        Ok(_) => panic!("expected the unsupported-operation error"),
        Err(e) => assert_eq!(e.message(), "unsupported operation"),
    }
}

#[test]
fn test_migrate_then_mutate() {
    let mut db = DB::new(None);
    let schema_text = r#"
        stream(account, account-id);
        event(account, AccountCreated);
        attribute(account, AccountCreated, owner-name, true, string);
    "#;
    eventdb::operation::migration::migrate(schema_text, &mut db).unwrap();
    mutate(
        r#"ADD AccountCreated(owner-name="axel") TO account:123"#,
        &mut db,
    )
    .unwrap();
    let log = db
        .get_events("account".to_string(), "123".to_string())
        .unwrap()
        .unwrap();
    assert_eq!(log.len(), 1);
    assert_eq!(log[0].version, 1);
}
