//! The schema text parser, the mutation parser and the catalog's
//! mutation check.

use eventdb::mutation::{AddEventMutation, Attribute as MutationAttribute};
use eventdb::mutation_parser::parse_mutation;
use eventdb::parser::schema::{parse, SchemaParserError};
use eventdb::schema::{Attribute, AttributeName, Event, EventName, Schema, Stream, StreamName};

fn account_schema() -> Schema {
    Schema {
        streams: vec![Stream {
            name: StreamName("account".to_string()),
            key: "account-id".to_string(),
        }],
        events: vec![Event {
            name: EventName("AccountCreated".to_string()),
            stream_name: StreamName("account".to_string()),
        }],
        attributes: vec![Attribute {
            name: AttributeName("owner-name".to_string()),
            event_name: EventName("AccountCreated".to_string()),
            stream_name: StreamName("account".to_string()),
            required: true,
            attribute_type: "string".to_string(),
        }],
    }
}

#[test]
fn schema_test_basic_schema_parse() {
    let schema = String::from(
        r#"
        stream(account, account-id);
        event(account, AccountCreated);
        attribute(account, AccountCreated, owner-name, true, string);
        attribute(account, AccountCreated, country, true, string);
        event(account, AccountClosed);
        attribute(account, AccountClosed, closed_at, true, time);
                "#,
    );

    let expected = Schema {
        streams: vec![Stream {
            name: StreamName("account".to_string()),
            key: "account-id".to_string(),
        }],
        events: vec![
            Event {
                name: EventName("AccountCreated".to_string()),
                stream_name: StreamName("account".to_string()),
            },
            Event {
                name: EventName("AccountClosed".to_string()),
                stream_name: StreamName("account".to_string()),
            },
        ],
        attributes: vec![
            Attribute {
                name: AttributeName("owner-name".to_string()),
                event_name: EventName("AccountCreated".to_string()),
                stream_name: StreamName("account".to_string()),
                required: true,
                attribute_type: "string".to_string(),
            },
            Attribute {
                name: AttributeName("country".to_string()),
                event_name: EventName("AccountCreated".to_string()),
                stream_name: StreamName("account".to_string()),
                required: true,
                attribute_type: "string".to_string(),
            },
            Attribute {
                name: AttributeName("closed_at".to_string()),
                event_name: EventName("AccountClosed".to_string()),
                stream_name: StreamName("account".to_string()),
                required: true,
                attribute_type: "time".to_string(),
            },
        ],
    };

    let result = match parse(&schema) {
        Ok(value) => value,
        Err(error) => {
            panic!("Test failed due to error: {:?}", error.message());
        },
    };

    assert_eq!(expected, result)
}

#[test]
fn schema_test_handle_comments() {
    let schema = String::from(
        r#"
        // THIS IS SOME COMMENT
        stream(account, account-id);
        // THIS IS ANOTHER COMMENT
        // AND IT IS A MULTI BLOCK COMMENT
        event(account, AccountCreated); // COMMENT AFTER
        attribute(account, AccountCreated, owner-name, true, string);

                "#,
    );

    let expected = account_schema();

    let result = match parse(&schema) {
        Ok(value) => value,
        Err(error) => {
            panic!("Test failed due to error: {:?}", error.message());
        },
    };

    assert_eq!(result, expected);
}

#[test]
fn schema_test_handle_stream_missing() {
    let schema = String::from(
        r#"
        stream(account, account-id);
        event(DOES_NOT_EXIST, AccountCreated);
                "#,
    );

    match parse(&schema) {
        Ok(_) => panic!("expected schema parsing to fail"),
        Err(_e @ SchemaParserError::CreateEventError(_)) => println!("success"),
        Err(_) => panic!("incorrect error type returned"),
    };
}

#[test]
fn schema_test_handle_event_missing() {
    let schema = String::from(
        r#"
        stream(account, account-id);
        event(account, AccountCreated);
        attribute(account, DOES_NOT_EXIST, owner-name, true, string);
                "#,
    );

    match parse(&schema) {
        Ok(_) => panic!("expected schema parsing to fail"),
        Err(_e @ SchemaParserError::CreateAttributeError(_)) => println!("success"),
        Err(_) => panic!("incorrect error type returned"),
    };
}

#[test]
fn test_parse_mutation() {
    let input = String::from(
        r#"
            ADD AccountCreated(owner-name="axel", created_at="2025-01-02 14:00:00") TO account:123;
            "#,
    );

    let expected = vec![AddEventMutation {
        stream: "account".to_string(),
        key: "123".to_string(),
        event: "AccountCreated".to_string(),
        attributes: vec![
            MutationAttribute {
                name: "owner-name".to_string(),
                value: "axel".to_string(),
            },
            MutationAttribute {
                name: "created_at".to_string(),
                value: "2025-01-02 14:00:00".to_string(),
            },
        ],
    }];

    let mutations = match parse_mutation(&input) {
        Ok(x) => x,
        Err(_) => panic!("Got error expected none!"),
    };

    assert_eq!(expected, mutations)
}

#[test]
fn test_parse_mutation_with_comments() {
    let input = String::from(
        r#"
            // COMMENT
            ADD AccountCreated(owner-name="axel", created_at="2025-01-02 14:00:00") TO account:123; // TRAILING
                                                                                                    // COMMENT
            "#,
    );

    let expected = vec![AddEventMutation {
        stream: "account".to_string(),
        key: "123".to_string(),
        event: "AccountCreated".to_string(),
        attributes: vec![
            MutationAttribute {
                name: "owner-name".to_string(),
                value: "axel".to_string(),
            },
            MutationAttribute {
                name: "created_at".to_string(),
                value: "2025-01-02 14:00:00".to_string(),
            },
        ],
    }];

    let mutations = match parse_mutation(&input) {
        Ok(x) => x,
        Err(_) => panic!("Got error expected none!"),
    };

    assert_eq!(expected, mutations)
}

#[test]
fn test_is_mutation_possible_valid() {
    let schema = account_schema();

    let mutation = AddEventMutation {
        stream: "account".to_string(),
        key: "123".to_string(),
        event: "AccountCreated".to_string(),
        attributes: vec![MutationAttribute {
            name: "owner-name".to_string(),
            value: "axel".to_string(),
        }],
    };

    match schema.is_mutation_possible(&mutation) {
        Ok(_) => println!("success"),
        Err(e) => panic!("expected success. Got error {}", e),
    }
}

#[test]
fn test_is_mutation_possible_invalid_stream() {
    let schema = account_schema();

    let mutation = AddEventMutation {
        stream: "NON_EXISTENT_STREAM".to_string(),
        key: "123".to_string(),
        event: "AccountCreated".to_string(),
        attributes: vec![MutationAttribute {
            name: "owner-name".to_string(),
            value: "axel".to_string(),
        }],
    };

    match schema.is_mutation_possible(&mutation) {
        Ok(_) => panic!("expected error"),
        Err(e) => println!("success. Got error {}", e),
    }
}

#[test]
fn test_is_mutation_possible_invalid_event() {
    let schema = account_schema();

    let mutation = AddEventMutation {
        stream: "account".to_string(),
        key: "123".to_string(),
        event: "NON_EXISTENT_EVENT".to_string(),
        attributes: vec![MutationAttribute {
            name: "owner-name".to_string(),
            value: "axel".to_string(),
        }],
    };

    match schema.is_mutation_possible(&mutation) {
        Ok(_) => panic!("expected error"),
        Err(e) => println!("success. Got error {}", e),
    }
}

#[test]
fn test_is_mutation_possible_invalid_attribute() {
    let schema = account_schema();

    let mutation = AddEventMutation {
        stream: "account".to_string(),
        key: "123".to_string(),
        event: "AccountCreated".to_string(),
        attributes: vec![MutationAttribute {
            name: "NON_EXISTENT_ATTRIBUTE".to_string(),
            value: "axel".to_string(),
        }],
    };

    match schema.is_mutation_possible(&mutation) {
        Ok(_) => panic!("expected error"),
        Err(e) => println!("success. Got error {}", e),
    }
}
