//! The planner: exact lowering of each command into its operations.

use eventdb::ast::{
    AttributeDefinition, AttributeValue, Command, Entity, Event, Transaction, Value,
};
use eventdb::planner::{plan, DataType, Operation};
use eventdb::schema::{AttributeName, EventName, StreamName};

#[test]
fn test_plan_create_stream_is_exactly_one_op() {
    let trx = Transaction {
        commands: vec![Command::Create {
            entity: Entity::Stream("account".to_string()),
        }],
    };
    let p = plan(trx).unwrap();
    assert_eq!(
        p.operations,
        vec![Operation::CreateStream {
            stream: StreamName::new("account".to_string()),
        }]
    );
}

#[test]
fn test_plan_create_event_order() {
    let trx = Transaction {
        commands: vec![Command::Create {
            entity: Entity::Event {
                name: "AccountCreated".to_string(),
                stream: "account".to_string(),
                attributes: vec![
                    AttributeDefinition {
                        name: "owner".to_string(),
                        data_type: "string".to_string(),
                    },
                    AttributeDefinition {
                        name: "amount".to_string(),
                        data_type: "int".to_string(),
                    },
                ],
            },
        }],
    };
    let p = plan(trx).unwrap();
    assert_eq!(
        p.operations,
        vec![
            Operation::CheckStreamExists {
                stream: StreamName::new("account".to_string()),
            },
            Operation::CreateEvent {
                stream: StreamName::new("account".to_string()),
                event: EventName::new("AccountCreated".to_string()),
            },
            Operation::CreateAttribute {
                stream: StreamName::new("account".to_string()),
                event: EventName::new("AccountCreated".to_string()),
                attribute: AttributeName::new("owner".to_string()),
                data_type: DataType::String,
            },
            Operation::CreateAttribute {
                stream: StreamName::new("account".to_string()),
                event: EventName::new("AccountCreated".to_string()),
                attribute: AttributeName::new("amount".to_string()),
                data_type: DataType::Int,
            },
        ]
    );
}

#[test]
fn test_plan_add_checks_then_append() {
    let trx = Transaction {
        commands: vec![Command::Add {
            event: Event {
                name: "AccountCreated".to_string(),
                values: vec![AttributeValue {
                    name: "owner".to_string(),
                    value: Value::String("a".to_string()),
                }],
            },
            stream: "account".to_string(),
            stream_id: "123".to_string(),
        }],
    };
    let p = plan(trx).unwrap();
    assert_eq!(p.operations.len(), 4);
    assert_eq!(
        p.operations[0],
        Operation::CheckStreamExists {
            stream: StreamName::new("account".to_string()),
        }
    );
    assert_eq!(
        p.operations[1],
        Operation::CheckEventExists {
            stream: StreamName::new("account".to_string()),
            event: EventName::new("AccountCreated".to_string()),
        }
    );
    assert_eq!(
        p.operations[2],
        Operation::CheckAttributeExists {
            stream: StreamName::new("account".to_string()),
            event: EventName::new("AccountCreated".to_string()),
            attribute: AttributeName::new("owner".to_string()),
        }
    );
    match &p.operations[3] {
        Operation::AppendEvent { stream, key, event, attr_values } => {
            assert_eq!(stream, &StreamName::new("account".to_string()));
            assert_eq!(key, "123");
            assert_eq!(event, &EventName::new("AccountCreated".to_string()));
            assert_eq!(attr_values.len(), 1);
        },
        other => panic!("expected an append, got {:?}", other),
    }
}

#[test]
fn test_plan_show_schema() {
    let trx = Transaction {
        commands: vec![Command::Show { entity: Entity::Schema }],
    };
    let p = plan(trx).unwrap();
    assert_eq!(p.operations, vec![Operation::ShowSchema]);
}

#[test]
fn test_plan_unknown_type_is_error() {
    let trx = Transaction {
        commands: vec![Command::Create {
            entity: Entity::Event {
                name: "E".to_string(),
                stream: "s".to_string(),
                attributes: vec![AttributeDefinition {
                    name: "a".to_string(),
                    data_type: "time".to_string(),
                }],
            },
        }],
    };
    assert!(plan(trx).is_err());
}
