//! The token-based parser: one AST per command.

use eventdb::ast::{
    AttributeDefinition, AttributeValue, Command, Entity, Event, Expression, Function, Limit,
    Predicate, Projection, Transaction, Value,
};
use eventdb::ast::BinaryOperator;
use eventdb::parser::parse;

#[test]
fn test_parse_show() {
    let ast = match parse("show schema;") {
        Ok(a) => a,
        Err(_) => panic!("failed to parse"),
    };
    let expected = Transaction {
        commands: vec![Command::Show { entity: Entity::Schema }],
    };

    assert_eq!(expected, ast)
}

#[test]
fn parser_test_parse_create() {
    let test_cases = vec![
        (
            "create stream",
            "create stream account;",
            Transaction {
                commands: vec![Command::Create {
                    entity: Entity::Stream("account".to_string()),
                }],
            },
        ),
        (
            "create event",
            "create event AccountCreated(
                    owner string,
                    amount int
                ) on account;",
            Transaction {
                commands: vec![Command::Create {
                    entity: Entity::Event {
                        name: "AccountCreated".to_string(),
                        stream: "account".to_string(),
                        attributes: vec![
                            AttributeDefinition {
                                name: "owner".to_string(),
                                data_type: "string".to_string(),
                            },
                            AttributeDefinition {
                                name: "amount".to_string(),
                                data_type: "int".to_string(),
                            },
                        ],
                    },
                }],
            },
        ),
    ];
    for (name, input, expected) in test_cases {
        let ast = match parse(input) {
            Ok(a) => a,
            Err(e) => panic!("test cases '{}' failed parsing: {}", name, e.message()),
        };

        assert_eq!(expected, ast)
    }
}

#[test]
fn parser_test_parse_add() {
    let test_cases = vec![(
        "add event to account",
        r#"add AccountCreated(user_id="123", inital_amount=100.59, currency="SEK") to account(id="123");"#,
        Transaction {
            commands: vec![Command::Add {
                event: Event {
                    name: "AccountCreated".to_string(),
                    values: vec![
                        AttributeValue {
                            name: "user_id".to_string(),
                            value: Value::String("123".to_string()),
                        },
                        AttributeValue {
                            name: "inital_amount".to_string(),
                            value: Value::Float("100.59".to_string()),
                        },
                        AttributeValue {
                            name: "currency".to_string(),
                            value: Value::String("SEK".to_string()),
                        },
                    ],
                },
                stream: "account".to_string(),
                stream_id: "123".to_string(),
            }],
        },
    )];
    for (name, input, expected) in test_cases {
        let ast = match parse(input) {
            Ok(a) => a,
            Err(e) => panic!("test cases '{}' failed parsing: {}", name, e.message()),
        };

        assert_eq!(expected, ast)
    }
}

#[test]
fn test_parse_find() {
    let test_cases = vec![
        (
            "simple find with limit",
            "
            find
                 account.user_id
            limit
                10;
            ",
            Transaction {
                commands: vec![Command::Find {
                    projections: vec![Projection {
                        alias: "".to_string(),
                        projection: Expression::Attribute {
                            stream: "account".to_string(),
                            attribute: "user_id".to_string(),
                        },
                    }],
                    predicates: vec![],
                    limit: Some(Limit(10)),
                }],
            },
        ),
        (
            "find with where and aggregate",
            r#"
            find
                 sum(account.amount)
            where
                account.user_id == "123";
            "#,
            Transaction {
                commands: vec![Command::Find {
                    projections: vec![Projection {
                        alias: "".to_string(),
                        projection: Expression::Aggregate {
                            function: Function::Sum,
                            argument: Box::new(Expression::Attribute {
                                stream: "account".to_string(),
                                attribute: "amount".to_string(),
                            }),
                        },
                    }],
                    predicates: vec![Predicate::BinaryOperation {
                        left: Expression::Attribute {
                            stream: "account".to_string(),
                            attribute: "user_id".to_string(),
                        },
                        operator: BinaryOperator::Equal,
                        right: Expression::Literal(Value::String("123".to_string())),
                    }],
                    limit: None,
                }],
            },
        ),
        (
            "nested projection",
            r#"
            find
                 sum(account.amount) + sum(savings.loan) + 100,
                 sum(account.amount)
            limit
                10;
            "#,
            Transaction {
                commands: vec![Command::Find {
                    projections: vec![
                        Projection {
                            alias: "".to_string(),
                            projection: Expression::BinaryOperation {
                                left: Box::new(Expression::Aggregate {
                                    function: Function::Sum,
                                    argument: Box::new(Expression::Attribute {
                                        stream: "account".to_string(),
                                        attribute: "amount".to_string(),
                                    }),
                                }),
                                operator: BinaryOperator::Add,
                                right: Box::new(Expression::BinaryOperation {
                                    left: Box::new(Expression::Aggregate {
                                        function: Function::Sum,
                                        argument: Box::new(Expression::Attribute {
                                            stream: "savings".to_string(),
                                            attribute: "loan".to_string(),
                                        }),
                                    }),
                                    operator: BinaryOperator::Add,
                                    right: Box::new(Expression::Literal(Value::Int(100))),
                                }),
                            },
                        },
                        Projection {
                            alias: "".to_string(),
                            projection: Expression::Aggregate {
                                function: Function::Sum,
                                argument: Box::new(Expression::Attribute {
                                    stream: "account".to_string(),
                                    attribute: "amount".to_string(),
                                }),
                            },
                        },
                    ],
                    predicates: vec![],
                    limit: Some(Limit(10)),
                }],
            },
        ),
    ];

    for (name, input, expected) in test_cases {
        let ast = match parse(input) {
            Ok(a) => a,
            Err(e) => panic!("test cases '{}' failed parsing: {}", name, e.message()),
        };

        assert_eq!(expected, ast)
    }
}
