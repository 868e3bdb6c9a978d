//! The string-command surface: raw splitting, `add` body parsing and
//! `create` body parsing.

use eventdb::operation::add::{parse as parse_add_body, AddEvent, AddEventAttribute};
use eventdb::operation::common;
use eventdb::operation::create::{parse as parse_create_body, CreateOperation};
use eventdb::operation::general::{parse_operation, Operation, OperationType};
use eventdb::schema::{Attribute, AttributeName, Event, EventName, Stream, StreamName};

#[test]
fn general_test_parse_add() {
    let input = r#"
        ADD AccountCreated(owner-name="axel") -> account:123;
    "#;

    let want = Operation {
        op_type: OperationType::Add,
        body: String::from(r#"AccountCreated(owner-name="axel")->account:123"#),
    };

    let got = match parse_operation(input) {
        Ok(o) => o,
        Err(e) => panic!("failed to parse input: {}", e.message()),
    };

    assert_eq!(want, got)
}

#[test]
fn general_test_parse_create() {
    let input = String::from("create event(account, AccountCreated);");

    let want = Operation {
        op_type: OperationType::Create,
        body: String::from("event(account,AccountCreated)"),
    };

    let got = match parse_operation(&input) {
        Ok(o) => o,
        Err(e) => panic!("failed to parse input: {}", e.message()),
    };

    assert_eq!(want, got)
}

#[test]
fn general_test_parse_handle_whitespace() {
    let input = String::from("     create     event(account ,  AccountCreated )  ;");

    let want = Operation {
        op_type: OperationType::Create,
        body: String::from("event(account,AccountCreated)"),
    };

    let got = match parse_operation(&input) {
        Ok(o) => o,
        Err(e) => panic!("failed to parse input: {}", e.message()),
    };

    assert_eq!(want, got)
}

#[test]
fn general_test_parse_create_handle_comment() {
    let input = String::from("create event(account, AccountCreated); // this is a comment");

    let want = Operation {
        op_type: OperationType::Create,
        body: String::from("event(account,AccountCreated)"),
    };

    let got = match parse_operation(&input) {
        Ok(o) => o,
        Err(e) => panic!("failed to parse input: {}", e.message()),
    };

    assert_eq!(want, got)
}

#[test]
fn general_test_parse_create_multiline_w_comments() {
    let input = String::from(
        r#"
            // some comment
            create
                event(
                        account,
                        AccountCreated
                );"#,
    );

    let want = Operation {
        op_type: OperationType::Create,
        body: String::from("event(account,AccountCreated)"),
    };

    let got = match parse_operation(&input) {
        Ok(o) => o,
        Err(e) => panic!("failed to parse input: {}", e.message()),
    };

    assert_eq!(want, got)
}

#[test]
fn general_test_parse_unsupported_operation_type() {
    let input = String::from("NOTSUPPORTED event(account, AccountCreated);");
    match parse_operation(&input) {
        Ok(_) => panic!("expected failure"),
        Err(_) => println!("successfully failed"),
    };
}

#[test]
fn general_test_parse_empty_command() {
    let input = String::from("");
    match parse_operation(&input) {
        Ok(_) => panic!("expected failure"),
        Err(_) => println!("successfully failed"),
    };
}

#[test]
fn general_test_parse_empty_body() {
    let input = String::from("create ;");
    match parse_operation(&input) {
        Ok(_) => panic!("expected failure"),
        Err(_) => println!("successfully failed"),
    };
}

#[test]
fn common_test_parse_add() {
    let input = r#"
        ADD AccountCreated(owner-name="axel") TO account:123;
    "#;

    let want = common::Operation {
        op_type: common::OperationType::Add,
        body: String::from(r#"AccountCreated(owner-name="axel")TOaccount:123"#),
    };

    let got = match common::parse(input) {
        Ok(o) => o,
        Err(e) => panic!("failed to parse input: {}", e.message()),
    };

    assert_eq!(want, got)
}

#[test]
fn common_test_parse_create() {
    let input = String::from("create event(account, AccountCreated);");

    let want = common::Operation {
        op_type: common::OperationType::Create,
        body: String::from("event(account,AccountCreated)"),
    };

    let got = match common::parse(&input) {
        Ok(o) => o,
        Err(e) => panic!("failed to parse input: {}", e.message()),
    };

    assert_eq!(want, got)
}

#[test]
fn common_test_parse_handle_whitespace() {
    let input = String::from("     create     event(account ,  AccountCreated )  ;");

    let want = common::Operation {
        op_type: common::OperationType::Create,
        body: String::from("event(account,AccountCreated)"),
    };

    let got = match common::parse(&input) {
        Ok(o) => o,
        Err(e) => panic!("failed to parse input: {}", e.message()),
    };

    assert_eq!(want, got)
}

#[test]
fn common_test_parse_create_handle_comment() {
    let input = String::from("create event(account, AccountCreated); // this is a comment");

    let want = common::Operation {
        op_type: common::OperationType::Create,
        body: String::from("event(account,AccountCreated)"),
    };

    let got = match common::parse(&input) {
        Ok(o) => o,
        Err(e) => panic!("failed to parse input: {}", e.message()),
    };

    assert_eq!(want, got)
}

#[test]
fn common_test_parse_create_multiline_w_comments() {
    let input = String::from(
        r#"
            // some comment
            create
                event(
                        account,
                        AccountCreated
                );"#,
    );

    let want = common::Operation {
        op_type: common::OperationType::Create,
        body: String::from("event(account,AccountCreated)"),
    };

    let got = match common::parse(&input) {
        Ok(o) => o,
        Err(e) => panic!("failed to parse input: {}", e.message()),
    };

    assert_eq!(want, got)
}

#[test]
fn common_test_parse_unsupported_operation_type() {
    let input = String::from("NOTSUPPORTED event(account, AccountCreated);");
    match common::parse(&input) {
        Ok(_) => panic!("expected failure"),
        Err(_) => println!("successfully failed"),
    };
}

#[test]
fn common_test_parse_empty_command() {
    let input = String::from("");
    match common::parse(&input) {
        Ok(_) => panic!("expected failure"),
        Err(_) => println!("successfully failed"),
    };
}

#[test]
fn common_test_parse_empty_body() {
    let input = String::from("create ;");
    match common::parse(&input) {
        Ok(_) => panic!("expected failure"),
        Err(_) => println!("successfully failed"),
    };
}

#[test]
fn parse_find_general() {}

#[test]
fn add_test_parse_add() {
    let body = String::from(
        r#"AccountCreated(owner-name="axel", created_at="2025-01-02 14:00:00")->account:123"#,
    );

    let expected = AddEvent {
        stream: "account".to_string(),
        key: "123".to_string(),
        event: "AccountCreated".to_string(),
        attributes: vec![
            AddEventAttribute {
                name: "owner-name".to_string(),
                value: "axel".to_string(),
            },
            AddEventAttribute {
                name: "created_at".to_string(),
                value: "2025-01-02 14:00:00".to_string(),
            },
        ],
    };

    let mutations = match parse_add_body(&body) {
        Ok(x) => x,
        Err(_) => panic!("Got error expected none!"),
    };

    assert_eq!(expected, mutations);
}

#[test]
fn test_parse_add_fail() {
    let body = String::from(
        r#"AccountCreated(owner-name="axel", created_at="2025-01-02 14:00:00")account:123"#,
    );

    match parse_add_body(&body) {
        Ok(_) => panic!("expect to fail parsing"),
        Err(_) => println!("got expected error!"),
    };
}

#[test]
fn test_parse_add_fail_case2() {
    let body = String::from(
        r#"AccountCreatedowner-name="axel", created_at="2025-01-02 14:00:00")account:123"#,
    );

    match parse_add_body(&body) {
        Ok(_) => panic!("expect to fail parsing"),
        Err(_) => println!("got expected error!"),
    };
}

#[test]
fn test_parse_create_stream() {
    let input = String::from("stream(account,account-id)");

    let result = match parse_create_body(&input) {
        Ok(value) => value,
        Err(error) => {
            panic!("Test failed due to error: {:?}", error.message());
        },
    };

    let expected = CreateOperation::CreateStream(Stream {
        name: StreamName("account".to_string()),
        key: "account-id".to_string(),
    });

    assert_eq!(expected, result)
}

#[test]
fn test_parse_create_event() {
    let input = String::from("event(account,AccountCreated)");

    let result = match parse_create_body(&input) {
        Ok(value) => value,
        Err(error) => {
            panic!("Test failed due to error: {:?}", error.message());
        },
    };

    let expected = CreateOperation::CreateEvent(Event {
        name: EventName("AccountCreated".to_string()),
        stream_name: StreamName("account".to_string()),
    });

    assert_eq!(expected, result)
}

#[test]
fn test_parse_create_attribute() {
    let input = String::from("attribute(account,AccountCreated,owner-name,true,string)");

    let result = match parse_create_body(&input) {
        Ok(value) => value,
        Err(error) => {
            panic!("Test failed due to error: {:?}", error.message());
        },
    };

    let expected = CreateOperation::CreateAttribute(Attribute {
        name: AttributeName("owner-name".to_string()),
        event_name: EventName("AccountCreated".to_string()),
        stream_name: StreamName("account".to_string()),
        required: true,
        attribute_type: "string".to_string(),
    });

    assert_eq!(expected, result)
}
