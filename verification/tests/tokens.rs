//! The tokenizer: token streams for every command shape, the error on a
//! missing terminator, and the neutrality of whitespace and comments.

use eventdb::tokenizer::{tokenize, Function, Keyword, Operator, Token};

fn all_tokens(input: &str) -> Vec<Token> {
    let mut tokens = tokenize(input);
    let mut out = Vec::new();
    loop {
        match tokens.next() {
            Ok(t) => out.push(t),
            Err(_) => return out,
        }
    }
}

#[test]
fn test_fail_with_missing_eof() {
    let test_cases = vec![("missing semicolon", "show schema", 2)];

    for (test_name, input, expected_token_count) in test_cases {
        let mut tokens = tokenize(input);

        for _ in 0..expected_token_count {
            tokens.next().unwrap();
        }

        match tokens.next() {
            Ok(_) => panic!("Expected error was not raised in test case: {}", test_name),
            Err(e) => println!(
                "Expected error was raised in test case {}: {:?}",
                test_name, e
            ),
        }
    }
}

#[test]
fn test_show() {
    let test_cases = vec![
        (
            "normal",
            "show schema;",
            vec![
                Token::Keyword(Keyword::Show),
                Token::Identifier("schema".to_string()),
                Token::EOF,
            ],
        ),
        (
            "with spaces",
            "show     schema;",
            vec![
                Token::Keyword(Keyword::Show),
                Token::Identifier("schema".to_string()),
                Token::EOF,
            ],
        ),
        (
            "with newline",
            "show
             schema;",
            vec![
                Token::Keyword(Keyword::Show),
                Token::Identifier("schema".to_string()),
                Token::EOF,
            ],
        ),
    ];

    for (test_name, input, expected_tokens) in test_cases {
        let mut tokens = tokenize(input);

        for expected_token in expected_tokens {
            assert_eq!(
                tokens.next().unwrap(),
                expected_token,
                "Failed in test case: {}",
                test_name
            );
        }
    }
}

#[test]
fn tokenizer_test_create_stream() {
    let test_cases = vec![
        (
            "normal",
            "create stream account;",
            vec![
                Token::Keyword(Keyword::Create),
                Token::Identifier("stream".to_string()),
                Token::Identifier("account".to_string()),
                Token::EOF,
            ],
        ),
        (
            "with spaces",
            "create    stream   account;",
            vec![
                Token::Keyword(Keyword::Create),
                Token::Identifier("stream".to_string()),
                Token::Identifier("account".to_string()),
                Token::EOF,
            ],
        ),
        (
            "with newline",
            "create
             stream

             account;",
            vec![
                Token::Keyword(Keyword::Create),
                Token::Identifier("stream".to_string()),
                Token::Identifier("account".to_string()),
                Token::EOF,
            ],
        ),
    ];

    for (test_name, input, expected_tokens) in test_cases {
        let mut tokens = tokenize(input);

        for expected_token in expected_tokens {
            assert_eq!(
                tokens.next().unwrap(),
                expected_token,
                "Failed in test case: {}",
                test_name
            );
        }
    }
}

#[test]
fn create_event() {
    let test_cases = vec![
        (
            "create event statement",
            "
                create event AccountCreated(
                    owner string
                ) on account;",
            vec![
                Token::Keyword(Keyword::Create),
                Token::Identifier("event".to_string()),
                Token::Identifier("AccountCreated".to_string()),
                Token::GroupStart,
                Token::Identifier("owner".to_string()),
                Token::Identifier("string".to_string()),
                Token::GroupEnd,
                Token::AuxiliaryOn,
                Token::Identifier("account".to_string()),
                Token::EOF,
            ],
        ),
        (
            "create event multiple attributes",
            "
                create event AccountCreated(
                    owner string,
                    ammount int
                ) on account;",
            vec![
                Token::Keyword(Keyword::Create),
                Token::Identifier("event".to_string()),
                Token::Identifier("AccountCreated".to_string()),
                Token::GroupStart,
                Token::Identifier("owner".to_string()),
                Token::Identifier("string".to_string()),
                Token::Seperator,
                Token::Identifier("ammount".to_string()),
                Token::Identifier("int".to_string()),
                Token::GroupEnd,
                Token::AuxiliaryOn,
                Token::Identifier("account".to_string()),
                Token::EOF,
            ],
        ),
    ];

    for (test_name, input, expected_tokens) in test_cases {
        let mut tokens = tokenize(input);

        for expected_token in expected_tokens {
            assert_eq!(
                tokens.next().unwrap(),
                expected_token,
                "Failed in test case: {}",
                test_name
            );
        }
    }
}

#[test]
fn add_event() {
    let test_cases = vec![
        (
            "add event to account",
            r#"add AccountCreated(user_id="123", inital_amount=100.59, currency="SEK") to account(id="123");"#,
            vec![
                Token::Keyword(Keyword::Add),
                Token::Identifier("AccountCreated".to_string()),
                Token::GroupStart,
                Token::Identifier("user_id".to_string()),
                Token::Assign,
                Token::LiteralStr("123".to_string()),
                Token::Seperator,
                Token::Identifier("inital_amount".to_string()),
                Token::Assign,
                Token::LiteralFloat("100.59".to_string()),
                Token::Seperator,
                Token::Identifier("currency".to_string()),
                Token::Assign,
                Token::LiteralStr("SEK".to_string()),
                Token::GroupEnd,
                Token::AuxiliaryTo,
                Token::Identifier("account".to_string()),
                Token::GroupStart,
                Token::Identifier("id".to_string()),
                Token::Assign,
                Token::LiteralStr("123".to_string()),
                Token::GroupEnd,
                Token::EOF,
            ],
        ),
        (
            "add event to accounti (int amount)",
            r#"add AccountCreated(inital_amount=100) to account(id="123");"#,
            vec![
                Token::Keyword(Keyword::Add),
                Token::Identifier("AccountCreated".to_string()),
                Token::GroupStart,
                Token::Identifier("inital_amount".to_string()),
                Token::Assign,
                Token::LiteralInt(100),
                Token::GroupEnd,
                Token::AuxiliaryTo,
                Token::Identifier("account".to_string()),
                Token::GroupStart,
                Token::Identifier("id".to_string()),
                Token::Assign,
                Token::LiteralStr("123".to_string()),
                Token::GroupEnd,
                Token::EOF,
            ],
        ),
        (
            "add event to account handles spaces and newlines",
            r#"add AccountCreated(
                        inital_amount   =100
                        )
                to account(id="123");"#,
            vec![
                Token::Keyword(Keyword::Add),
                Token::Identifier("AccountCreated".to_string()),
                Token::GroupStart,
                Token::Identifier("inital_amount".to_string()),
                Token::Assign,
                Token::LiteralInt(100),
                Token::GroupEnd,
                Token::AuxiliaryTo,
                Token::Identifier("account".to_string()),
                Token::GroupStart,
                Token::Identifier("id".to_string()),
                Token::Assign,
                Token::LiteralStr("123".to_string()),
                Token::GroupEnd,
                Token::EOF,
            ],
        ),
    ];

    for (test_name, input, expected_tokens) in test_cases {
        let mut tokens = tokenize(input);

        for expected_token in expected_tokens {
            assert_eq!(
                tokens.next().unwrap(),
                expected_token,
                "Failed in test case: {}",
                test_name
            );
        }

        assert_eq!(
            tokens.next().is_err(),
            true,
            "Should error after all tokens in test: {}",
            test_name
        );
    }
}

#[test]
fn test_find() {
    let test_cases = vec![
        (
            "simple find",
            "
                find
                     account.user_id
                limit
                    10;
                    ",
            vec![
                Token::Keyword(Keyword::Find),
                Token::Identifier("account".to_string()),
                Token::Accessor,
                Token::Identifier("user_id".to_string()),
                Token::Keyword(Keyword::Limit),
                Token::LiteralInt(10),
                Token::EOF,
            ],
        ),
        (
            "with aggregation",
            "
                find sum(account.amount);
                ",
            vec![
                Token::Keyword(Keyword::Find),
                Token::Function(Function::Sum),
                Token::GroupStart,
                Token::Identifier("account".to_string()),
                Token::Accessor,
                Token::Identifier("amount".to_string()),
                Token::GroupEnd,
                Token::EOF,
            ],
        ),
        (
            "where clause",
            r#"
                find
                    account.user_id
                where
                    sum(account.amount) > 100;
                "#,
            vec![
                Token::Keyword(Keyword::Find),
                Token::Identifier("account".to_string()),
                Token::Accessor,
                Token::Identifier("user_id".to_string()),
                Token::Keyword(Keyword::Where),
                Token::Function(Function::Sum),
                Token::GroupStart,
                Token::Identifier("account".to_string()),
                Token::Accessor,
                Token::Identifier("amount".to_string()),
                Token::GroupEnd,
                Token::Operator(Operator::Greater),
                Token::LiteralInt(100),
                Token::EOF,
            ],
        ),
        (
            "more filters",
            r#"
                find
                    account.user_id
                where
                    sum(account.amount) > 100,
                    account.created_at <= "2024-01-02",
                    account.type == "savings";
                "#,
            vec![
                Token::Keyword(Keyword::Find),
                Token::Identifier("account".to_string()),
                Token::Accessor,
                Token::Identifier("user_id".to_string()),
                Token::Keyword(Keyword::Where),
                Token::Function(Function::Sum),
                Token::GroupStart,
                Token::Identifier("account".to_string()),
                Token::Accessor,
                Token::Identifier("amount".to_string()),
                Token::GroupEnd,
                Token::Operator(Operator::Greater),
                Token::LiteralInt(100),
                Token::Seperator,
                Token::Identifier("account".to_string()),
                Token::Accessor,
                Token::Identifier("created_at".to_string()),
                Token::Operator(Operator::LessOrEqual),
                Token::LiteralStr("2024-01-02".to_string()),
                Token::Seperator,
                Token::Identifier("account".to_string()),
                Token::Accessor,
                Token::Identifier("type".to_string()),
                Token::Operator(Operator::Equal),
                Token::LiteralStr("savings".to_string()),
                Token::EOF,
            ],
        ),
        (
            "multiple selector",
            r#"
                find
                    "test",
                    account.user_id,
                    sum(account.amount);
                "#,
            vec![
                Token::Keyword(Keyword::Find),
                Token::LiteralStr("test".to_string()),
                Token::Seperator,
                Token::Identifier("account".to_string()),
                Token::Accessor,
                Token::Identifier("user_id".to_string()),
                Token::Seperator,
                Token::Function(Function::Sum),
                Token::GroupStart,
                Token::Identifier("account".to_string()),
                Token::Accessor,
                Token::Identifier("amount".to_string()),
                Token::GroupEnd,
                Token::EOF,
            ],
        ),
    ];

    for (test_name, input, expected_tokens) in test_cases {
        let mut tokens = tokenize(input);
        for expected_token in expected_tokens {
            let t = tokens.next().unwrap();
            assert_eq!(t, expected_token, "Failed in test case: {}", test_name);
        }
    }
}

#[test]
fn test_retokenize_canonical() {
    let messy = "create   event AccountCreated(   owner string ,amount int)on account ;";
    let canonical = "create event AccountCreated ( owner string , amount int ) on account ;";
    assert_eq!(all_tokens(messy), all_tokens(canonical));
}

#[test]
fn test_whitespace_neutrality() {
    let plain = "add AccountCreated(owner=\"a\") to account(id=\"1\");";
    let spaced = "add \t AccountCreated (  owner =  \"a\" )   to account ( id = \"1\" )  ;";
    assert_eq!(all_tokens(plain), all_tokens(spaced));
}

#[test]
fn test_comment_neutrality() {
    let plain = "create stream account;";
    let commented = "// leading comment\ncreate // mid comment\nstream account;";
    assert_eq!(all_tokens(plain), all_tokens(commented));
}

#[test]
fn test_operators_and_bools() {
    assert_eq!(
        all_tokens("a.b != true"),
        vec![
            Token::Identifier("a".to_string()),
            Token::Accessor,
            Token::Identifier("b".to_string()),
            Token::Operator(Operator::NotEqual),
            Token::LiteralBool(true),
        ]
    );
    assert_eq!(
        all_tokens("1 % 2 / 3"),
        vec![
            Token::LiteralInt(1),
            Token::Operator(Operator::Modulus),
            Token::LiteralInt(2),
            Token::Operator(Operator::Divide),
            Token::LiteralInt(3),
        ]
    );
}

#[test]
fn test_unterminated_string_fails() {
    let mut tokens = tokenize("add \"unterminated");
    assert!(tokens.next().is_ok());
    assert!(tokens.next().is_err());
}

#[test]
fn test_int_overflow_fails() {
    let mut tokens = tokenize("99999999999999999999;");
    assert!(tokens.next().is_err());
}
