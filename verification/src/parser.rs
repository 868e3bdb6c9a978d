//! The token-based command parser: recursive descent over the token
//! stream with one token of lookahead, producing the command AST.
//!
//! `cmd_rel` pins what a returned AST means for every command: the exact
//! token shape it was read from, down to the `;` sentinel — for `find`,
//! the projections, predicates and optional limit, with the expression
//! grammar read right-associatively with no precedence table and each
//! operator mapped by `binary_of`. Conversely `parse` promises success
//! whenever the tokens carry a `show`, `create` or `add` shape; success
//! on `find` input is the one direction left unstated.

pub mod schema;

use vstd::prelude::*;
use crate::ast::{
    AttributeDefinition, AttributeValue, Command, Entity, Event, Expression, Limit, Predicate,
    Projection, Transaction, Value,
};
use crate::tokenizer::{tokenize, spec_tokens, views, Function, Keyword, Operator, SpecToken, Token};

verus! {

#[derive(Debug)]
pub struct ParserError {
    message: String,
}

impl ParserError {
    pub fn new(message: &str) -> (r: Self) {
        ParserError { message: message.to_owned() }
    }

    /// The text of the error.
    pub fn message(&self) -> &str {
        self.message.as_str()
    }
}

/// Whether a literal token denotes this value: strings, ints, floats (by
/// their lexeme) and booleans, with nothing else accepted.
pub open spec fn value_rel(t: SpecToken, v: Value) -> bool {
    match t {
        SpecToken::LiteralStr(s) => v matches Value::String(x) && x@ == s,
        SpecToken::LiteralInt(n) => v matches Value::Int(x) && x as int == n,
        SpecToken::LiteralFloat(s) => v matches Value::Float(x) && x@ == s,
        SpecToken::LiteralBool(b) => v == (Value::Bool(b)),
        _ => false,
    }
}

/// The attribute declarations of a `create event`, read from `i` up to
/// the `GroupEnd` at `end`: pairs of identifiers, with an optional
/// separator after each pair.
pub open spec fn attr_defs_rel(
    ts: Seq<SpecToken>,
    i: int,
    defs: Seq<AttributeDefinition>,
    end: int,
) -> bool
    decreases defs.len(),
{
    if defs.len() == 0 {
        i == end
    } else {
        &&& i + 2 <= end <= ts.len()
        &&& ts[i] matches SpecToken::Identifier(nm) && defs[0].name@ == nm
        &&& ts[i + 1] matches SpecToken::Identifier(dt) && defs[0].data_type@ == dt
        &&& if i + 2 < end && ts[i + 2] == SpecToken::Seperator {
            attr_defs_rel(ts, i + 3, defs.drop_first(), end)
        } else {
            attr_defs_rel(ts, i + 2, defs.drop_first(), end)
        }
    }
}

/// The attribute values of an `add`, read from `i` up to the `GroupEnd`
/// at `end`: `name = literal` groups, with an optional separator after
/// each.
pub open spec fn attr_vals_rel(
    ts: Seq<SpecToken>,
    i: int,
    vals: Seq<AttributeValue>,
    end: int,
) -> bool
    decreases vals.len(),
{
    if vals.len() == 0 {
        i == end
    } else {
        &&& i + 3 <= end <= ts.len()
        &&& ts[i] matches SpecToken::Identifier(nm) && vals[0].name@ == nm
        &&& ts[i + 1] == SpecToken::Assign
        &&& value_rel(ts[i + 2], vals[0].value)
        &&& if i + 3 < end && ts[i + 3] == SpecToken::Seperator {
            attr_vals_rel(ts, i + 4, vals.drop_first(), end)
        } else {
            attr_vals_rel(ts, i + 3, vals.drop_first(), end)
        }
    }
}

/// The token-level function name an AST aggregate came from.
pub open spec fn fn_token_of(f: crate::ast::Function) -> Function {
    match f {
        crate::ast::Function::Sum => Function::Sum,
        crate::ast::Function::Max => Function::Max,
        crate::ast::Function::Min => Function::Min,
        crate::ast::Function::Avg => Function::Avg,
        crate::ast::Function::Count => Function::Count,
    }
}

/// A primary expression read from tokens `i .. j`: a literal, a
/// `stream.attribute` access, or an aggregate call.
pub open spec fn prim_rel(ts: Seq<SpecToken>, i: int, e: Expression, j: int) -> bool
    decreases e, 0int,
{
    match e {
        Expression::Literal(v) => j == i + 1 && 0 <= i < ts.len() && value_rel(ts[i], v),
        Expression::Attribute { stream, attribute } => {
            &&& j == i + 3
            &&& 0 <= i && i + 2 < ts.len()
            &&& ts[i] == SpecToken::Identifier(stream@)
            &&& ts[i + 1] == SpecToken::Accessor
            &&& ts[i + 2] == SpecToken::Identifier(attribute@)
        },
        Expression::Aggregate { function, argument } => exists|k: int|
            #![trigger ts[k]]
            {
                &&& 0 <= i && i + 1 < ts.len()
                &&& ts[i] == SpecToken::Function(fn_token_of(function))
                &&& ts[i + 1] == SpecToken::GroupStart
                &&& expr_rel(ts, i + 2, *argument, k)
                &&& k < ts.len()
                &&& ts[k] == SpecToken::GroupEnd
                &&& j == k + 1
            },
        _ => false,
    }
}

/// An expression read from tokens `i .. j`: a `+`/`-` chain over
/// primaries, nested to the right with no precedence, each operator the
/// one its token names; or a lone primary not followed by `+`/`-`.
pub open spec fn expr_rel(ts: Seq<SpecToken>, i: int, e: Expression, j: int) -> bool
    decreases e, 1int,
{
    match e {
        Expression::BinaryOperation { left, operator, right } => exists|m: int|
            #![trigger ts[m]]
            {
                &&& prim_rel(ts, i, *left, m)
                &&& m < ts.len()
                &&& ((ts[m] == SpecToken::Operator(Operator::Add) && operator
                    == crate::ast::BinaryOperator::Add) || (ts[m] == SpecToken::Operator(
                    Operator::Subtract,
                ) && operator == crate::ast::BinaryOperator::Subtract))
                &&& #[trigger] expr_rel(ts, m + 1, *right, j)
            },
        _ => prim_rel(ts, i, e, j) && (j >= ts.len() || !(ts[j] == SpecToken::Operator(
            Operator::Add,
        ) || ts[j] == SpecToken::Operator(Operator::Subtract))),
    }
}

/// A projection list read from tokens `i .. j`: expressions with empty
/// aliases, a separator consumed after one when the next token is one.
pub open spec fn projections_rel(ts: Seq<SpecToken>, i: int, ps: Seq<Projection>, j: int) -> bool
    decreases ps.len(),
{
    if ps.len() == 0 {
        i == j
    } else {
        &&& ps[0].alias@ =~= Seq::<char>::empty()
        &&& exists|k: int|
            #![trigger ts[k]]
            {
                &&& expr_rel(ts, i, ps[0].projection, k)
                &&& if k < ts.len() && ts[k] == SpecToken::Seperator {
                    projections_rel(ts, k + 1, ps.drop_first(), j)
                } else {
                    projections_rel(ts, k, ps.drop_first(), j)
                }
            }
    }
}

/// A predicate list read from tokens `i .. j`: `EXPR OP EXPR` groups,
/// each operator mapped by `binary_of`, separators as in projections.
pub open spec fn predicates_rel(ts: Seq<SpecToken>, i: int, ps: Seq<Predicate>, j: int) -> bool
    decreases ps.len(),
{
    if ps.len() == 0 {
        i == j
    } else {
        ps[0] matches Predicate::BinaryOperation { left, operator, right } && (exists|
            m: int,
            o: Operator,
            k: int,
        |
            #![trigger ts[m], ts[k], binary_of(o)]
            {
                &&& expr_rel(ts, i, left, m)
                &&& operator == binary_of(o)
                &&& expr_rel(ts, m + 1, right, k)
                &&& m < ts.len()
                &&& ts[m] == SpecToken::Operator(o)
                &&& if k < ts.len() && ts[k] == SpecToken::Seperator {
                    predicates_rel(ts, k + 1, ps.drop_first(), j)
                } else {
                    predicates_rel(ts, k, ps.drop_first(), j)
                }
            })
    }
}

/// What a parsed command means over the token stream it was read from.
/// The three schema-and-append commands are pinned exactly; a `find`
/// command is pinned only to its kind.
pub open spec fn cmd_rel(ts: Seq<SpecToken>, c: Command) -> bool {
    match c {
        Command::Show { entity } => {
            &&& ts.len() >= 3
            &&& ts[0] == SpecToken::Keyword(Keyword::Show)
            &&& ts[1] == SpecToken::Identifier("schema"@)
            &&& ts[2] == SpecToken::EOF
            &&& entity is Schema
        },
        Command::Create { entity } => {
            &&& ts.len() >= 2
            &&& ts[0] == SpecToken::Keyword(Keyword::Create)
            &&& match entity {
                Entity::Schema => false,
                Entity::Stream(name) => {
                    &&& ts.len() >= 4
                    &&& ts[1] == SpecToken::Identifier("stream"@)
                    &&& ts[2] == SpecToken::Identifier(name@)
                    &&& ts[3] == SpecToken::EOF
                },
                Entity::Event { name, stream, attributes } => {
                    &&& ts[1] == SpecToken::Identifier("event"@)
                    &&& exists|end: int|
                        {
                            &&& 4 <= end
                            &&& end + 3 < ts.len()
                            &&& ts[2] == SpecToken::Identifier(name@)
                            &&& ts[3] == SpecToken::GroupStart
                            &&& #[trigger] attr_defs_rel(ts, 4, attributes@, end)
                            &&& ts[end] == SpecToken::GroupEnd
                            &&& ts[end + 1] == SpecToken::AuxiliaryOn
                            &&& ts[end + 2] == SpecToken::Identifier(stream@)
                            &&& ts[end + 3] == SpecToken::EOF
                        }
                },
            }
        },
        Command::Add { event, stream, stream_id } => {
            &&& ts.len() >= 3
            &&& ts[0] == SpecToken::Keyword(Keyword::Add)
            &&& ts[1] == SpecToken::Identifier(event.name@)
            &&& ts[2] == SpecToken::GroupStart
            &&& exists|end: int|
                {
                    &&& 3 <= end
                    &&& end + 8 < ts.len()
                    &&& #[trigger] attr_vals_rel(ts, 3, event.values@, end)
                    &&& ts[end] == SpecToken::GroupEnd
                    &&& ts[end + 1] == SpecToken::AuxiliaryTo
                    &&& ts[end + 2] == SpecToken::Identifier(stream@)
                    &&& ts[end + 3] == SpecToken::GroupStart
                    &&& ts[end + 4] is Identifier
                    &&& ts[end + 5] == SpecToken::Assign
                    &&& ts[end + 6] == SpecToken::LiteralStr(stream_id@)
                    &&& ts[end + 7] == SpecToken::GroupEnd
                    &&& ts[end + 8] == SpecToken::EOF
                }
        },
        Command::Find { projections, predicates, limit } => {
            &&& ts.len() >= 1
            &&& ts[0] == SpecToken::Keyword(Keyword::Find)
            &&& exists|a: int, b: int, c2: int|
                #![trigger projections_rel(ts, 1, projections@, a), ts[b], ts[c2]]
                {
                    &&& projections_rel(ts, 1, projections@, a)
                    &&& ((a < ts.len() && ts[a] == SpecToken::Keyword(Keyword::Where)
                        && predicates_rel(ts, a + 1, predicates@, b)) || (predicates@.len() == 0
                        && b == a && a < ts.len() && ts[a] != SpecToken::Keyword(Keyword::Where)))
                    &&& ((limit matches Some(l) && b < ts.len() && ts[b] == SpecToken::Keyword(
                        Keyword::Limit,
                    ) && b + 1 < ts.len() && ts[b + 1] == SpecToken::LiteralInt(l.0 as int) && c2
                        == b + 2) || (limit is None && c2 == b && b < ts.len() && ts[b]
                        != SpecToken::Keyword(Keyword::Limit)))
                    &&& c2 < ts.len()
                    &&& ts[c2] == SpecToken::EOF
                }
        },
    }
}

/// Parses one command from the input. A returned transaction holds
/// exactly one command, and that command stands in `cmd_rel` to the
/// input's token stream: the `show`, `create` and `add` shapes are what
/// the AST claims they were. Conversely, whenever the token stream
/// carries a `show`, `create` or `add` shape, parsing succeeds; only for
/// `find` is success left unstated.
pub fn parse(input: &str) -> (r: Result<Transaction, ParserError>)
    ensures
        r matches Ok(tr) ==> tr.commands@.len() == 1 && cmd_rel(
            spec_tokens(input@, 0).0,
            tr.commands@[0],
        ),
        (exists|c: Command| #[trigger] cmd_rel(spec_tokens(input@, 0).0, c) && !(c is Find))
            ==> r is Ok,
{
    let tokens = tokenize(input);
    let ghost ts = spec_tokens(input@, 0).0;
    proof {
        assert(views(tokens.toks@) == ts);
    }
    let toks = &tokens.toks;
    if toks.len() == 0 {
        return Err(ParserError::new("empty input"));
    }
    proof {
        assert(ts[0] == toks@[0]@);
    }
    let cmd = match &toks[0] {
        Token::Keyword(Keyword::Show) => match parse_show(toks) {
            Ok(c) => c,
            Err(e) => {
                return Err(e);
            },
        },
        Token::Keyword(Keyword::Create) => match parse_create(toks) {
            Ok(c) => c,
            Err(e) => {
                return Err(e);
            },
        },
        Token::Keyword(Keyword::Add) => match parse_add(toks) {
            Ok(c) => c,
            Err(e) => {
                return Err(e);
            },
        },
        Token::Keyword(Keyword::Find) => match parse_find(toks) {
            Ok(c) => c,
            Err(e) => {
                return Err(e);
            },
        },
        _ => {
            return Err(ParserError::new("got unexpected token"));
        },
    };
    let mut commands: Vec<Command> = Vec::new();
    commands.push(cmd);
    Ok(Transaction { commands })
}

/// Reads `show schema ;`, succeeding exactly on that token shape.
fn parse_show(toks: &Vec<Token>) -> (r: Result<Command, ParserError>)
    requires
        toks@.len() >= 1,
        views(toks@)[0] == SpecToken::Keyword(Keyword::Show),
    ensures
        r matches Ok(c) ==> cmd_rel(views(toks@), c),
        views(toks@).len() >= 3 && views(toks@)[1] == SpecToken::Identifier("schema"@) && views(
            toks@,
        )[2] == SpecToken::EOF ==> r is Ok,
{
    proof {
        if toks@.len() >= 3 {
            assert(views(toks@)[1] == toks@[1]@);
            assert(views(toks@)[2] == toks@[2]@);
        }
    }
    if toks.len() < 3 {
        return Err(ParserError::new("unexpected end of input"));
    }
    match &toks[1] {
        Token::Identifier(name) => {
            if !crate::text::string_is(name, "schema") {
                return Err(ParserError::new("unsupported entity type"));
            }
        },
        _ => {
            return Err(ParserError::new("expected an identifier"));
        },
    }
    match &toks[2] {
        Token::EOF => {},
        _ => {
            return Err(ParserError::new("expected end of command"));
        },
    }
    Ok(Command::Show { entity: Entity::Schema })
}

/// The rest of a `create event` attribute list seen from position `i`:
/// declarations up to a closing parenthesis, with `on IDENT ;` after it.
spec fn event_tail_shape(ts: Seq<SpecToken>, i: int) -> bool {
    exists|defs2: Seq<AttributeDefinition>, end2: int|
        {
            &&& #[trigger] attr_defs_rel(ts, i, defs2, end2)
            &&& end2 + 3 < ts.len()
            &&& ts[end2] == SpecToken::GroupEnd
            &&& ts[end2 + 1] == SpecToken::AuxiliaryOn
            &&& ts[end2 + 2] is Identifier
            &&& ts[end2 + 3] == SpecToken::EOF
        }
}

/// At any position of the shape, the scan either sits on the closing
/// parenthesis with the tail laid out after it, or on a declaration pair.
proof fn lemma_event_shape_cases(ts: Seq<SpecToken>, i: int)
    requires
        event_tail_shape(ts, i),
    ensures
        (ts[i] == SpecToken::GroupEnd && i + 3 < ts.len() && ts[i + 1] == SpecToken::AuxiliaryOn
            && ts[i + 2] is Identifier && ts[i + 3] == SpecToken::EOF) || (i + 2 < ts.len()
            && ts[i] is Identifier && ts[i + 1] is Identifier),
{
    let (defs2, end2) = choose|defs2: Seq<AttributeDefinition>, end2: int|
        {
            &&& #[trigger] attr_defs_rel(ts, i, defs2, end2)
            &&& end2 + 3 < ts.len()
            &&& ts[end2] == SpecToken::GroupEnd
            &&& ts[end2 + 1] == SpecToken::AuxiliaryOn
            &&& ts[end2 + 2] is Identifier
            &&& ts[end2 + 3] == SpecToken::EOF
        };
    if defs2.len() == 0 {
        assert(i == end2);
    }
}

/// Past one declaration pair (and its separator, when the next token is
/// one), the shape still holds.
proof fn lemma_event_shape_step(ts: Seq<SpecToken>, i: int)
    requires
        event_tail_shape(ts, i),
        ts[i] is Identifier,
    ensures
        i + 2 < ts.len(),
        ts[i + 2] == SpecToken::Seperator ==> event_tail_shape(ts, i + 3),
        ts[i + 2] != SpecToken::Seperator ==> event_tail_shape(ts, i + 2),
{
    let (defs2, end2) = choose|defs2: Seq<AttributeDefinition>, end2: int|
        {
            &&& #[trigger] attr_defs_rel(ts, i, defs2, end2)
            &&& end2 + 3 < ts.len()
            &&& ts[end2] == SpecToken::GroupEnd
            &&& ts[end2 + 1] == SpecToken::AuxiliaryOn
            &&& ts[end2 + 2] is Identifier
            &&& ts[end2 + 3] == SpecToken::EOF
        };
    assert(defs2.len() > 0) by {
        if defs2.len() == 0 {
            assert(ts[i] == SpecToken::GroupEnd);
        }
    }
    assert(i + 2 <= end2 < ts.len());
    if ts[i + 2] == SpecToken::Seperator {
        assert(i + 2 < end2) by {
            if i + 2 == end2 {
                assert(ts[end2] == SpecToken::GroupEnd);
            }
        }
        assert(attr_defs_rel(ts, i + 3, defs2.drop_first(), end2));
    } else {
        assert(attr_defs_rel(ts, i + 2, defs2.drop_first(), end2));
    }
}

/// Reads `create stream IDENT ;` or
/// `create event IDENT ( IDENT IDENT {, IDENT IDENT} ) on IDENT ;`,
/// succeeding exactly on those shapes.
#[verifier::rlimit(100)]
fn parse_create(toks: &Vec<Token>) -> (r: Result<Command, ParserError>)
    requires
        toks@.len() >= 1,
        views(toks@)[0] == SpecToken::Keyword(Keyword::Create),
    ensures
        r matches Ok(c) ==> cmd_rel(views(toks@), c),
        (exists|c: Command| #[trigger] cmd_rel(views(toks@), c) && c is Create) ==> r is Ok,
{
    let ghost ts = views(toks@);
    proof {
        reveal_strlit("stream");
        reveal_strlit("event");
        assert("stream"@.len() == 6 && "event"@.len() == 5);
        assert("stream"@ != "event"@);
        if toks@.len() > 1 {
            assert(ts[1] == toks@[1]@);
        }
        if toks@.len() > 2 {
            assert(ts[2] == toks@[2]@);
        }
        if toks@.len() > 3 {
            assert(ts[3] == toks@[3]@);
        }
    }
    if toks.len() < 2 {
        return Err(ParserError::new("unexpected end of input"));
    }
    let is_stream = match &toks[1] {
        Token::Identifier(w) => crate::text::string_is(w, "stream"),
        _ => false,
    };
    let is_event = match &toks[1] {
        Token::Identifier(w) => crate::text::string_is(w, "event"),
        _ => false,
    };
    if is_stream {
        if toks.len() < 4 {
            return Err(ParserError::new("unexpected end of input"));
        }
        let name = match &toks[2] {
            Token::Identifier(n) => n.clone(),
            _ => {
                return Err(ParserError::new("expected a stream name"));
            },
        };
        match &toks[3] {
            Token::EOF => {},
            _ => {
                return Err(ParserError::new("expected end of command"));
            },
        }
        return Ok(Command::Create { entity: Entity::Stream(name) });
    }
    if !is_event {
        return Err(ParserError::new("got unsupported entity"));
    }
    if toks.len() < 4 {
        return Err(ParserError::new("unexpected end of input"));
    }
    let name = match &toks[2] {
        Token::Identifier(n) => n.clone(),
        _ => {
            return Err(ParserError::new("expected an event name"));
        },
    };
    match &toks[3] {
        Token::GroupStart => {},
        _ => {
            return Err(ParserError::new("expected an attribute list"));
        },
    }
    proof {
        if exists|c: Command| #[trigger] cmd_rel(ts, c) && c is Create {
            let c0 = choose|c: Command| #[trigger] cmd_rel(ts, c) && c is Create;
            assert(event_tail_shape(ts, 4));
        }
    }
    let mut attributes: Vec<AttributeDefinition> = Vec::new();
    let mut i: usize = 4;
    loop
        invariant
            4 <= i <= toks@.len(),
            ts == views(toks@),
            toks@.len() == ts.len(),
            ts[0] == SpecToken::Keyword(Keyword::Create),
            ts[1] == SpecToken::Identifier("event"@),
            ts[2] == SpecToken::Identifier(name@),
            ts[3] == SpecToken::GroupStart,
            forall|defs2: Seq<AttributeDefinition>, end2: int|
                #[trigger] attr_defs_rel(ts, i as int, defs2, end2) ==> attr_defs_rel(
                    ts,
                    4,
                    attributes@ + defs2,
                    end2,
                ),
            (exists|c: Command| #[trigger] cmd_rel(ts, c) && c is Create) ==> event_tail_shape(
                ts,
                i as int,
            ),
        decreases toks@.len() - i,
    {
        proof {
            if i < toks@.len() {
                assert(ts[i as int] == toks@[i as int]@);
            }
            if exists|c: Command| #[trigger] cmd_rel(ts, c) && c is Create {
                lemma_event_shape_cases(ts, i as int);
            }
        }
        if i >= toks.len() {
            return Err(ParserError::new("unexpected end of input"));
        }
        let at_end = match &toks[i] {
            Token::GroupEnd => true,
            _ => false,
        };
        if at_end {
            if toks.len() - i < 4 {
                return Err(ParserError::new("unexpected end of input"));
            }
            proof {
                assert(ts[i + 1] == toks@[i + 1]@);
                assert(ts[i + 2] == toks@[i + 2]@);
                assert(ts[i + 3] == toks@[i + 3]@);
            }
            match &toks[i + 1] {
                Token::AuxiliaryOn => {},
                _ => {
                    return Err(ParserError::new("expected on"));
                },
            }
            let stream = match &toks[i + 2] {
                Token::Identifier(n) => n.clone(),
                _ => {
                    return Err(ParserError::new("expected a stream name"));
                },
            };
            match &toks[i + 3] {
                Token::EOF => {},
                _ => {
                    return Err(ParserError::new("expected end of command"));
                },
            }
            proof {
                assert(attr_defs_rel(ts, i as int, Seq::<AttributeDefinition>::empty(), i as int));
                assert(attributes@ + Seq::<AttributeDefinition>::empty() =~= attributes@);
                assert(attr_defs_rel(ts, 4, attributes@, i as int));
                assert(ts[i as int] == SpecToken::GroupEnd);
                assert(ts[i + 2] == SpecToken::Identifier(stream@));
                let cmd_g = (Command::Create {
                    entity: (Entity::Event { name: name, stream: stream, attributes: attributes }),
                });
                assert(cmd_g matches Command::Create {
                    entity: Entity::Event { attributes: at2, .. },
                } && attr_defs_rel(ts, 4, at2@, i as int));
                assert(cmd_rel(ts, cmd_g));
            }
            return Ok(Command::Create { entity: Entity::Event { name, stream, attributes } });
        }
        if toks.len() - i < 2 {
            return Err(ParserError::new("unexpected end of input"));
        }
        let attr_name = match &toks[i] {
            Token::Identifier(n) => n.clone(),
            _ => {
                return Err(ParserError::new("expected an attribute name"));
            },
        };
        let attr_type = match &toks[i + 1] {
            Token::Identifier(n) => n.clone(),
            _ => {
                return Err(ParserError::new("expected an attribute type"));
            },
        };
        let ghost def = AttributeDefinition { name: attr_name, data_type: attr_type };
        let mut step: usize = 2;
        if i + 2 < toks.len() {
            match &toks[i + 2] {
                Token::Seperator => {
                    step = 3;
                },
                _ => {},
            }
        }
        proof {
            assert(ts[i + 1] == toks@[i + 1]@);
            if i + 2 < toks@.len() {
                assert(ts[i + 2] == toks@[i + 2]@);
            }
            assert forall|defs2: Seq<AttributeDefinition>, end2: int| #[trigger] attr_defs_rel(
                ts,
                i + step,
                defs2,
                end2,
            ) implies attr_defs_rel(ts, 4, (attributes@.push(def)) + defs2, end2) by {
                let defs3 = seq![def] + defs2;
                assert(defs3.drop_first() =~= defs2);
                assert(defs3[0] == def);
                if step == 3 {
                    assert(ts[i + 2] == SpecToken::Seperator);
                    assert(i + 2 < end2 <= ts.len()) by {
                        lemma_attr_defs_end(ts, i + step, defs2, end2);
                    }
                    assert(attr_defs_rel(ts, i as int, defs3, end2));
                } else {
                    if i + 2 < end2 && ts[i + 2] == SpecToken::Seperator {
                        assert(false) by {
                            lemma_attr_defs_end(ts, i + step, defs2, end2);
                        }
                    }
                    assert(attr_defs_rel(ts, i as int, defs3, end2));
                }
                assert((attributes@.push(def)) + defs2 =~= attributes@ + defs3);
            }
            if exists|c: Command| #[trigger] cmd_rel(ts, c) && c is Create {
                lemma_event_shape_step(ts, i as int);
            }
        }
        attributes.push(AttributeDefinition { name: attr_name, data_type: attr_type });
        i += step;
    }
}

/// The end position of a non-empty declaration run is past its start.
proof fn lemma_attr_defs_end(ts: Seq<SpecToken>, i: int, defs: Seq<AttributeDefinition>, end: int)
    requires
        attr_defs_rel(ts, i, defs, end),
    ensures
        i <= end <= ts.len() || defs.len() == 0,
    decreases defs.len(),
{
    if defs.len() > 0 {
    }
}

/// The rest of an `add` value list seen from position `i`: assignments
/// up to a closing parenthesis, with `to IDENT ( IDENT = STR ) ;` after
/// it.
spec fn add_tail_shape(ts: Seq<SpecToken>, i: int) -> bool {
    exists|vals2: Seq<AttributeValue>, end2: int|
        {
            &&& #[trigger] attr_vals_rel(ts, i, vals2, end2)
            &&& end2 + 8 < ts.len()
            &&& ts[end2] == SpecToken::GroupEnd
            &&& ts[end2 + 1] == SpecToken::AuxiliaryTo
            &&& ts[end2 + 2] is Identifier
            &&& ts[end2 + 3] == SpecToken::GroupStart
            &&& ts[end2 + 4] is Identifier
            &&& ts[end2 + 5] == SpecToken::Assign
            &&& ts[end2 + 6] is LiteralStr
            &&& ts[end2 + 7] == SpecToken::GroupEnd
            &&& ts[end2 + 8] == SpecToken::EOF
        }
}

/// At any position of the shape, the scan either sits on the closing
/// parenthesis with the tail laid out after it, or on an assignment.
proof fn lemma_add_shape_cases(ts: Seq<SpecToken>, i: int)
    requires
        add_tail_shape(ts, i),
    ensures
        (ts[i] == SpecToken::GroupEnd && i + 8 < ts.len() && ts[i + 1] == SpecToken::AuxiliaryTo
            && ts[i + 2] is Identifier && ts[i + 3] == SpecToken::GroupStart && ts[i + 4]
            is Identifier && ts[i + 5] == SpecToken::Assign && ts[i + 6] is LiteralStr && ts[i + 7]
            == SpecToken::GroupEnd && ts[i + 8] == SpecToken::EOF) || (i + 3 < ts.len() && ts[i]
            is Identifier && ts[i + 1] == SpecToken::Assign && (ts[i + 2] is LiteralStr || ts[i
            + 2] is LiteralInt || ts[i + 2] is LiteralFloat || ts[i + 2] is LiteralBool)),
{
    let (vals2, end2) = choose|vals2: Seq<AttributeValue>, end2: int|
        {
            &&& #[trigger] attr_vals_rel(ts, i, vals2, end2)
            &&& end2 + 8 < ts.len()
            &&& ts[end2] == SpecToken::GroupEnd
            &&& ts[end2 + 1] == SpecToken::AuxiliaryTo
            &&& ts[end2 + 2] is Identifier
            &&& ts[end2 + 3] == SpecToken::GroupStart
            &&& ts[end2 + 4] is Identifier
            &&& ts[end2 + 5] == SpecToken::Assign
            &&& ts[end2 + 6] is LiteralStr
            &&& ts[end2 + 7] == SpecToken::GroupEnd
            &&& ts[end2 + 8] == SpecToken::EOF
        };
    if vals2.len() == 0 {
        assert(i == end2);
    }
}

/// Past one assignment (and its separator, when the next token is one),
/// the shape still holds.
proof fn lemma_add_shape_step(ts: Seq<SpecToken>, i: int)
    requires
        add_tail_shape(ts, i),
        ts[i] is Identifier,
    ensures
        i + 3 < ts.len(),
        ts[i + 3] == SpecToken::Seperator ==> add_tail_shape(ts, i + 4),
        ts[i + 3] != SpecToken::Seperator ==> add_tail_shape(ts, i + 3),
{
    let (vals2, end2) = choose|vals2: Seq<AttributeValue>, end2: int|
        {
            &&& #[trigger] attr_vals_rel(ts, i, vals2, end2)
            &&& end2 + 8 < ts.len()
            &&& ts[end2] == SpecToken::GroupEnd
            &&& ts[end2 + 1] == SpecToken::AuxiliaryTo
            &&& ts[end2 + 2] is Identifier
            &&& ts[end2 + 3] == SpecToken::GroupStart
            &&& ts[end2 + 4] is Identifier
            &&& ts[end2 + 5] == SpecToken::Assign
            &&& ts[end2 + 6] is LiteralStr
            &&& ts[end2 + 7] == SpecToken::GroupEnd
            &&& ts[end2 + 8] == SpecToken::EOF
        };
    assert(vals2.len() > 0) by {
        if vals2.len() == 0 {
            assert(ts[i] == SpecToken::GroupEnd);
        }
    }
    assert(i + 3 <= end2 < ts.len());
    if ts[i + 3] == SpecToken::Seperator {
        assert(i + 3 < end2) by {
            if i + 3 == end2 {
                assert(ts[end2] == SpecToken::GroupEnd);
            }
        }
        assert(attr_vals_rel(ts, i + 4, vals2.drop_first(), end2));
    } else {
        assert(attr_vals_rel(ts, i + 3, vals2.drop_first(), end2));
    }
}

/// Reads `add IDENT ( IDENT = LITERAL {, ...} ) to IDENT ( IDENT = STR ) ;`,
/// succeeding exactly on that shape.
#[verifier::rlimit(100)]
fn parse_add(toks: &Vec<Token>) -> (r: Result<Command, ParserError>)
    requires
        toks@.len() >= 1,
        views(toks@)[0] == SpecToken::Keyword(Keyword::Add),
    ensures
        r matches Ok(c) ==> cmd_rel(views(toks@), c),
        (exists|c: Command| #[trigger] cmd_rel(views(toks@), c) && c is Add) ==> r is Ok,
{
    let ghost ts = views(toks@);
    proof {
        if toks@.len() > 1 {
            assert(ts[1] == toks@[1]@);
        }
        if toks@.len() > 2 {
            assert(ts[2] == toks@[2]@);
        }
    }
    if toks.len() < 3 {
        return Err(ParserError::new("unexpected end of input"));
    }
    let event_name = match &toks[1] {
        Token::Identifier(n) => n.clone(),
        _ => {
            return Err(ParserError::new("expected an event name"));
        },
    };
    match &toks[2] {
        Token::GroupStart => {},
        _ => {
            return Err(ParserError::new("expected a value list"));
        },
    }
    proof {
        if exists|c: Command| #[trigger] cmd_rel(ts, c) && c is Add {
            let c0 = choose|c: Command| #[trigger] cmd_rel(ts, c) && c is Add;
            assert(add_tail_shape(ts, 3));
        }
    }
    let mut values: Vec<AttributeValue> = Vec::new();
    let mut i: usize = 3;
    loop
        invariant
            3 <= i <= toks@.len(),
            ts == views(toks@),
            toks@.len() == ts.len(),
            ts[0] == SpecToken::Keyword(Keyword::Add),
            ts[1] == SpecToken::Identifier(event_name@),
            ts[2] == SpecToken::GroupStart,
            forall|vals2: Seq<AttributeValue>, end2: int|
                #[trigger] attr_vals_rel(ts, i as int, vals2, end2) ==> attr_vals_rel(
                    ts,
                    3,
                    values@ + vals2,
                    end2,
                ),
            (exists|c: Command| #[trigger] cmd_rel(ts, c) && c is Add) ==> add_tail_shape(
                ts,
                i as int,
            ),
        decreases toks@.len() - i,
    {
        proof {
            if i < toks@.len() {
                assert(ts[i as int] == toks@[i as int]@);
            }
            if exists|c: Command| #[trigger] cmd_rel(ts, c) && c is Add {
                lemma_add_shape_cases(ts, i as int);
            }
        }
        if i >= toks.len() {
            return Err(ParserError::new("unexpected end of input"));
        }
        let at_end = match &toks[i] {
            Token::GroupEnd => true,
            _ => false,
        };
        if at_end {
            if toks.len() - i < 9 {
                return Err(ParserError::new("unexpected end of input"));
            }
            proof {
                assert(ts[i + 1] == toks@[i + 1]@);
                assert(ts[i + 2] == toks@[i + 2]@);
                assert(ts[i + 3] == toks@[i + 3]@);
                assert(ts[i + 4] == toks@[i + 4]@);
                assert(ts[i + 5] == toks@[i + 5]@);
                assert(ts[i + 6] == toks@[i + 6]@);
                assert(ts[i + 7] == toks@[i + 7]@);
                assert(ts[i + 8] == toks@[i + 8]@);
            }
            match &toks[i + 1] {
                Token::AuxiliaryTo => {},
                _ => {
                    return Err(ParserError::new("expected to"));
                },
            }
            let stream = match &toks[i + 2] {
                Token::Identifier(n) => n.clone(),
                _ => {
                    return Err(ParserError::new("expected a stream name"));
                },
            };
            match &toks[i + 3] {
                Token::GroupStart => {},
                _ => {
                    return Err(ParserError::new("expected a stream key"));
                },
            }
            match &toks[i + 4] {
                Token::Identifier(_) => {},
                _ => {
                    return Err(ParserError::new("expected a key name"));
                },
            }
            match &toks[i + 5] {
                Token::Assign => {},
                _ => {
                    return Err(ParserError::new("expected an assignment"));
                },
            }
            let stream_id = match &toks[i + 6] {
                Token::LiteralStr(s) => s.clone(),
                _ => {
                    return Err(ParserError::new("expected a string key"));
                },
            };
            match &toks[i + 7] {
                Token::GroupEnd => {},
                _ => {
                    return Err(ParserError::new("expected a closing parenthesis"));
                },
            }
            match &toks[i + 8] {
                Token::EOF => {},
                _ => {
                    return Err(ParserError::new("expected end of command"));
                },
            }
            proof {
                assert(attr_vals_rel(ts, i as int, Seq::<AttributeValue>::empty(), i as int));
                assert(values@ + Seq::<AttributeValue>::empty() =~= values@);
                assert(attr_vals_rel(ts, 3, values@, i as int));
                assert(ts[i as int] == SpecToken::GroupEnd);
                assert(ts[i + 2] == SpecToken::Identifier(stream@));
                assert(ts[i + 6] == SpecToken::LiteralStr(stream_id@));
                let cmd_g = (Command::Add {
                    event: (Event { name: event_name, values: values }),
                    stream: stream,
                    stream_id: stream_id,
                });
                assert(cmd_g matches Command::Add { event: ev2, .. } && attr_vals_rel(
                    ts,
                    3,
                    ev2.values@,
                    i as int,
                ));
                assert(cmd_rel(ts, cmd_g));
            }
            return Ok(
                Command::Add {
                    event: Event { name: event_name, values },
                    stream,
                    stream_id,
                },
            );
        }
        if toks.len() - i < 3 {
            return Err(ParserError::new("unexpected end of input"));
        }
        let value_name = match &toks[i] {
            Token::Identifier(n) => n.clone(),
            _ => {
                return Err(ParserError::new("expected a value name"));
            },
        };
        match &toks[i + 1] {
            Token::Assign => {},
            _ => {
                return Err(ParserError::new("expected an assignment"));
            },
        }
        let value = match &toks[i + 2] {
            Token::LiteralInt(n) => Value::Int(*n),
            Token::LiteralStr(s) => Value::String(s.clone()),
            Token::LiteralFloat(s) => Value::Float(s.clone()),
            Token::LiteralBool(b) => Value::Bool(*b),
            _ => {
                return Err(ParserError::new("got unexpected value"));
            },
        };
        let ghost val = AttributeValue { name: value_name, value: value };
        let mut step: usize = 3;
        if i + 3 < toks.len() {
            match &toks[i + 3] {
                Token::Seperator => {
                    step = 4;
                },
                _ => {},
            }
        }
        proof {
            assert(ts[i + 1] == toks@[i + 1]@);
            assert(ts[i + 2] == toks@[i + 2]@);
            if i + 3 < toks@.len() {
                assert(ts[i + 3] == toks@[i + 3]@);
            }
            assert forall|vals2: Seq<AttributeValue>, end2: int| #[trigger] attr_vals_rel(
                ts,
                i + step,
                vals2,
                end2,
            ) implies attr_vals_rel(ts, 3, (values@.push(val)) + vals2, end2) by {
                let vals3 = seq![val] + vals2;
                assert(vals3.drop_first() =~= vals2);
                assert(vals3[0] == val);
                if step == 4 {
                    assert(ts[i + 3] == SpecToken::Seperator);
                    assert(i + 3 < end2 <= ts.len()) by {
                        lemma_attr_vals_end(ts, i + step, vals2, end2);
                    }
                    assert(attr_vals_rel(ts, i as int, vals3, end2));
                } else {
                    if i + 3 < end2 && ts[i + 3] == SpecToken::Seperator {
                        assert(false) by {
                            lemma_attr_vals_end(ts, i + step, vals2, end2);
                        }
                    }
                    assert(attr_vals_rel(ts, i as int, vals3, end2));
                }
                assert((values@.push(val)) + vals2 =~= values@ + vals3);
            }
            if exists|c: Command| #[trigger] cmd_rel(ts, c) && c is Add {
                lemma_add_shape_step(ts, i as int);
            }
        }
        values.push(AttributeValue { name: value_name, value });
        i += step;
    }
}

/// The end position of a non-empty value run bounds the stream.
proof fn lemma_attr_vals_end(ts: Seq<SpecToken>, i: int, vals: Seq<AttributeValue>, end: int)
    requires
        attr_vals_rel(ts, i, vals, end),
    ensures
        i <= end <= ts.len() || vals.len() == 0,
    decreases vals.len(),
{
    if vals.len() > 0 {
    }
}

/// A read projection list extends by one more read projection.
proof fn lemma_projections_snoc(
    ts: Seq<SpecToken>,
    s0: int,
    ps: Seq<Projection>,
    j0: int,
    p: Projection,
    k: int,
    j1: int,
)
    requires
        projections_rel(ts, s0, ps, j0),
        p.alias@ =~= Seq::<char>::empty(),
        expr_rel(ts, j0, p.projection, k),
        if k < ts.len() && ts[k] == SpecToken::Seperator {
            j1 == k + 1
        } else {
            j1 == k
        },
    ensures
        projections_rel(ts, s0, ps.push(p), j1),
    decreases ps.len(),
{
    if ps.len() == 0 {
        assert(ps.push(p)[0] == p);
        assert(ps.push(p).drop_first() =~= Seq::<Projection>::empty());
        assert(expr_rel(ts, s0, ps.push(p)[0].projection, k));
        if k < ts.len() && ts[k] == SpecToken::Seperator {
            assert(projections_rel(ts, k + 1, ps.push(p).drop_first(), j1));
        } else {
            assert(projections_rel(ts, k, ps.push(p).drop_first(), j1));
        }
    } else {
        let k0 = choose|k0: int|
            #![trigger ts[k0]]
            {
                &&& expr_rel(ts, s0, ps[0].projection, k0)
                &&& if k0 < ts.len() && ts[k0] == SpecToken::Seperator {
                    projections_rel(ts, k0 + 1, ps.drop_first(), j0)
                } else {
                    projections_rel(ts, k0, ps.drop_first(), j0)
                }
            };
        if k0 < ts.len() && ts[k0] == SpecToken::Seperator {
            lemma_projections_snoc(ts, k0 + 1, ps.drop_first(), j0, p, k, j1);
        } else {
            lemma_projections_snoc(ts, k0, ps.drop_first(), j0, p, k, j1);
        }
        assert(ps.push(p)[0] == ps[0]);
        assert(ps.push(p).drop_first() =~= ps.drop_first().push(p));
        assert(expr_rel(ts, s0, ps.push(p)[0].projection, k0));
        if k0 < ts.len() && ts[k0] == SpecToken::Seperator {
            assert(projections_rel(ts, k0 + 1, ps.push(p).drop_first(), j1));
        } else {
            assert(projections_rel(ts, k0, ps.push(p).drop_first(), j1));
        }
    }
}

/// A read predicate list extends by one more read predicate.
proof fn lemma_predicates_snoc(
    ts: Seq<SpecToken>,
    s0: int,
    ps: Seq<Predicate>,
    j0: int,
    p: Predicate,
    m: int,
    o: Operator,
    k: int,
    j1: int,
)
    requires
        predicates_rel(ts, s0, ps, j0),
        p matches Predicate::BinaryOperation { left, operator, right } && expr_rel(ts, j0, left, m)
            && operator == binary_of(o) && expr_rel(ts, m + 1, right, k),
        m < ts.len(),
        ts[m] == SpecToken::Operator(o),
        if k < ts.len() && ts[k] == SpecToken::Seperator {
            j1 == k + 1
        } else {
            j1 == k
        },
    ensures
        predicates_rel(ts, s0, ps.push(p), j1),
    decreases ps.len(),
{
    if ps.len() == 0 {
        assert(ps.push(p)[0] == p);
        assert(ps.push(p).drop_first() =~= Seq::<Predicate>::empty());
        assert(ps.push(p)[0] matches Predicate::BinaryOperation { left, operator, right }
            && expr_rel(ts, s0, left, m) && operator == binary_of(o) && expr_rel(
            ts,
            m + 1,
            right,
            k,
        ));
        if k < ts.len() && ts[k] == SpecToken::Seperator {
            assert(predicates_rel(ts, k + 1, ps.push(p).drop_first(), j1));
        } else {
            assert(predicates_rel(ts, k, ps.push(p).drop_first(), j1));
        }
    } else {
        let (m0, o0, k0) = choose|m0: int, o0: Operator, k0: int|
            #![trigger ts[m0], ts[k0], binary_of(o0)]
            {
                &&& ps[0] matches Predicate::BinaryOperation { left, operator, right }
                    && expr_rel(ts, s0, left, m0) && operator == binary_of(o0) && expr_rel(
                    ts,
                    m0 + 1,
                    right,
                    k0,
                )
                &&& m0 < ts.len()
                &&& ts[m0] == SpecToken::Operator(o0)
                &&& if k0 < ts.len() && ts[k0] == SpecToken::Seperator {
                    predicates_rel(ts, k0 + 1, ps.drop_first(), j0)
                } else {
                    predicates_rel(ts, k0, ps.drop_first(), j0)
                }
            };
        if k0 < ts.len() && ts[k0] == SpecToken::Seperator {
            lemma_predicates_snoc(ts, k0 + 1, ps.drop_first(), j0, p, m, o, k, j1);
        } else {
            lemma_predicates_snoc(ts, k0, ps.drop_first(), j0, p, m, o, k, j1);
        }
        assert(ps.push(p)[0] == ps[0]);
        assert(ps.push(p).drop_first() =~= ps.drop_first().push(p));
        assert(ps.push(p)[0] matches Predicate::BinaryOperation { left, operator, right }
            && expr_rel(ts, s0, left, m0) && operator == binary_of(o0) && expr_rel(
            ts,
            m0 + 1,
            right,
            k0,
        ));
        if k0 < ts.len() && ts[k0] == SpecToken::Seperator {
            assert(predicates_rel(ts, k0 + 1, ps.push(p).drop_first(), j1));
        } else {
            assert(predicates_rel(ts, k0, ps.push(p).drop_first(), j1));
        }
    }
}

/// Reads `find PROJ {, PROJ} [where PRED {, PRED}] [limit INT] ;`.
#[verifier::rlimit(100)]
fn parse_find(toks: &Vec<Token>) -> (r: Result<Command, ParserError>)
    requires
        toks@.len() >= 1,
        views(toks@)[0] == SpecToken::Keyword(Keyword::Find),
    ensures
        r matches Ok(c) ==> cmd_rel(views(toks@), c),
{
    let ghost ts = views(toks@);
    proof {
        assert(ts.len() == toks@.len());
    }
    let mut i: usize = 1;
    let mut projections: Vec<Projection> = Vec::new();
    loop
        invariant
            1 <= i <= toks@.len(),
            ts == views(toks@),
            ts.len() == toks@.len(),
            ts[0] == SpecToken::Keyword(Keyword::Find),
            projections_rel(ts, 1, projections@, i as int),
        decreases toks@.len() - i,
    {
        if i >= toks.len() {
            return Err(ParserError::new("unexpected end of input"));
        }
        proof {
            assert(ts[i as int] == toks@[i as int]@);
        }
        match &toks[i] {
            Token::Keyword(Keyword::Where) => {
                break ;
            },
            Token::Keyword(Keyword::Limit) => {
                break ;
            },
            Token::EOF => {
                break ;
            },
            _ => {},
        }
        let ghost j0 = i as int;
        let (expr, j) = parse_expression(toks, i)?;
        let proj = Projection { alias: String::new(), projection: expr };
        let ghost proj_g = proj;
        let ghost before = projections@;
        projections.push(proj);
        i = j;
        if i < toks.len() {
            let sep = match &toks[i] {
                Token::Seperator => true,
                _ => false,
            };
            if sep {
                i += 1;
            }
        }
        proof {
            if j < toks@.len() {
                assert(ts[j as int] == toks@[j as int]@);
            }
            lemma_projections_snoc(ts, 1, before, j0, proj_g, j as int, i as int);
            assert(before.push(proj_g) =~= projections@);
        }
    }
    if i >= toks.len() {
        return Err(ParserError::new("unexpected end of input"));
    }
    let ghost a = i as int;
    proof {
        assert(ts[a] == toks@[a]@);
    }
    let mut predicates: Vec<Predicate> = Vec::new();
    let at_where = match &toks[i] {
        Token::Keyword(Keyword::Where) => true,
        _ => false,
    };
    if at_where {
        i += 1;
        loop
            invariant
                a + 1 <= i <= toks@.len(),
                ts == views(toks@),
                ts.len() == toks@.len(),
                0 <= a < ts.len(),
                ts[a] == SpecToken::Keyword(Keyword::Where),
                predicates_rel(ts, a + 1, predicates@, i as int),
            decreases toks@.len() - i,
        {
            if i >= toks.len() {
                return Err(ParserError::new("unexpected end of input"));
            }
            proof {
                assert(ts[i as int] == toks@[i as int]@);
            }
            match &toks[i] {
                Token::Keyword(Keyword::Limit) => {
                    break ;
                },
                Token::EOF => {
                    break ;
                },
                _ => {},
            }
            let ghost j0 = i as int;
            let (left, j) = parse_expression(toks, i)?;
            if j >= toks.len() {
                return Err(ParserError::new("unexpected end of input"));
            }
            proof {
                assert(ts[j as int] == toks@[j as int]@);
            }
            let (operator, ghost_op) = match &toks[j] {
                Token::Operator(op) => (operator_to_binary(op), Ghost(*op)),
                _ => {
                    return Err(ParserError::new("expected an operator"));
                },
            };
            let (right, k) = parse_expression(toks, j + 1)?;
            let pred = Predicate::BinaryOperation { left, operator, right };
            let ghost pred_g = pred;
            let ghost before = predicates@;
            predicates.push(pred);
            i = k;
            if i < toks.len() {
                let sep = match &toks[i] {
                    Token::Seperator => true,
                    _ => false,
                };
                if sep {
                    i += 1;
                }
            }
            proof {
                if k < toks@.len() {
                    assert(ts[k as int] == toks@[k as int]@);
                }
                lemma_predicates_snoc(
                    ts,
                    a + 1,
                    before,
                    j0,
                    pred_g,
                    j as int,
                    ghost_op@,
                    k as int,
                    i as int,
                );
                assert(before.push(pred_g) =~= predicates@);
            }
        }
        if i >= toks.len() {
            return Err(ParserError::new("unexpected end of input"));
        }
    }
    let ghost b = i as int;
    if i >= toks.len() {
        return Err(ParserError::new("unexpected end of input"));
    }
    proof {
        assert(ts[b] == toks@[b]@);
    }
    let mut limit: Option<Limit> = None;
    let at_limit = match &toks[i] {
        Token::Keyword(Keyword::Limit) => true,
        _ => false,
    };
    if at_limit {
        if toks.len() - i < 2 {
            return Err(ParserError::new("unexpected end of input"));
        }
        proof {
            assert(ts[b + 1] == toks@[b + 1]@);
        }
        match &toks[i + 1] {
            Token::LiteralInt(n) => {
                limit = Some(Limit(*n));
            },
            _ => {
                return Err(ParserError::new("expected an int after limit"));
            },
        }
        i += 2;
    }
    let ghost c2 = i as int;
    if i >= toks.len() {
        return Err(ParserError::new("unexpected end of input"));
    }
    proof {
        assert(ts[c2] == toks@[c2]@);
    }
    match &toks[i] {
        Token::EOF => {},
        _ => {
            return Err(ParserError::new("expected end of command"));
        },
    }
    proof {
        let cmd_g = (Command::Find {
            projections: projections,
            predicates: predicates,
            limit: limit,
        });
        assert(cmd_g matches Command::Find { projections: ps2, predicates: pr2, limit: l2 }
            && projections_rel(ts, 1, ps2@, a) && (if at_where {
            predicates_rel(ts, a + 1, pr2@, b)
        } else {
            pr2@.len() == 0 && b == a
        }));
        assert(cmd_rel(ts, cmd_g));
    }
    Ok(Command::Find { projections, predicates, limit })
}

/// Reads one expression: a `stream.attribute` access, an aggregate
/// call, a literal, or a `+`/`-` chain of those, nested to the right
/// with no precedence table; exactly as `expr_rel` says.
#[verifier::rlimit(100)]
#[verifier::spinoff_prover]
fn parse_expression(toks: &Vec<Token>, start: usize) -> (r: Result<
    (Expression, usize),
    ParserError,
>)
    requires
        start <= toks@.len(),
    ensures
        r matches Ok(p) ==> start < p.1 <= toks@.len() && expr_rel(
            views(toks@),
            start as int,
            p.0,
            p.1 as int,
        ),
    decreases toks@.len() - start,
{
    let ghost ts = views(toks@);
    proof {
        assert(ts.len() == toks@.len());
    }
    if start >= toks.len() {
        return Err(ParserError::new("unexpected end of input"));
    }
    proof {
        assert(ts[start as int] == toks@[start as int]@);
    }
    let (expr, after): (Expression, usize) = match &toks[start] {
        Token::Identifier(stream) => {
            if toks.len() - start < 3 {
                return Err(ParserError::new("unexpected end of input"));
            }
            match &toks[start + 1] {
                Token::Accessor => {},
                _ => {
                    return Err(ParserError::new("expected an accessor"));
                },
            }
            let attribute = match &toks[start + 2] {
                Token::Identifier(a) => a.clone(),
                _ => {
                    return Err(ParserError::new("expected an attribute"));
                },
            };
            let prim = Expression::Attribute { stream: stream.clone(), attribute };
            proof {
                assert(ts[start + 1] == toks@[start + 1]@);
                assert(ts[start + 2] == toks@[start + 2]@);
                assert(prim_rel(ts, start as int, prim, start + 3));
            }
            (prim, start + 3)
        },
        Token::Function(f) => {
            if toks.len() - start < 2 {
                return Err(ParserError::new("unexpected end of input"));
            }
            match &toks[start + 1] {
                Token::GroupStart => {},
                _ => {
                    return Err(ParserError::new("expected an argument"));
                },
            }
            let (argument, j) = parse_expression(toks, start + 2)?;
            if j >= toks.len() {
                return Err(ParserError::new("unexpected end of input"));
            }
            match &toks[j] {
                Token::GroupEnd => {},
                _ => {
                    return Err(ParserError::new("expected a closing parenthesis"));
                },
            }
            let function = match f {
                Function::Sum => crate::ast::Function::Sum,
                Function::Max => crate::ast::Function::Max,
                Function::Min => crate::ast::Function::Min,
                Function::Avg => crate::ast::Function::Avg,
                Function::Count => crate::ast::Function::Count,
            };
            let prim = Expression::Aggregate { function, argument: Box::new(argument) };
            proof {
                assert(ts[start + 1] == toks@[start + 1]@);
                assert(ts[j as int] == toks@[j as int]@);
                assert(prim matches Expression::Aggregate { function: f2, argument: a2 }
                    && fn_token_of(f2) == *f && expr_rel(ts, start + 2, *a2, j as int));
                assert(prim_rel(ts, start as int, prim, j + 1));
            }
            (prim, j + 1)
        },
        Token::LiteralStr(s) => {
            let prim = Expression::Literal(Value::String(s.clone()));
            proof {
                assert(prim_rel(ts, start as int, prim, start + 1));
            }
            (prim, start + 1)
        },
        Token::LiteralInt(n) => {
            let prim = Expression::Literal(Value::Int(*n));
            proof {
                assert(prim_rel(ts, start as int, prim, start + 1));
            }
            (prim, start + 1)
        },
        Token::LiteralFloat(s) => {
            let prim = Expression::Literal(Value::Float(s.clone()));
            proof {
                assert(prim_rel(ts, start as int, prim, start + 1));
            }
            (prim, start + 1)
        },
        Token::LiteralBool(b) => {
            let prim = Expression::Literal(Value::Bool(*b));
            proof {
                assert(prim_rel(ts, start as int, prim, start + 1));
            }
            (prim, start + 1)
        },
        _ => {
            return Err(ParserError::new("unexpected token"));
        },
    };
    proof {
        assert(prim_rel(ts, start as int, expr, after as int));
        assert(!(expr is BinaryOperation) && !(expr is UnaryOperation));
        if (after as int) < ts.len() {
            assert(ts[after as int] == toks@[after as int]@);
        }
    }
    if after < toks.len() {
        let more = match &toks[after] {
            Token::Operator(Operator::Add) => true,
            Token::Operator(Operator::Subtract) => true,
            _ => false,
        };
        if more {
            let operator = match &toks[after] {
                Token::Operator(op) => operator_to_binary(op),
                _ => crate::ast::BinaryOperator::Add,
            };
            let (right, k) = parse_expression(toks, after + 1)?;
            let result = Expression::BinaryOperation {
                left: Box::new(expr),
                operator,
                right: Box::new(right),
            };
            proof {
                assert(result matches Expression::BinaryOperation { left: l2, right: r2, .. }
                    && prim_rel(ts, start as int, *l2, after as int) && expr_rel(
                    ts,
                    after + 1,
                    *r2,
                    k as int,
                ));
                assert(expr_rel(ts, start as int, result, k as int));
            }
            return Ok((result, k));
        }
    }
    proof {
        assert(expr_rel(ts, start as int, expr, after as int));
    }
    Ok((expr, after))
}

/// The AST operator a token operator denotes: the eleven-case map, with
/// `-` going to `Subtract` and each comparison to its own kind.
pub open spec fn binary_of(operator: Operator) -> crate::ast::BinaryOperator {
    match operator {
        Operator::Add => crate::ast::BinaryOperator::Add,
        Operator::Subtract => crate::ast::BinaryOperator::Subtract,
        Operator::Multiply => crate::ast::BinaryOperator::Multiply,
        Operator::Divide => crate::ast::BinaryOperator::Divide,
        Operator::Modulus => crate::ast::BinaryOperator::Modulus,
        Operator::Equal => crate::ast::BinaryOperator::Equal,
        Operator::NotEqual => crate::ast::BinaryOperator::NotEqual,
        Operator::Less => crate::ast::BinaryOperator::LessThan,
        Operator::Greater => crate::ast::BinaryOperator::GreaterThan,
        Operator::LessOrEqual => crate::ast::BinaryOperator::LessEqual,
        Operator::GreaterOrEqual => crate::ast::BinaryOperator::GreaterEqual,
    }
}

/// Runs the eleven-case operator map.
fn operator_to_binary(operator: &Operator) -> (r: crate::ast::BinaryOperator)
    ensures
        r == binary_of(*operator),
{
    match operator {
        Operator::Add => crate::ast::BinaryOperator::Add,
        Operator::Subtract => crate::ast::BinaryOperator::Subtract,
        Operator::Multiply => crate::ast::BinaryOperator::Multiply,
        Operator::Divide => crate::ast::BinaryOperator::Divide,
        Operator::Modulus => crate::ast::BinaryOperator::Modulus,
        Operator::Equal => crate::ast::BinaryOperator::Equal,
        Operator::NotEqual => crate::ast::BinaryOperator::NotEqual,
        Operator::Less => crate::ast::BinaryOperator::LessThan,
        Operator::Greater => crate::ast::BinaryOperator::GreaterThan,
        Operator::LessOrEqual => crate::ast::BinaryOperator::LessEqual,
        Operator::GreaterOrEqual => crate::ast::BinaryOperator::GreaterEqual,
    }
}

/// The public name of the operator mapping: exactly `binary_of`.
pub fn map_operator_to_binary_operator(operator: &Operator) -> (r: crate::ast::BinaryOperator)
    ensures
        r == binary_of(*operator),
{
    operator_to_binary(operator)
}

} // verus!
