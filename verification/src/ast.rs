//! Abstract syntax tree for the four commands of the language:
//! `show`, `create`, `add` and `find`.

use vstd::prelude::*;

verus! {

/// An ordered list of commands; one command per input is the norm, but the
/// representation admits several.
#[derive(Debug, PartialEq)]
pub struct Transaction {
    pub commands: Vec<Command>,
}

#[derive(Debug, PartialEq)]
pub enum Command {
    Show { entity: Entity },
    Create { entity: Entity },
    Add { event: Event, stream: String, stream_id: String },
    Find { projections: Vec<Projection>, predicates: Vec<Predicate>, limit: Option<Limit> },
}

#[derive(Debug, PartialEq)]
pub enum Entity {
    Schema,
    Stream(String),
    Event { name: String, stream: String, attributes: Vec<AttributeDefinition> },
}

/// A typed attribute slot as declared in `create event`, before the planner
/// has resolved the type name.
#[derive(Debug, Clone, PartialEq)]
pub struct AttributeDefinition {
    pub name: String,
    pub data_type: String,
}

/// The event of an `add` command: its name and the literal attribute values.
#[derive(Debug, PartialEq)]
pub struct Event {
    pub name: String,
    pub values: Vec<AttributeValue>,
}

#[derive(Debug, Clone, PartialEq)]
pub struct AttributeValue {
    pub name: String,
    pub value: Value,
}

/// A literal value. A float literal is carried as its decimal lexeme, digits
/// around a single `.`, exactly as written in the input.
#[derive(Debug, PartialEq)]
pub enum Value {
    Bool(bool),
    String(String),
    Int(i64),
    Float(String),
}

impl Clone for Value {
    fn clone(&self) -> (r: Self)
        ensures
            r == *self,
    {
        match self {
            Value::Bool(b) => Value::Bool(*b),
            Value::String(s) => Value::String(s.clone()),
            Value::Int(i) => Value::Int(*i),
            Value::Float(s) => Value::Float(s.clone()),
        }
    }
}

#[derive(Debug, PartialEq)]
pub struct Projection {
    pub alias: String,
    pub projection: Expression,
}

#[derive(Debug, PartialEq)]
pub enum Predicate {
    BinaryOperation { left: Expression, operator: BinaryOperator, right: Expression },
}

#[derive(Debug, Clone, PartialEq)]
pub struct Limit(pub i64);

#[derive(Debug, Clone, PartialEq)]
pub enum Function {
    Sum,
    Min,
    Max,
    Avg,
    Count,
}

#[derive(Debug, PartialEq)]
pub enum Expression {
    Literal(Value),
    Aggregate { function: Function, argument: Box<Expression> },
    Attribute { stream: String, attribute: String },
    UnaryOperation { operator: UnaryOperator, operand: Box<Expression> },
    BinaryOperation { left: Box<Expression>, operator: BinaryOperator, right: Box<Expression> },
}

#[derive(Debug, Clone, PartialEq)]
pub enum UnaryOperator {
    Negate,
}

#[derive(Debug, Clone, PartialEq)]
pub enum BinaryOperator {
    Add,
    Subtract,
    Multiply,
    Divide,
    Modulus,
    And,
    Or,
    Equal,
    NotEqual,
    LessThan,
    GreaterThan,
    LessEqual,
    GreaterEqual,
    In,
    NotIn,
}

} // verus!
