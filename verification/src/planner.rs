//! The planner lowers a parsed `Transaction` into an `ExecutionPlan`: an
//! ordered list of primitive operations for the engine, with every
//! schema-dependent precondition made an explicit check operation.
//!
//! The lowering is pinned exactly by `cmd_ops`:
//! - `create stream S` becomes `[CreateStream(S)]` alone;
//! - `create event E(a1 t1, ...) on S` becomes `CheckStreamExists(S)`,
//!   `CreateEvent(S, E)`, then one `CreateAttribute(S, E, ai, ti)` per
//!   declared attribute, in declaration order;
//! - `add E(...) to S(id=K)` becomes `CheckStreamExists(S)`,
//!   `CheckEventExists(S, E)`, one `CheckAttributeExists` per value, then
//!   `AppendEvent`;
//! - `show schema` becomes `[ShowSchema]` and `find` a single opaque
//!   `Query`.

use vstd::prelude::*;
use crate::ast::{AttributeValue, Command, Entity, Limit, Predicate, Projection, Transaction};
use crate::schema::{AttributeName, EventName, StreamName};

verus! {

/// The ordered operations of one lowered transaction; the engine runs them
/// in order and stops at the first failure.
#[derive(Debug, PartialEq)]
pub struct ExecutionPlan {
    pub operations: Vec<Operation>,
}

/// A primitive engine operation.
#[derive(Debug, PartialEq)]
pub enum Operation {
    CheckStreamExists { stream: StreamName },
    CheckEventExists { stream: StreamName, event: EventName },
    CheckAttributeExists { stream: StreamName, event: EventName, attribute: AttributeName },
    CreateStream { stream: StreamName },
    CreateEvent { stream: StreamName, event: EventName },
    CreateAttribute {
        stream: StreamName,
        event: EventName,
        attribute: AttributeName,
        data_type: DataType,
    },
    AppendEvent {
        stream: StreamName,
        key: String,
        event: EventName,
        attr_values: Vec<AttributeValue>,
    },
    ShowSchema,
    Query { projections: Vec<Projection>, predicates: Vec<Predicate>, limit: Option<Limit> },
}

/// The schema-declared type of an attribute.
#[derive(Debug, Clone, Copy, PartialEq, Eq, Structural)]
pub enum DataType {
    String,
    Int,
    Float,
    Bool,
}

#[derive(Debug)]
pub struct PlanError {
    message: String,
}

impl PlanError {
    pub fn new(message: &str) -> (r: Self) {
        PlanError { message: message.to_owned() }
    }

    pub fn message(&self) -> &str {
        self.message.as_str()
    }
}

/// The `DataType` denoted by a type name in a `create event` declaration,
/// or `None` for a name that is not one of the four.
pub open spec fn dt_of(n: Seq<char>) -> Option<DataType> {
    if n == "string"@ {
        Some(DataType::String)
    } else if n == "int"@ {
        Some(DataType::Int)
    } else if n == "float"@ {
        Some(DataType::Float)
    } else if n == "bool"@ {
        Some(DataType::Bool)
    } else {
        None
    }
}

/// Whether the planner accepts the command at all: `show` only of the
/// schema, `create` only of a stream or of an event whose attribute types
/// are among the four type names.
pub open spec fn cmd_plannable(c: Command) -> bool {
    match c {
        Command::Show { entity } => entity is Schema,
        Command::Create { entity } => match entity {
            Entity::Schema => false,
            Entity::Stream(_) => true,
            Entity::Event { name: _, stream: _, attributes } => forall|j: int|
                0 <= j < attributes@.len() ==> dt_of(attributes@[j].data_type@) is Some,
        },
        Command::Add { .. } => true,
        Command::Find { .. } => true,
    }
}

/// How many operations the command lowers to.
pub open spec fn cmd_ops_len(c: Command) -> int {
    match c {
        Command::Show { .. } => 1,
        Command::Create { entity } => match entity {
            Entity::Schema => 1,
            Entity::Stream(_) => 1,
            Entity::Event { name: _, stream: _, attributes } => 2 + attributes@.len() as int,
        },
        Command::Add { event, .. } => 3 + event.values@.len() as int,
        Command::Find { .. } => 1,
    }
}

/// The exact operations a single command lowers to.
pub open spec fn cmd_ops(c: Command, ops: Seq<Operation>) -> bool {
    ops.len() == cmd_ops_len(c) && match c {
        Command::Show { entity: _ } => ops[0] == Operation::ShowSchema,
        Command::Create { entity } => match entity {
            Entity::Schema => false,
            Entity::Stream(name) => ops[0] == (Operation::CreateStream { stream: StreamName(name) }),
            Entity::Event { name, stream, attributes } => {
                &&& ops[0] == (Operation::CheckStreamExists { stream: StreamName(stream) })
                &&& ops[1] == (Operation::CreateEvent {
                    stream: StreamName(stream),
                    event: EventName(name),
                })
                &&& forall|j: int|
                    0 <= j < attributes@.len() ==> ops[2 + j] == (Operation::CreateAttribute {
                        stream: StreamName(stream),
                        event: EventName(name),
                        attribute: AttributeName(attributes@[j].name),
                        data_type: dt_of(attributes@[j].data_type@).unwrap(),
                    })
            },
        },
        Command::Add { event, stream, stream_id } => {
            &&& ops[0] == (Operation::CheckStreamExists { stream: StreamName(stream) })
            &&& ops[1] == (Operation::CheckEventExists {
                stream: StreamName(stream),
                event: EventName(event.name),
            })
            &&& forall|j: int|
                0 <= j < event.values@.len() ==> ops[2 + j] == (Operation::CheckAttributeExists {
                    stream: StreamName(stream),
                    event: EventName(event.name),
                    attribute: AttributeName(event.values@[j].name),
                })
            &&& ops[2 + event.values@.len() as int] == (Operation::AppendEvent {
                stream: StreamName(stream),
                key: stream_id,
                event: EventName(event.name),
                attr_values: event.values,
            })
        },
        Command::Find { projections, predicates, limit } => ops[0] == (Operation::Query {
            projections,
            predicates,
            limit,
        }),
    }
}

/// The whole plan is the concatenation of each command's operations, in
/// command order.
pub open spec fn plan_ops(cmds: Seq<Command>, ops: Seq<Operation>) -> bool
    decreases cmds.len(),
{
    if cmds.len() == 0 {
        ops.len() == 0
    } else {
        &&& cmd_ops_len(cmds[0]) <= ops.len()
        &&& cmd_ops(cmds[0], ops.take(cmd_ops_len(cmds[0])))
        &&& plan_ops(cmds.drop_first(), ops.skip(cmd_ops_len(cmds[0])))
    }
}

/// Extending a lowered prefix by one more lowered command keeps the whole
/// lowered.
proof fn lemma_plan_ops_snoc(cmds: Seq<Command>, ops: Seq<Operation>, c: Command, tail: Seq<Operation>)
    requires
        plan_ops(cmds, ops),
        cmd_ops(c, tail),
    ensures
        plan_ops(cmds.push(c), ops + tail),
    decreases cmds.len(),
{
    if cmds.len() == 0 {
        assert(cmds.push(c)[0] == c);
        assert(cmds.push(c).drop_first() =~= Seq::<Command>::empty());
        assert((ops + tail).take(cmd_ops_len(c)) =~= tail);
        assert((ops + tail).skip(cmd_ops_len(c)) =~= Seq::<Operation>::empty());
        assert(plan_ops(cmds.push(c).drop_first(), (ops + tail).skip(cmd_ops_len(c))));
        assert(cmd_ops(cmds.push(c)[0], (ops + tail).take(cmd_ops_len(cmds.push(c)[0]))));
    } else {
        let n = cmd_ops_len(cmds[0]);
        assert((ops + tail).take(n) =~= ops.take(n));
        assert((ops + tail).skip(n) =~= ops.skip(n) + tail);
        assert(cmds.push(c).drop_first() =~= cmds.drop_first().push(c));
        lemma_plan_ops_snoc(cmds.drop_first(), ops.skip(n), c, tail);
    }
}

/// Lowers the transaction. Returns the plan exactly when every command is
/// plannable, and then the plan is the in-order concatenation of each
/// command's operations as `cmd_ops` states; otherwise the first
/// unplannable command is reported.
pub fn plan(transaction: Transaction) -> (r: Result<ExecutionPlan, PlanError>)
    ensures
        r is Ok <==> (forall|i: int|
            0 <= i < transaction.commands@.len() ==> cmd_plannable(transaction.commands@[i])),
        r matches Ok(p) ==> plan_ops(transaction.commands@, p.operations@),
{
    let ghost all = transaction.commands@;
    let mut cmds = transaction.commands;
    let mut ops: Vec<Operation> = Vec::new();
    let ghost mut done: int = 0;

    proof {
        assert(all.take(0) =~= Seq::<Command>::empty());
    }

    while cmds.len() > 0
        invariant
            all == transaction.commands@,
            0 <= done <= all.len(),
            cmds@ =~= all.skip(done),
            forall|i: int| 0 <= i < done ==> cmd_plannable(all[i]),
            plan_ops(all.take(done), ops@),
        decreases cmds@.len(),
    {
        let ghost ops_before = ops@;
        let ghost cmd_g = cmds@[0];
        proof {
            assert(all[done] == cmds@[0]);
        }
        let cmd = cmds.remove(0);
        match cmd {
            Command::Show { entity } => {
                match entity {
                    Entity::Schema => {
                        ops.push(Operation::ShowSchema);
                        proof {
                            assert(ops@.skip(ops_before.len() as int) =~= seq![
                                Operation::ShowSchema,
                            ]);
                        }
                    },
                    _ => {
                        proof {
                            assert(0 <= done < transaction.commands@.len());
                            assert(!cmd_plannable(transaction.commands@[done]));
                        }
                        return Err(PlanError::new("show supports only the schema"));
                    },
                }
            },
            Command::Create { entity } => {
                match entity {
                    Entity::Schema => {
                        proof {
                            assert(0 <= done < transaction.commands@.len());
                            assert(!cmd_plannable(transaction.commands@[done]));
                        }
                        return Err(PlanError::new("cannot create a schema"));
                    },
                    Entity::Stream(name) => {
                        ops.push(Operation::CreateStream { stream: StreamName::new(name) });
                        proof {
                            assert(ops@.skip(ops_before.len() as int) =~= seq![
                                ops@[ops_before.len() as int],
                            ]);
                        }
                    },
                    Entity::Event { name, stream, attributes } => {
                        ops.push(
                            Operation::CheckStreamExists { stream: StreamName::new(stream.clone()) },
                        );
                        ops.push(
                            Operation::CreateEvent {
                                stream: StreamName::new(stream.clone()),
                                event: EventName::new(name.clone()),
                            },
                        );
                        let mut j: usize = 0;
                        while j < attributes.len()
                            invariant
                                j <= attributes@.len(),
                                0 <= done < all.len(),
                                all == transaction.commands@,
                                all[done] == (Command::Create {
                                    entity: (Entity::Event {
                                        name: name,
                                        stream: stream,
                                        attributes: attributes,
                                    }),
                                }),
                                ops@.len() == ops_before.len() + 2 + j,
                                ops@.take(ops_before.len() as int) =~= ops_before,
                                ops@[ops_before.len() as int] == (Operation::CheckStreamExists {
                                    stream: StreamName(stream),
                                }),
                                ops@[ops_before.len() as int + 1] == (Operation::CreateEvent {
                                    stream: StreamName(stream),
                                    event: EventName(name),
                                }),
                                forall|t: int|
                                    0 <= t < j ==> ops@[ops_before.len() as int + 2 + t]
                                        == (Operation::CreateAttribute {
                                        stream: StreamName(stream),
                                        event: EventName(name),
                                        attribute: AttributeName(attributes@[t].name),
                                        data_type: dt_of(attributes@[t].data_type@).unwrap(),
                                    }),
                                forall|t: int|
                                    0 <= t < j ==> dt_of(attributes@[t].data_type@) is Some,
                            decreases attributes@.len() - j,
                        {
                            let dt = match data_type_of(&attributes[j].data_type) {
                                Some(dt) => dt,
                                None => {
                                    proof {
                                        assert(0 <= done < transaction.commands@.len());
                                        assert(!cmd_plannable(transaction.commands@[done]));
                                    }
                                    return Err(PlanError::new("unknown attribute type"));
                                },
                            };
                            ops.push(
                                Operation::CreateAttribute {
                                    stream: StreamName::new(stream.clone()),
                                    event: EventName::new(name.clone()),
                                    attribute: AttributeName::new(attributes[j].name.clone()),
                                    data_type: dt,
                                },
                            );
                            j += 1;
                        }
                        proof {
                            let tail = ops@.skip(ops_before.len() as int);
                            assert(tail.len() == 2 + attributes@.len());
                            assert forall|t: int| 0 <= t < tail.len() implies tail[t]
                                == ops@[ops_before.len() as int + t] by {}
                            assert(cmd_ops(cmd_g, tail));
                        }
                    },
                }
            },
            Command::Add { event, stream, stream_id } => {
                ops.push(
                    Operation::CheckStreamExists { stream: StreamName::new(stream.clone()) },
                );
                ops.push(
                    Operation::CheckEventExists {
                        stream: StreamName::new(stream.clone()),
                        event: EventName::new(event.name.clone()),
                    },
                );
                let mut j: usize = 0;
                while j < event.values.len()
                    invariant
                        j <= event.values@.len(),
                        ops@.len() == ops_before.len() + 2 + j,
                        ops@.take(ops_before.len() as int) =~= ops_before,
                        ops@[ops_before.len() as int] == (Operation::CheckStreamExists {
                            stream: StreamName(stream),
                        }),
                        ops@[ops_before.len() as int + 1] == (Operation::CheckEventExists {
                            stream: StreamName(stream),
                            event: EventName(event.name),
                        }),
                        forall|t: int|
                            0 <= t < j ==> ops@[ops_before.len() as int + 2 + t]
                                == (Operation::CheckAttributeExists {
                                stream: StreamName(stream),
                                event: EventName(event.name),
                                attribute: AttributeName(event.values@[t].name),
                            }),
                    decreases event.values@.len() - j,
                {
                    ops.push(
                        Operation::CheckAttributeExists {
                            stream: StreamName::new(stream.clone()),
                            event: EventName::new(event.name.clone()),
                            attribute: AttributeName::new(event.values[j].name.clone()),
                        },
                    );
                    j += 1;
                }
                ops.push(
                    Operation::AppendEvent {
                        stream: StreamName::new(stream),
                        key: stream_id,
                        event: EventName::new(event.name),
                        attr_values: event.values,
                    },
                );
                proof {
                    let tail = ops@.skip(ops_before.len() as int);
                    assert(tail.len() == cmd_ops_len(cmd_g));
                    assert forall|t: int| 0 <= t < tail.len() implies tail[t]
                        == ops@[ops_before.len() as int + t] by {}
                    assert(cmd_ops(cmd_g, tail));
                }
            },
            Command::Find { projections, predicates, limit } => {
                ops.push(Operation::Query { projections, predicates, limit });
                proof {
                    assert(ops@.skip(ops_before.len() as int) =~= seq![
                        ops@[ops_before.len() as int],
                    ]);
                }
            },
        }
        proof {
            let tail = ops@.skip(ops_before.len() as int);
            assert(cmd_ops(cmd_g, tail));
            assert(ops_before + tail =~= ops@);
            lemma_plan_ops_snoc(all.take(done), ops_before, cmd_g, tail);
            assert(all.take(done).push(cmd_g) =~= all.take(done + 1));
            done = done + 1;
            assert(cmds@ =~= all.skip(done));
        }
    }
    proof {
        assert(all.take(done) =~= all);
    }
    Ok(ExecutionPlan { operations: ops })
}

/// The `DataType` named by an attribute type identifier, if any.
pub fn data_type_of(name: &String) -> (r: Option<DataType>)
    ensures
        r == dt_of(name@),
{
    if *name == "string".to_owned() {
        Some(DataType::String)
    } else if *name == "int".to_owned() {
        Some(DataType::Int)
    } else if *name == "float".to_owned() {
        Some(DataType::Float)
    } else if *name == "bool".to_owned() {
        Some(DataType::Bool)
    } else {
        None
    }
}

} // verus!
