//! The end-to-end command pipeline: text in, response text or error out.
//! Each stage short-circuits: a lexer or parser error, a planner error
//! and an engine error are surfaced unchanged, in that order.

use vstd::prelude::*;
use crate::ast::Command;
use crate::db::{plan_rel, DBError, DB};
use crate::parser;
use crate::parser::cmd_rel;
use crate::planner;
use crate::planner::{plan_ops, Operation};
use crate::tokenizer::spec_tokens;

verus! {

/// Parses, plans and executes one command against the engine. On success
/// some command stands in `cmd_rel` to the input's token stream, its
/// exact lowering ran, and the engine moved along a successful `plan_rel`
/// run of that plan; on failure either the lexer, parser or planner
/// refused and the engine is untouched, or the engine ran the lowered
/// plan up to its first failing operation.
pub fn run_command(input: &str, db: &mut DB) -> (r: Result<String, String>)
    requires
        old(db).wf(),
    ensures
        final(db).wf(),
        r is Ok ==> exists|c: Command, ops: Seq<Operation>|
            {
                &&& #[trigger] cmd_rel(spec_tokens(input@, 0).0, c)
                &&& #[trigger] plan_ops(seq![c], ops)
                &&& plan_rel(*old(db), ops, *final(db), Ok(()))
            },
        r is Err ==> *final(db) == *old(db) || (exists|c: Command, ops: Seq<Operation>, e: DBError|
            {
                &&& #[trigger] cmd_rel(spec_tokens(input@, 0).0, c)
                &&& plan_ops(seq![c], ops)
                &&& #[trigger] plan_rel(*old(db), ops, *final(db), Err::<(), DBError>(e))
            }),
{
    let transaction = match parser::parse(input) {
        Ok(t) => t,
        Err(e) => {
            let mut m = "failed to parse: ".to_owned();
            m.append(e.message());
            return Err(m);
        },
    };
    let plan = match planner::plan(transaction) {
        Ok(p) => p,
        Err(e) => {
            let mut m = "failed to plan: ".to_owned();
            m.append(e.message());
            return Err(m);
        },
    };
    let ghost cmd = transaction.commands@[0];
    proof {
        assert(seq![cmd] =~= transaction.commands@);
    }
    match db.exec(&plan) {
        Ok(out) => {
            proof {
                assert(cmd_rel(spec_tokens(input@, 0).0, cmd));
                assert(plan_ops(seq![cmd], plan.operations@));
            }
            Ok(out)
        },
        Err(e) => {
            proof {
                assert(cmd_rel(spec_tokens(input@, 0).0, cmd));
                assert(plan_ops(seq![cmd], plan.operations@));
            }
            let mut m = "failed to execute plan: ".to_owned();
            m.append(e.message().as_str());
            return Err(m);
        },
    }
}

} // verus!
