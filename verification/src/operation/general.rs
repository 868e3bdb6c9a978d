//! The first cut at a command line: `OPTYPE body ;` with comments
//! removed, the type word folded to lower case, and the body reduced to
//! its significant characters.

use vstd::prelude::*;
use crate::text::{
    before_char, chars_eq_str, chars_to_string, filter_seq, idx_of, is_ascii_alnum, lower_chars,
    skip_chars, str_to_chars, strip_comment_lines, strip_comments, to_lower, trim, trim_chars,
};

verus! {

/// A raw operation: its type word and its condensed body.
#[derive(Debug, PartialEq)]
pub struct Operation {
    pub op_type: OperationType,
    pub body: String,
}

#[derive(Debug, PartialEq, Eq, Structural)]
pub enum OperationType {
    Add,
    Create,
    Show,
}

#[derive(Debug)]
pub enum GeneralError {
    ParseError(String),
}

impl GeneralError {
    /// The text of the error.
    pub fn message(&self) -> &str {
        match self {
            GeneralError::ParseError(m) => m.as_str(),
        }
    }
}

/// The characters a body keeps: letters, digits and the punctuation the
/// downstream parsers read.
pub open spec fn keeps(c: char) -> bool {
    is_ascii_alnum(c) || c == '-' || c == ',' || c == '(' || c == ')' || c == ':' || c == '"'
        || c == '=' || c == '>'
}

/// What `parse_operation` returns: the operation type named by the first
/// word (case-insensitively) and the filtered body, or nothing when the
/// input up to the first `;` is empty, has no body, or names no known
/// operation.
pub open spec fn spec_parse_operation(s: Seq<char>) -> Option<(OperationType, Seq<char>)> {
    let t = trim(s);
    let p = t.take(idx_of(t, ';'));
    if p.len() == 0 {
        None
    } else {
        let c = trim(strip_comment_lines(p));
        let sp = idx_of(c, ' ');
        if sp >= c.len() {
            None
        } else {
            let w = to_lower(c.take(sp));
            let body = filter_seq(c.skip(sp + 1), |ch: char| keeps(ch));
            if body.len() == 0 {
                None
            } else if w == "add"@ {
                Some((OperationType::Add, body))
            } else if w == "create"@ {
                Some((OperationType::Create, body))
            } else if w == "show"@ {
                Some((OperationType::Show, body))
            } else {
                None
            }
        }
    }
}

/// Splits one raw command into its operation type and body, exactly as
/// `spec_parse_operation` says.
pub fn parse_operation(input: &str) -> (r: Result<Operation, GeneralError>)
    ensures
        r matches Ok(o) ==> spec_parse_operation(input@) matches Some(pair) && o.op_type == pair.0
            && o.body@ == pair.1,
        r is Err <==> spec_parse_operation(input@) is None,
{
    let chars = str_to_chars(input);
    let t = trim_chars(&chars);
    let p = before_char(&t, ';');
    if p.len() == 0 {
        return Err(GeneralError::ParseError("empty operation".to_owned()));
    }
    let stripped = strip_comments(&p);
    let c = trim_chars(&stripped);
    proof {
        crate::text::lemma_idx_of(c@, ' ');
    }
    let word_raw = before_char(&c, ' ');
    if word_raw.len() == c.len() {
        return Err(GeneralError::ParseError("missing operation type".to_owned()));
    }
    let rest = skip_chars(&c, word_raw.len() + 1);
    let body = filter_kept(&rest);
    if body.len() == 0 {
        return Err(GeneralError::ParseError("missing body".to_owned()));
    }
    let w = lower_chars(&word_raw);
    let op_type = if chars_eq_str(&w, "add") {
        OperationType::Add
    } else if chars_eq_str(&w, "create") {
        OperationType::Create
    } else if chars_eq_str(&w, "show") {
        OperationType::Show
    } else {
        return Err(GeneralError::ParseError("not a supported operation".to_owned()));
    };
    Ok(Operation { op_type, body: chars_to_string(&body) })
}

/// Drops comment lines and surrounding whitespace from a raw command.
pub fn trim_comment(input: &str) -> (r: String)
    ensures
        r@ == trim(strip_comment_lines(input@)),
{
    let chars = str_to_chars(input);
    let stripped = strip_comments(&chars);
    let t = trim_chars(&stripped);
    chars_to_string(&t)
}

/// Filters the body characters, as `keeps` describes.
fn filter_kept(v: &Vec<char>) -> (r: Vec<char>)
    ensures
        r@ == filter_seq(v@, |ch: char| keeps(ch)),
{
    let mut r: Vec<char> = Vec::new();
    let mut i: usize = 0;
    proof {
        assert(v@.take(0) =~= Seq::<char>::empty());
    }
    while i < v.len()
        invariant
            i <= v@.len(),
            r@ == filter_seq(v@.take(i as int), |ch: char| keeps(ch)),
        decreases v@.len() - i,
    {
        let c = v[i];
        let keep = crate::text::char_is_ascii_alnum(c) || c == '-' || c == ',' || c == '(' || c
            == ')' || c == ':' || c == '"' || c == '=' || c == '>';
        if keep {
            r.push(c);
        }
        proof {
            assert(v@.take(i + 1).drop_last() =~= v@.take(i as int));
            assert(v@.take(i + 1).last() == v@[i as int]);
        }
        i += 1;
    }
    proof {
        assert(v@.take(v@.len() as int) =~= v@);
    }
    r
}

} // verus!
