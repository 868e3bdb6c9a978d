//! The mutation text parser: lines of the form
//! `ADD Event(name="value", ...) TO stream:key`, one mutation per line,
//! with comment lines and other lines passed over.

use vstd::prelude::*;
use crate::mutation::{AddEventMutation, Attribute};
use crate::text::{
    assign_pairs, find_char, find_three, find_two, idx_of, idx_of2, idx_of3, lemma_idx_of,
    lemma_idx_of2, lemma_idx_of3, lemma_idx_of_at, skip_chars, split_assigns, starts_with,
    str_to_chars, subrange_chars, trim, trim_chars,
};

verus! {

#[derive(Debug)]
pub enum MutationParserError {
    InvalidMutation,
}

/// The mathematical content of one parsed mutation: event, stream, key
/// and the (name, value) pairs.
pub open spec fn mutation_view(m: AddEventMutation) -> (
    Seq<char>,
    Seq<char>,
    Seq<char>,
    Seq<(Seq<char>, Seq<char>)>,
) {
    (m.event@, m.stream@, m.key@, m.attributes@.map_values(|a: Attribute| (a.name@, a.value@)))
}

/// What one `ADD` line holds: the event name between `ADD` and `(`, the
/// stream and key around the `:` after the single `TO`, and the
/// assignment list between the parentheses. `None` when any of those
/// parts is missing or doubled.
pub open spec fn spec_parse_line(s: Seq<char>) -> Option<
    (Seq<char>, Seq<char>, Seq<char>, Seq<(Seq<char>, Seq<char>)>),
> {
    let ia = idx_of3(s, 'A', 'D', 'D');
    if ia >= s.len() {
        None
    } else {
        let op = idx_of(s, '(');
        if op >= s.len() || op < ia + 3 {
            None
        } else {
            let ev = trim(s.subrange(ia + 3, op));
            let to = idx_of2(s, 'T', 'O');
            if to + 2 > s.len() {
                None
            } else {
                let tail = s.skip(to + 2);
                if idx_of2(tail, 'T', 'O') < tail.len() {
                    None
                } else {
                    let after = trim(tail);
                    let colon = idx_of(after, ':');
                    if colon >= after.len() {
                        None
                    } else {
                        let stream = trim(after.take(colon));
                        let key = trim(after.skip(colon + 1));
                        let cl = idx_of(s, ')');
                        if cl >= s.len() || cl < op + 1 {
                            None
                        } else {
                            match assign_pairs(s.subrange(op + 1, cl)) {
                                None => None,
                                Some(attrs) => Some((ev, stream, key, attrs)),
                            }
                        }
                    }
                }
            }
        }
    }
}

/// Parses one `ADD` line, exactly as `spec_parse_line` says.
pub fn parse_mutation_line(input: &str) -> (r: Result<AddEventMutation, MutationParserError>)
    ensures
        r matches Ok(m) ==> spec_parse_line(input@) == Some(mutation_view(m)),
        r is Err <==> spec_parse_line(input@) is None,
{
    let chars = str_to_chars(input);
    proof {
        lemma_idx_of3(chars@, 'A', 'D', 'D');
        lemma_idx_of(chars@, '(');
        lemma_idx_of(chars@, ')');
        lemma_idx_of2(chars@, 'T', 'O');
    }
    let ia = find_three(&chars, 'A', 'D', 'D');
    if ia == chars.len() {
        return Err(MutationParserError::InvalidMutation);
    }
    let op = find_char(&chars, '(');
    if op == chars.len() || op < ia + 3 {
        return Err(MutationParserError::InvalidMutation);
    }
    let ev_raw = subrange_chars(&chars, ia + 3, op);
    let ev = trim_chars(&ev_raw);
    let to = find_two(&chars, 'T', 'O');
    if chars.len() < 2 || to > chars.len() - 2 {
        return Err(MutationParserError::InvalidMutation);
    }
    let tail = skip_chars(&chars, to + 2);
    proof {
        lemma_idx_of2(tail@, 'T', 'O');
    }
    let second = find_two(&tail, 'T', 'O');
    if second < tail.len() {
        return Err(MutationParserError::InvalidMutation);
    }
    let after = trim_chars(&tail);
    proof {
        lemma_idx_of(after@, ':');
    }
    let colon = find_char(&after, ':');
    if colon == after.len() {
        return Err(MutationParserError::InvalidMutation);
    }
    let stream_raw = subrange_chars(&after, 0, colon);
    let stream = trim_chars(&stream_raw);
    let key_raw = skip_chars(&after, colon + 1);
    let key = trim_chars(&key_raw);
    proof {
        assert(stream_raw@ =~= after@.take(colon as int));
        assert(key_raw@ =~= after@.skip(colon + 1));
    }
    let cl = find_char(&chars, ')');
    if cl == chars.len() || cl < op + 1 {
        return Err(MutationParserError::InvalidMutation);
    }
    let inner = subrange_chars(&chars, op + 1, cl);
    let pairs = match split_assigns(&inner) {
        None => {
            return Err(MutationParserError::InvalidMutation);
        },
        Some(ps) => ps,
    };
    let mut attributes: Vec<Attribute> = Vec::new();
    let mut i: usize = 0;
    while i < pairs.len()
        invariant
            i <= pairs@.len(),
            attributes@.len() == i,
            forall|j: int|
                0 <= j < i ==> (#[trigger] attributes@[j]).name@ == pairs@[j].0@
                    && attributes@[j].value@ == pairs@[j].1@,
        decreases pairs@.len() - i,
    {
        attributes.push(Attribute { name: pairs[i].0.clone(), value: pairs[i].1.clone() });
        i += 1;
    }
    let m = AddEventMutation {
        stream: crate::text::chars_to_string(&stream),
        key: crate::text::chars_to_string(&key),
        event: crate::text::chars_to_string(&ev),
        attributes,
    };
    proof {
        let t = spec_parse_line(input@).unwrap();
        assert(m.attributes@.map_values(|a: Attribute| (a.name@, a.value@)) =~= t.3);
    }
    Ok(m)
}

/// Which lines of an input count, and what they must parse to: a line is
/// first trimmed and cut at its first `;`; empty lines, comment lines and
/// lines that do not open with `ADD` are passed over; the rest must each
/// parse as one mutation.
pub open spec fn spec_parse_mutation(s: Seq<char>) -> Option<
    Seq<(Seq<char>, Seq<char>, Seq<char>, Seq<(Seq<char>, Seq<char>)>)>,
>
    decreases s.len(),
    via spec_parse_mutation_dec
{
    if s.len() == 0 {
        Some(Seq::empty())
    } else {
        let n = idx_of(s, '\n');
        let line = s.take(n);
        let t = trim(line);
        let block = t.take(idx_of(t, ';'));
        let rest = if n < s.len() {
            spec_parse_mutation(s.skip(n + 1))
        } else {
            Some(Seq::empty())
        };
        if block.len() == 0 || starts_with(block, "//"@) || !starts_with(block, "ADD"@) {
            rest
        } else {
            match (spec_parse_line(block), rest) {
                (Some(m), Some(ms)) => Some(seq![m] + ms),
                _ => None,
            }
        }
    }
}

#[via_fn]
proof fn spec_parse_mutation_dec(s: Seq<char>) {
    lemma_idx_of(s, '\n');
}

/// Parses every `ADD` line of the input, exactly as `spec_parse_mutation`
/// says.
pub fn parse_mutation(input: &str) -> (r: Result<Vec<AddEventMutation>, MutationParserError>)
    ensures
        r matches Ok(ms) ==> spec_parse_mutation(input@) == Some(
            ms@.map_values(|m: AddEventMutation| mutation_view(m)),
        ),
        r is Err <==> spec_parse_mutation(input@) is None,
{
    let chars = str_to_chars(input);
    let mut out: Vec<AddEventMutation> = Vec::new();
    let mut pos: usize = 0;
    proof {
        assert(chars@.skip(0) =~= chars@);
    }
    while pos < chars.len()
        invariant
            pos <= chars@.len(),
            chars@ == input@,
            ({
                match spec_parse_mutation(chars@) {
                    None => spec_parse_mutation(chars@.skip(pos as int)) is None,
                    Some(all) => match spec_parse_mutation(chars@.skip(pos as int)) {
                        None => true,
                        Some(rest) => all == out@.map_values(
                            |m: AddEventMutation| mutation_view(m),
                        ) + rest,
                    },
                }
            }),
            spec_parse_mutation(chars@) is Some ==> spec_parse_mutation(chars@.skip(pos as int))
                is Some,
        decreases chars@.len() - pos,
    {
        let ghost rest_chars = chars@.skip(pos as int);
        let mut e: usize = pos;
        while e < chars.len() && chars[e] != '\n'
            invariant
                pos <= e <= chars@.len(),
                forall|j: int| pos <= j < e ==> chars@[j] != '\n',
            decreases chars@.len() - e,
        {
            e += 1;
        }
        let line = subrange_chars(&chars, pos, e);
        proof {
            assert forall|j: int| 0 <= j < e - pos implies rest_chars[j] != '\n' by {
                assert(rest_chars[j] == chars@[pos + j]);
            }
            if e < chars@.len() {
                assert(rest_chars[e - pos] == chars@[e as int]);
            }
            lemma_idx_of_at(rest_chars, '\n', e - pos as int);
            assert(line@ =~= rest_chars.take(e - pos as int));
        }
        let t = trim_chars(&line);
        proof {
            lemma_idx_of(t@, ';');
        }
        let block = crate::text::before_char(&t, ';');
        let is_comment = crate::text::opens_comment_exact(&block);
        let is_add = opens_add(&block);
        let ghost out_before = out@;
        let ghost skipped = !(block@.len() > 0 && !is_comment && is_add);
        if block.len() > 0 && !is_comment && is_add {
            let block_str = crate::text::chars_to_string(&block);
            match parse_mutation_line(block_str.as_str()) {
                Ok(m) => {
                    proof {
                        assert(spec_parse_line(block@) == Some(mutation_view(m)));
                    }
                    out.push(m);
                },
                Err(e2) => {
                    proof {
                        assert(spec_parse_line(block@) is None);
                        assert(spec_parse_mutation(rest_chars) is None);
                    }
                    return Err(e2);
                },
            }
        }
        proof {
            if e < chars@.len() {
                assert(rest_chars.skip(e - pos + 1) =~= chars@.skip(e + 1));
            } else {
                assert(chars@.skip(chars@.len() as int) =~= Seq::<char>::empty());
            }
            let next = if e < chars@.len() {
                chars@.skip(e + 1)
            } else {
                chars@.skip(e as int)
            };
            if e as int >= chars@.len() {
                assert(chars@.skip(e as int) =~= Seq::<char>::empty());
            }
            if spec_parse_mutation(chars@) is Some {
                let all = spec_parse_mutation(chars@).unwrap();
                let rest0 = spec_parse_mutation(rest_chars).unwrap();
                let restn = spec_parse_mutation(next).unwrap();
                if skipped {
                    assert(rest0 == restn);
                    assert(out@ == out_before);
                } else {
                    assert(rest0 =~= seq![spec_parse_line(block@).unwrap()] + restn);
                    assert(out@.map_values(|m2: AddEventMutation| mutation_view(m2))
                        =~= out_before.map_values(|m2: AddEventMutation| mutation_view(m2))
                        + seq![spec_parse_line(block@).unwrap()]);
                }
                assert(all =~= out@.map_values(|m2: AddEventMutation| mutation_view(m2)) + restn);
            }
        }
        if e < chars.len() {
            pos = e + 1;
        } else {
            pos = e;
        }
    }
    proof {
        assert(chars@.skip(pos as int) =~= Seq::<char>::empty());
        if spec_parse_mutation(chars@) is Some {
            assert(spec_parse_mutation(chars@).unwrap() =~= out@.map_values(
                |m2: AddEventMutation| mutation_view(m2),
            ));
        }
    }
    Ok(out)
}

/// Whether the characters open with the exact word `ADD`.
fn opens_add(v: &Vec<char>) -> (r: bool)
    ensures
        r == starts_with(v@, "ADD"@),
{
    proof {
        reveal_strlit("ADD");
    }
    if v.len() >= 3 && v[0] == 'A' && v[1] == 'D' && v[2] == 'D' {
        proof {
            assert(v@.take(3) =~= "ADD"@);
        }
        true
    } else {
        proof {
            if starts_with(v@, "ADD"@) {
                assert(v@[0] == "ADD"@[0]);
                assert(v@[1] == "ADD"@[1]);
                assert(v@[2] == "ADD"@[2]);
            }
        }
        false
    }
}

} // verus!
