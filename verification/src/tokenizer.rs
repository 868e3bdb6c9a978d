//! The tokenizer: raw command text to a stream of typed tokens, exposed
//! through a cursor with one token of lookahead.
//!
//! The whole scan is pinned by the spec functions here: `spec_tokens`
//! says exactly which tokens (and whether a scan error) any input
//! yields, and `tokenize` returns exactly that. Whitespace separates
//! tokens, `//` comments run to end of line, string literals take their
//! characters verbatim between quotes, numbers are ints unless a decimal
//! point follows, two-character operators win over one-character ones,
//! and bare words fall through keyword, function, `on`/`to` and boolean
//! tables (the first two case-insensitively) before becoming
//! identifiers. A float literal is carried as its lexeme.

use vstd::prelude::*;
use crate::text::{
    chars_eq_str, chars_to_string, is_ws, lower_char, lower_chars, str_to_chars, subrange_chars,
    to_lower,
};

verus! {

#[derive(Debug, Clone, Copy, PartialEq, Eq, Structural)]
pub enum Keyword {
    Show,
    Create,
    Add,
    Find,
    Limit,
    Where,
}

#[derive(Debug, Clone, Copy, PartialEq, Eq, Structural)]
pub enum Function {
    Sum,
    Max,
    Min,
    Avg,
    Count,
}

#[derive(Debug, Clone, Copy, PartialEq, Eq, Structural)]
pub enum Operator {
    Add,
    Multiply,
    Subtract,
    Divide,
    Modulus,
    Equal,
    NotEqual,
    Less,
    Greater,
    GreaterOrEqual,
    LessOrEqual,
}

/// A scanned token. `EOF` is the `;` that ends a command; a float
/// literal carries its decimal lexeme as written.
#[derive(Debug, PartialEq)]
pub enum Token {
    LiteralStr(String),
    LiteralInt(i64),
    LiteralFloat(String),
    LiteralBool(bool),
    Identifier(String),
    Accessor,
    EOF,
    Seperator,
    GroupStart,
    GroupEnd,
    Assign,
    AuxiliaryOn,
    AuxiliaryTo,
    Keyword(Keyword),
    Function(Function),
    Operator(Operator),
}

/// The mathematical shape of a token: the same cases over character
/// sequences and unbounded ints.
pub enum SpecToken {
    LiteralStr(Seq<char>),
    LiteralInt(int),
    LiteralFloat(Seq<char>),
    LiteralBool(bool),
    Identifier(Seq<char>),
    Accessor,
    EOF,
    Seperator,
    GroupStart,
    GroupEnd,
    Assign,
    AuxiliaryOn,
    AuxiliaryTo,
    Keyword(Keyword),
    Function(Function),
    Operator(Operator),
}

impl View for Token {
    type V = SpecToken;

    open spec fn view(&self) -> SpecToken {
        match self {
            Token::LiteralStr(s) => SpecToken::LiteralStr(s@),
            Token::LiteralInt(n) => SpecToken::LiteralInt(*n as int),
            Token::LiteralFloat(s) => SpecToken::LiteralFloat(s@),
            Token::LiteralBool(b) => SpecToken::LiteralBool(*b),
            Token::Identifier(s) => SpecToken::Identifier(s@),
            Token::Accessor => SpecToken::Accessor,
            Token::EOF => SpecToken::EOF,
            Token::Seperator => SpecToken::Seperator,
            Token::GroupStart => SpecToken::GroupStart,
            Token::GroupEnd => SpecToken::GroupEnd,
            Token::Assign => SpecToken::Assign,
            Token::AuxiliaryOn => SpecToken::AuxiliaryOn,
            Token::AuxiliaryTo => SpecToken::AuxiliaryTo,
            Token::Keyword(k) => SpecToken::Keyword(*k),
            Token::Function(f) => SpecToken::Function(*f),
            Token::Operator(o) => SpecToken::Operator(*o),
        }
    }
}

impl Clone for Token {
    fn clone(&self) -> (r: Self)
        ensures
            r@ == self@,
    {
        match self {
            Token::LiteralStr(s) => Token::LiteralStr(s.clone()),
            Token::LiteralInt(n) => Token::LiteralInt(*n),
            Token::LiteralFloat(s) => Token::LiteralFloat(s.clone()),
            Token::LiteralBool(b) => Token::LiteralBool(*b),
            Token::Identifier(s) => Token::Identifier(s.clone()),
            Token::Accessor => Token::Accessor,
            Token::EOF => Token::EOF,
            Token::Seperator => Token::Seperator,
            Token::GroupStart => Token::GroupStart,
            Token::GroupEnd => Token::GroupEnd,
            Token::Assign => Token::Assign,
            Token::AuxiliaryOn => Token::AuxiliaryOn,
            Token::AuxiliaryTo => Token::AuxiliaryTo,
            Token::Keyword(k) => Token::Keyword(*k),
            Token::Function(f) => Token::Function(*f),
            Token::Operator(o) => Token::Operator(*o),
        }
    }
}

/// A scan error, with the line and column it was noticed at.
#[derive(Debug, PartialEq)]
pub struct TokenizerError {
    pub message: String,
    pub line_position: usize,
    pub char_position: usize,
}

impl TokenizerError {
    pub fn new(message: &str, line_position: usize, char_position: usize) -> (r: Self)
        ensures
            r.message@ == message@,
            r.line_position == line_position,
            r.char_position == char_position,
    {
        TokenizerError { message: message.to_owned(), line_position, char_position }
    }
}

impl Clone for TokenizerError {
    fn clone(&self) -> (r: Self)
        ensures
            r.message@ == self.message@,
            r.line_position == self.line_position,
            r.char_position == self.char_position,
    {
        TokenizerError {
            message: self.message.clone(),
            line_position: self.line_position,
            char_position: self.char_position,
        }
    }
}

/// Whether a character may begin or continue a bare word: ASCII letters
/// and `_` begin one; digits and `-` may continue one.
pub open spec fn is_word_start(c: char) -> bool {
    ('a' <= c && c <= 'z') || ('A' <= c && c <= 'Z') || c == '_'
}

pub open spec fn is_word_char(c: char) -> bool {
    is_word_start(c) || ('0' <= c && c <= '9') || c == '-'
}

pub open spec fn is_digit(c: char) -> bool {
    '0' <= c && c <= '9'
}

/// The index of the first character that is neither whitespace nor part
/// of a `//` comment, scanning from `i`; comments run to their newline.
pub open spec fn blank_from(s: Seq<char>, i: int, in_comment: bool) -> int
    decreases s.len() - i,
{
    if i < 0 || i >= s.len() {
        if i < 0 {
            0
        } else {
            s.len() as int
        }
    } else if in_comment {
        if s[i] == '\n' {
            blank_from(s, i + 1, false)
        } else {
            blank_from(s, i + 1, true)
        }
    } else if is_ws(s[i]) {
        blank_from(s, i + 1, false)
    } else if s[i] == '/' && i + 1 < s.len() && s[i + 1] == '/' {
        blank_from(s, i + 2, true)
    } else {
        i
    }
}

/// `blank_from` never moves backwards and stays within the input.
pub proof fn lemma_blank_from(s: Seq<char>, i: int, in_comment: bool)
    requires
        0 <= i <= s.len(),
    ensures
        i <= blank_from(s, i, in_comment) <= s.len(),
    decreases s.len() - i,
{
    if i < s.len() {
        if in_comment {
            lemma_blank_from(s, i + 1, s[i] != '\n');
        } else if is_ws(s[i]) {
            lemma_blank_from(s, i + 1, false);
        } else if s[i] == '/' && i + 1 < s.len() && s[i + 1] == '/' {
            if i + 2 <= s.len() {
                lemma_blank_from(s, i + 2, true);
            }
        }
    }
}

/// The end of a run of word characters starting at `i`.
pub open spec fn word_end(s: Seq<char>, i: int) -> int
    decreases s.len() - i,
{
    if 0 <= i < s.len() && is_word_char(s[i]) {
        word_end(s, i + 1)
    } else {
        i
    }
}

pub proof fn lemma_word_end(s: Seq<char>, i: int)
    requires
        0 <= i <= s.len(),
    ensures
        i <= word_end(s, i) <= s.len(),
    decreases s.len() - i,
{
    if i < s.len() && is_word_char(s[i]) {
        lemma_word_end(s, i + 1);
    }
}

/// The end of a run of digits starting at `i`.
pub open spec fn digits_end(s: Seq<char>, i: int) -> int
    decreases s.len() - i,
{
    if 0 <= i < s.len() && is_digit(s[i]) {
        digits_end(s, i + 1)
    } else {
        i
    }
}

pub proof fn lemma_digits_end(s: Seq<char>, i: int)
    requires
        0 <= i <= s.len(),
    ensures
        i <= digits_end(s, i) <= s.len(),
        forall|j: int| i <= j < digits_end(s, i) ==> is_digit(s[j]),
    decreases s.len() - i,
{
    if i < s.len() && is_digit(s[i]) {
        lemma_digits_end(s, i + 1);
    }
}

/// The index of the closing quote at or after `i`, or the length.
pub open spec fn quote_end(s: Seq<char>, i: int) -> int
    decreases s.len() - i,
{
    if i < 0 || i >= s.len() {
        if i < 0 {
            0
        } else {
            s.len() as int
        }
    } else if s[i] == '"' {
        i
    } else {
        quote_end(s, i + 1)
    }
}

pub proof fn lemma_quote_end(s: Seq<char>, i: int)
    requires
        0 <= i <= s.len(),
    ensures
        i <= quote_end(s, i) <= s.len(),
        quote_end(s, i) < s.len() ==> s[quote_end(s, i)] == '"',
    decreases s.len() - i,
{
    if i < s.len() && s[i] != '"' {
        lemma_quote_end(s, i + 1);
    }
}

/// The numeric value of a digit run, most significant first.
pub open spec fn dec_val(ds: Seq<char>) -> int
    decreases ds.len(),
{
    if ds.len() == 0 {
        0
    } else {
        dec_val(ds.drop_last()) * 10 + (ds.last() as u32) as int - ('0' as u32) as int
    }
}

/// Digit runs have non-negative values that only grow as digits follow.
pub proof fn lemma_dec_val_bounds(ds: Seq<char>)
    requires
        forall|j: int| 0 <= j < ds.len() ==> is_digit(ds[j]),
    ensures
        dec_val(ds) >= 0,
        forall|k: int| 0 <= k <= ds.len() ==> dec_val(#[trigger] ds.take(k)) <= dec_val(ds),
    decreases ds.len(),
{
    if ds.len() > 0 {
        lemma_dec_val_bounds(ds.drop_last());
        assert(('0' as u32) <= (ds.last() as u32) <= ('9' as u32));
        assert forall|k: int| 0 <= k <= ds.len() implies dec_val(#[trigger] ds.take(k)) <= dec_val(
            ds,
        ) by {
            if k < ds.len() {
                assert(ds.drop_last().take(k) =~= ds.take(k));
            } else {
                assert(ds.take(k) =~= ds);
            }
        }
    }
}

/// The token a bare word denotes, tried in order: keyword table and
/// function table case-insensitively, then `on`, `to`, `true`, `false`
/// exactly, else an identifier.
pub open spec fn classify_word(w: Seq<char>) -> SpecToken {
    let l = to_lower(w);
    if l == "show"@ {
        SpecToken::Keyword(Keyword::Show)
    } else if l == "create"@ {
        SpecToken::Keyword(Keyword::Create)
    } else if l == "add"@ {
        SpecToken::Keyword(Keyword::Add)
    } else if l == "find"@ {
        SpecToken::Keyword(Keyword::Find)
    } else if l == "limit"@ {
        SpecToken::Keyword(Keyword::Limit)
    } else if l == "where"@ {
        SpecToken::Keyword(Keyword::Where)
    } else if l == "sum"@ {
        SpecToken::Function(Function::Sum)
    } else if l == "max"@ {
        SpecToken::Function(Function::Max)
    } else if l == "min"@ {
        SpecToken::Function(Function::Min)
    } else if l == "avg"@ {
        SpecToken::Function(Function::Avg)
    } else if l == "count"@ {
        SpecToken::Function(Function::Count)
    } else if w == "on"@ {
        SpecToken::AuxiliaryOn
    } else if w == "to"@ {
        SpecToken::AuxiliaryTo
    } else if w == "true"@ {
        SpecToken::LiteralBool(true)
    } else if w == "false"@ {
        SpecToken::LiteralBool(false)
    } else {
        SpecToken::Identifier(w)
    }
}

/// One step of the scan at position `i`: the next token and the position
/// after it, the end of input, or a scan error (an unsupported
/// character, an unterminated string, or an int literal out of range).
pub enum SpecNext {
    Tok(SpecToken, int),
    End,
    Fail,
}

pub open spec fn spec_next(s: Seq<char>, i: int) -> SpecNext {
    let b = blank_from(s, i, false);
    if b >= s.len() {
        SpecNext::End
    } else {
        let c = s[b];
        if c == ';' {
            SpecNext::Tok(SpecToken::EOF, b + 1)
        } else if c == ',' {
            SpecNext::Tok(SpecToken::Seperator, b + 1)
        } else if c == '(' {
            SpecNext::Tok(SpecToken::GroupStart, b + 1)
        } else if c == ')' {
            SpecNext::Tok(SpecToken::GroupEnd, b + 1)
        } else if c == '.' {
            SpecNext::Tok(SpecToken::Accessor, b + 1)
        } else if c == '=' {
            if b + 1 < s.len() && s[b + 1] == '=' {
                SpecNext::Tok(SpecToken::Operator(Operator::Equal), b + 2)
            } else {
                SpecNext::Tok(SpecToken::Assign, b + 1)
            }
        } else if c == '!' {
            if b + 1 < s.len() && s[b + 1] == '=' {
                SpecNext::Tok(SpecToken::Operator(Operator::NotEqual), b + 2)
            } else {
                SpecNext::Fail
            }
        } else if c == '<' {
            if b + 1 < s.len() && s[b + 1] == '=' {
                SpecNext::Tok(SpecToken::Operator(Operator::LessOrEqual), b + 2)
            } else {
                SpecNext::Tok(SpecToken::Operator(Operator::Less), b + 1)
            }
        } else if c == '>' {
            if b + 1 < s.len() && s[b + 1] == '=' {
                SpecNext::Tok(SpecToken::Operator(Operator::GreaterOrEqual), b + 2)
            } else {
                SpecNext::Tok(SpecToken::Operator(Operator::Greater), b + 1)
            }
        } else if c == '+' {
            SpecNext::Tok(SpecToken::Operator(Operator::Add), b + 1)
        } else if c == '-' {
            SpecNext::Tok(SpecToken::Operator(Operator::Subtract), b + 1)
        } else if c == '*' {
            SpecNext::Tok(SpecToken::Operator(Operator::Multiply), b + 1)
        } else if c == '/' {
            SpecNext::Tok(SpecToken::Operator(Operator::Divide), b + 1)
        } else if c == '%' {
            SpecNext::Tok(SpecToken::Operator(Operator::Modulus), b + 1)
        } else if c == '"' {
            let q = quote_end(s, b + 1);
            if q >= s.len() {
                SpecNext::Fail
            } else {
                SpecNext::Tok(SpecToken::LiteralStr(s.subrange(b + 1, q)), q + 1)
            }
        } else if is_digit(c) {
            let de = digits_end(s, b);
            if de < s.len() && s[de] == '.' {
                let fe = digits_end(s, de + 1);
                SpecNext::Tok(SpecToken::LiteralFloat(s.subrange(b, fe)), fe)
            } else {
                let v = dec_val(s.subrange(b, de));
                if v > i64::MAX as int {
                    SpecNext::Fail
                } else {
                    SpecNext::Tok(SpecToken::LiteralInt(v), de)
                }
            }
        } else if is_word_start(c) {
            let we = word_end(s, b);
            SpecNext::Tok(classify_word(s.subrange(b, we)), we)
        } else {
            SpecNext::Fail
        }
    }
}

/// A produced token always moves the scan forward and stays in bounds.
pub proof fn lemma_spec_next_progress(s: Seq<char>, i: int)
    requires
        0 <= i <= s.len(),
    ensures
        spec_next(s, i) matches SpecNext::Tok(t, j) ==> i < j <= s.len() && blank_from(
            s,
            i,
            false,
        ) < j,
{
    lemma_blank_from(s, i, false);
    let b = blank_from(s, i, false);
    if b < s.len() {
        lemma_quote_end(s, b + 1);
        lemma_digits_end(s, b);
        if digits_end(s, b) + 1 <= s.len() {
            lemma_digits_end(s, digits_end(s, b) + 1);
        }
        lemma_word_end(s, b);
        if is_digit(s[b]) {
            lemma_digits_end(s, b + 1);
            assert(digits_end(s, b) == digits_end(s, b + 1));
            assert(digits_end(s, b) > b);
        }
        if is_word_start(s[b]) {
            lemma_word_end(s, b + 1);
            assert(word_end(s, b) == word_end(s, b + 1));
            assert(word_end(s, b) > b);
        }
    }
}

/// Every token of the input from position `i` on, with a flag that is
/// set when the scan ends in an error rather than at the end of input.
pub open spec fn spec_tokens(s: Seq<char>, i: int) -> (Seq<SpecToken>, bool)
    decreases s.len() - i,
    when 0 <= i <= s.len()
    via spec_tokens_dec
{
    match spec_next(s, i) {
        SpecNext::End => (Seq::empty(), false),
        SpecNext::Fail => (Seq::empty(), true),
        SpecNext::Tok(t, j) => {
            let rest = spec_tokens(s, j);
            (seq![t] + rest.0, rest.1)
        },
    }
}

#[via_fn]
proof fn spec_tokens_dec(s: Seq<char>, i: int) {
    lemma_spec_next_progress(s, i);
}

/// Where the scan gives up when it does fail: the position its failing
/// step's blank skip stopped at. Meaningful only when `spec_tokens`
/// reports an error.
pub open spec fn fail_pos(s: Seq<char>, i: int) -> int
    decreases s.len() - i,
    when 0 <= i <= s.len()
    via fail_pos_dec
{
    match spec_next(s, i) {
        SpecNext::Tok(t, j) => fail_pos(s, j),
        _ => blank_from(s, i, false),
    }
}

#[via_fn]
proof fn fail_pos_dec(s: Seq<char>, i: int) {
    lemma_spec_next_progress(s, i);
}

/// Scanning after a fixed prefix sees only the suffix: the blank scan
/// shifts with the prefix length.
proof fn lemma_blank_shift(p: Seq<char>, s: Seq<char>, i: int, c: bool)
    requires
        0 <= i <= s.len(),
    ensures
        blank_from(p + s, p.len() + i, c) == p.len() + blank_from(s, i, c),
    decreases s.len() - i,
{
    if i < s.len() {
        assert((p + s)[p.len() + i] == s[i]);
        if c {
            lemma_blank_shift(p, s, i + 1, s[i] != '\n');
        } else if is_ws(s[i]) {
            lemma_blank_shift(p, s, i + 1, false);
        } else if s[i] == '/' && i + 1 < s.len() && s[i + 1] == '/' {
            assert((p + s)[p.len() + i + 1] == s[i + 1]);
            lemma_blank_shift(p, s, i + 2, true);
        }
    }
}

/// The word scan shifts with a prefix.
proof fn lemma_word_end_shift(p: Seq<char>, s: Seq<char>, i: int)
    requires
        0 <= i <= s.len(),
    ensures
        word_end(p + s, p.len() + i) == p.len() + word_end(s, i),
    decreases s.len() - i,
{
    if i < s.len() {
        assert((p + s)[p.len() + i] == s[i]);
        if is_word_char(s[i]) {
            lemma_word_end_shift(p, s, i + 1);
        }
    }
}

/// The digit scan shifts with a prefix.
proof fn lemma_digits_end_shift(p: Seq<char>, s: Seq<char>, i: int)
    requires
        0 <= i <= s.len(),
    ensures
        digits_end(p + s, p.len() + i) == p.len() + digits_end(s, i),
    decreases s.len() - i,
{
    if i < s.len() {
        assert((p + s)[p.len() + i] == s[i]);
        if is_digit(s[i]) {
            lemma_digits_end_shift(p, s, i + 1);
        }
    }
}

/// The quote scan shifts with a prefix.
proof fn lemma_quote_end_shift(p: Seq<char>, s: Seq<char>, i: int)
    requires
        0 <= i <= s.len(),
    ensures
        quote_end(p + s, p.len() + i) == p.len() + quote_end(s, i),
    decreases s.len() - i,
{
    if i < s.len() {
        assert((p + s)[p.len() + i] == s[i]);
        if s[i] != '"' {
            lemma_quote_end_shift(p, s, i + 1);
        }
    }
}

/// One scan step after a fixed prefix is the suffix's own step, with its
/// position shifted.
proof fn lemma_next_shift(p: Seq<char>, s: Seq<char>, i: int)
    requires
        0 <= i <= s.len(),
    ensures
        match spec_next(s, i) {
            SpecNext::End => spec_next(p + s, p.len() + i) is End,
            SpecNext::Fail => spec_next(p + s, p.len() + i) is Fail,
            SpecNext::Tok(t, j) => spec_next(p + s, p.len() + i) == SpecNext::Tok(t, p.len() + j),
        },
{
    lemma_blank_shift(p, s, i, false);
    lemma_blank_from(s, i, false);
    let b = blank_from(s, i, false);
    if b < s.len() {
        assert((p + s)[p.len() + b] == s[b]);
        if b + 1 < s.len() {
            assert((p + s)[p.len() + b + 1] == s[b + 1]);
        }
        let c = s[b];
        if c == '"' {
            lemma_quote_end_shift(p, s, b + 1);
            lemma_quote_end(s, b + 1);
            let q = quote_end(s, b + 1);
            if q < s.len() {
                assert((p + s).subrange(p.len() + b + 1, p.len() + q) =~= s.subrange(b + 1, q));
            }
        } else if is_digit(c) {
            lemma_digits_end_shift(p, s, b);
            lemma_digits_end(s, b);
            let de = digits_end(s, b);
            if de < s.len() {
                assert((p + s)[p.len() + de] == s[de]);
            }
            if de < s.len() && s[de] == '.' {
                lemma_digits_end_shift(p, s, de + 1);
                let fe = digits_end(s, de + 1);
                lemma_digits_end(s, de + 1);
                assert((p + s).subrange(p.len() + b, p.len() + fe) =~= s.subrange(b, fe));
            } else {
                assert((p + s).subrange(p.len() + b, p.len() + de) =~= s.subrange(b, de));
            }
        } else if is_word_start(c) {
            lemma_word_end_shift(p, s, b);
            lemma_word_end(s, b);
            let we = word_end(s, b);
            assert((p + s).subrange(p.len() + b, p.len() + we) =~= s.subrange(b, we));
        }
    }
}

/// The whole token stream after a fixed prefix is the suffix's own.
proof fn lemma_tokens_shift(p: Seq<char>, s: Seq<char>, i: int)
    requires
        0 <= i <= s.len(),
    ensures
        spec_tokens(p + s, p.len() + i) == spec_tokens(s, i),
    decreases s.len() - i,
{
    lemma_next_shift(p, s, i);
    lemma_spec_next_progress(s, i);
    match spec_next(s, i) {
        SpecNext::End => {},
        SpecNext::Fail => {},
        SpecNext::Tok(t, j) => {
            lemma_tokens_shift(p, s, j);
        },
    }
}

/// A run of whitespace is walked through by the blank scan.
proof fn lemma_blank_walk_ws(s: Seq<char>, i: int, j: int)
    requires
        0 <= i <= j <= s.len(),
        forall|k: int| i <= k < j ==> is_ws(s[k]),
    ensures
        blank_from(s, i, false) == blank_from(s, j, false),
    decreases j - i,
{
    if i < j {
        lemma_blank_walk_ws(s, i + 1, j);
    }
}

/// A comment body is walked through by the blank scan up to its newline.
proof fn lemma_blank_walk_comment(s: Seq<char>, m: int, j: int)
    requires
        0 <= m < j <= s.len(),
        forall|k: int| m <= k < j - 1 ==> s[k] != '\n',
        s[j - 1] == '\n',
    ensures
        blank_from(s, m, true) == blank_from(s, j, false),
    decreases j - m,
{
    if m < j - 1 {
        lemma_blank_walk_comment(s, m + 1, j);
    }
}

/// Scans that skip to the same place read the same tokens.
proof fn lemma_tokens_same_start(s: Seq<char>, i: int, j: int)
    requires
        0 <= i <= s.len(),
        0 <= j <= s.len(),
        blank_from(s, i, false) == blank_from(s, j, false),
    ensures
        spec_tokens(s, i) == spec_tokens(s, j),
{
    assert(spec_next(s, i) == spec_next(s, j));
}

/// The scan positions the tokenizer visits: the start of the scan and
/// the position after each token it reads.
pub open spec fn reaches(s: Seq<char>, i: int, j: int) -> bool
    decreases s.len() - i,
    when 0 <= i <= s.len()
    via reaches_dec
{
    i == j || match spec_next(s, i) {
        SpecNext::Tok(t, k) => reaches(s, k, j),
        _ => false,
    }
}

#[via_fn]
proof fn reaches_dec(s: Seq<char>, i: int, j: int) {
    lemma_spec_next_progress(s, i);
}

/// Visited positions never lie behind the scan.
proof fn lemma_reaches_le(s: Seq<char>, i: int, j: int)
    requires
        0 <= i <= s.len(),
        reaches(s, i, j),
    ensures
        i <= j <= s.len(),
    decreases s.len() - i,
{
    if i != j {
        lemma_spec_next_progress(s, i);
        match spec_next(s, i) {
            SpecNext::Tok(t, k) => {
                lemma_reaches_le(s, k, j);
            },
            _ => {},
        }
    }
}

/// Two inputs that agree below `n` blank-scan alike, as long as the scan
/// stays below `n` and the character `s2` has at `n` cannot open a
/// comment together with the one before it.
proof fn lemma_blank_agree(s1: Seq<char>, s2: Seq<char>, n: int, i: int, c: bool)
    requires
        0 <= i <= n <= s1.len(),
        n <= s2.len(),
        forall|m: int| 0 <= m < n ==> s1[m] == s2[m],
        n < s2.len() ==> is_ws(s2[n]) || s2[n] == '/',
        n < s2.len() && s2[n] == '/' && n > 0 ==> s1[n - 1] != '/',
        blank_from(s1, i, c) < n,
    ensures
        blank_from(s2, i, c) == blank_from(s1, i, c),
    decreases n - i,
{
    lemma_blank_from(s1, i, c);
    if i < n {
        assert(s1[i] == s2[i]);
        if c {
            lemma_blank_agree(s1, s2, n, i + 1, s1[i] != '\n');
        } else if is_ws(s1[i]) {
            lemma_blank_agree(s1, s2, n, i + 1, false);
        } else if s1[i] == '/' && i + 1 < s1.len() && s1[i + 1] == '/' {
            if i + 1 < n {
                lemma_blank_agree(s1, s2, n, i + 2, true);
            } else {
                lemma_blank_from(s1, i + 2, true);
                assert(blank_from(s1, i, c) >= i + 2);
                assert(false);
            }
        } else {
            if s1[i] == '/' {
                if i + 1 < n {
                    assert(s2[i + 1] == s1[i + 1]);
                } else if i + 1 == n && n < s2.len() && s2[n] == '/' {
                    assert(s1[n - 1] == '/');
                    assert(false);
                }
            }
        }
    }
}

/// Word scans agree below `n` when the scan stops by `n` and `s2` stops
/// it at `n` too.
proof fn lemma_word_agree(s1: Seq<char>, s2: Seq<char>, n: int, i: int)
    requires
        0 <= i <= n <= s1.len(),
        n <= s2.len(),
        forall|m: int| 0 <= m < n ==> s1[m] == s2[m],
        n < s2.len() ==> is_ws(s2[n]) || s2[n] == '/',
        word_end(s1, i) <= n,
    ensures
        word_end(s2, i) == word_end(s1, i),
    decreases n - i,
{
    lemma_word_end(s1, i);
    if i < n {
        assert(s1[i] == s2[i]);
        if is_word_char(s1[i]) {
            lemma_word_end(s1, i + 1);
            lemma_word_agree(s1, s2, n, i + 1);
        }
    } else {
        if n < s2.len() {
            assert(!is_word_char(s2[n]));
        }
    }
}

/// Digit scans agree below `n` under the same conditions.
proof fn lemma_digits_agree(s1: Seq<char>, s2: Seq<char>, n: int, i: int)
    requires
        0 <= i <= n <= s1.len(),
        n <= s2.len(),
        forall|m: int| 0 <= m < n ==> s1[m] == s2[m],
        n < s2.len() ==> is_ws(s2[n]) || s2[n] == '/',
        digits_end(s1, i) <= n,
    ensures
        digits_end(s2, i) == digits_end(s1, i),
    decreases n - i,
{
    lemma_digits_end(s1, i);
    if i < n {
        assert(s1[i] == s2[i]);
        if is_digit(s1[i]) {
            lemma_digits_end(s1, i + 1);
            lemma_digits_agree(s1, s2, n, i + 1);
        }
    } else {
        if n < s2.len() {
            assert(!is_digit(s2[n]));
        }
    }
}

/// Quote scans agree when the closing quote lies below `n`.
proof fn lemma_quote_agree(s1: Seq<char>, s2: Seq<char>, n: int, i: int)
    requires
        0 <= i <= n <= s1.len(),
        n <= s2.len(),
        forall|m: int| 0 <= m < n ==> s1[m] == s2[m],
        quote_end(s1, i) < n,
    ensures
        quote_end(s2, i) == quote_end(s1, i),
    decreases n - i,
{
    lemma_quote_end(s1, i);
    if i < n {
        assert(s1[i] == s2[i]);
        if s1[i] != '"' {
            lemma_quote_end(s1, i + 1);
            lemma_quote_agree(s1, s2, n, i + 1);
        }
    }
}

/// One scan step is the same over two inputs that agree up to `n`, as
/// long as the step ends by `n` and what `s2` holds at `n` is whitespace
/// or a comment opener not glued to a `/`.
#[verifier::rlimit(100)]
proof fn lemma_next_agree(s1: Seq<char>, s2: Seq<char>, n: int, i: int, t: SpecToken, k: int)
    requires
        0 <= i <= n <= s1.len(),
        n <= s2.len(),
        forall|m: int| 0 <= m < n ==> s1[m] == s2[m],
        n < s2.len() ==> is_ws(s2[n]) || s2[n] == '/',
        n < s2.len() && s2[n] == '/' && n > 0 ==> s1[n - 1] != '/',
        spec_next(s1, i) == SpecNext::Tok(t, k),
        k <= n,
    ensures
        spec_next(s2, i) == SpecNext::Tok(t, k),
{
    lemma_spec_next_progress(s1, i);
    lemma_blank_from(s1, i, false);
    let b = blank_from(s1, i, false);
    assert(b < k && b < s1.len());
    lemma_blank_agree(s1, s2, n, i, false);
    assert(blank_from(s2, i, false) == b);
    assert(s1[b] == s2[b]);
    let c = s1[b];
    if c == '=' || c == '<' || c == '>' {
        if b + 1 < s1.len() && s1[b + 1] == '=' {
            assert(b + 2 == k);
            assert(b + 1 < n);
            assert(s2[b + 1] == s1[b + 1]);
        } else {
            assert(b + 1 == k);
            if b + 1 < s2.len() && s2[b + 1] == '=' {
                assert(b + 1 < n ==> s1[b + 1] == '=');
                assert(b + 1 == n);
                assert(!(is_ws(s2[n]) || s2[n] == '/'));
            }
        }
    } else if c == '!' {
        assert(b + 1 < s1.len() && s1[b + 1] == '=');
        assert(b + 2 == k);
        assert(b + 1 < n);
        assert(s2[b + 1] == s1[b + 1]);
    } else if c == '"' {
        lemma_quote_end(s1, b + 1);
        let q = quote_end(s1, b + 1);
        assert(q < s1.len());
        assert(k == q + 1);
        lemma_quote_agree(s1, s2, n, b + 1);
        assert(s2.subrange(b + 1, q) =~= s1.subrange(b + 1, q));
        assert(q < s2.len());
        lemma_quote_end(s2, b + 1);
        assert(s2[q] == s1[q]);
    } else if is_digit(c) {
        lemma_digits_end(s1, b);
        let de = digits_end(s1, b);
        if de < s1.len() && s1[de] == '.' {
            let fe = digits_end(s1, de + 1);
            assert(k == fe);
            lemma_digits_end(s1, de + 1);
            assert(de < n);
            lemma_digits_agree(s1, s2, n, b);
            assert(s2[de] == s1[de]);
            lemma_digits_agree(s1, s2, n, de + 1);
            assert(s2.subrange(b, fe) =~= s1.subrange(b, fe));
        } else {
            assert(k == de);
            lemma_digits_agree(s1, s2, n, b);
            if de < s2.len() && de < n {
                assert(s2[de] == s1[de]);
            }
            if de == n && n < s2.len() {
                assert(s2[n] != '.');
            }
            assert(s2.subrange(b, de) =~= s1.subrange(b, de));
        }
    } else if is_word_start(c) {
        let we = word_end(s1, b);
        assert(k == we);
        lemma_word_end(s1, b);
        lemma_word_agree(s1, s2, n, b);
        assert(s2.subrange(b, we) =~= s1.subrange(b, we));
    }
}

/// Inserting neutral text at a visited scan position changes none of the
/// tokens: from `i` on, the streams agree.
proof fn lemma_insert_neutral(s1: Seq<char>, s2: Seq<char>, n: int, w_len: int, i: int)
    requires
        0 <= i <= n <= s1.len(),
        0 < w_len,
        s2.len() == s1.len() + w_len,
        forall|m: int| 0 <= m < n ==> s1[m] == s2[m],
        forall|m: int| n <= m < s1.len() ==> s1[m] == s2[m + w_len],
        is_ws(s2[n]) || s2[n] == '/',
        s2[n] == '/' && n > 0 ==> s1[n - 1] != '/',
        blank_from(s2, n, false) == blank_from(s2, n + w_len, false),
        reaches(s1, i, n),
    ensures
        spec_tokens(s2, i) == spec_tokens(s1, i),
    decreases n - i,
{
    if i == n {
        lemma_tokens_same_start(s2, n, n + w_len);
        let a2 = s2.subrange(0, n + w_len);
        let b2 = s2.subrange(n + w_len, s2.len() as int);
        assert(s2 =~= a2 + b2);
        lemma_tokens_shift(a2, b2, 0);
        let a1 = s1.subrange(0, n);
        let b1 = s1.subrange(n, s1.len() as int);
        assert(s1 =~= a1 + b1);
        lemma_tokens_shift(a1, b1, 0);
        assert(b1 =~= b2);
    } else {
        lemma_spec_next_progress(s1, i);
        match spec_next(s1, i) {
            SpecNext::Tok(t, k) => {
                lemma_reaches_le(s1, k, n);
                lemma_next_agree(s1, s2, n, i, t, k);
                lemma_insert_neutral(s1, s2, n, w_len, k);
            },
            _ => {
                assert(false);
            },
        }
    }
}

/// Whitespace neutrality: any non-empty run of whitespace inserted at a
/// point the plain input's scan visits, that is, between its
/// tokens, leaves the token stream exactly as it was.
pub proof fn lemma_whitespace_between_neutral(a: Seq<char>, w: Seq<char>, b: Seq<char>)
    requires
        w.len() > 0,
        forall|k: int| 0 <= k < w.len() ==> is_ws(w[k]),
        reaches(a + b, 0, a.len() as int),
    ensures
        spec_tokens(a + w + b, 0) == spec_tokens(a + b, 0),
{
    let s1 = a + b;
    let s2 = a + w + b;
    let n = a.len() as int;
    assert forall|m: int| 0 <= m < n implies s1[m] == s2[m] by {
        assert(s1[m] == a[m] && s2[m] == a[m]);
    }
    assert forall|m: int| n <= m < s1.len() implies s1[m] == s2[m + w.len()] by {
        assert(s1[m] == b[m - n]);
        assert(s2[m + w.len()] == b[m - n]);
    }
    assert(s2[n] == w[0]);
    assert forall|m: int| n <= m < n + w.len() implies is_ws(s2[m]) by {
        assert(s2[m] == w[m - n]);
    }
    lemma_blank_walk_ws(s2, n, n + w.len());
    lemma_insert_neutral(s1, s2, n, w.len() as int, 0);
}

/// Comment neutrality: a whole `//` comment line inserted at a point the
/// plain input's scan visits is a no-op, unless the character
/// just before the insertion point is itself a `/` (then the two glue
/// into a comment opener and swallow it).
pub proof fn lemma_comment_between_neutral(a: Seq<char>, text: Seq<char>, b: Seq<char>)
    requires
        forall|k: int| 0 <= k < text.len() ==> text[k] != '\n',
        reaches(a + b, 0, a.len() as int),
        a.len() > 0 ==> a[a.len() - 1] != '/',
    ensures
        spec_tokens(a + (seq!['/', '/'] + text + seq!['\n']) + b, 0) == spec_tokens(a + b, 0),
{
    let w = seq!['/', '/'] + text + seq!['\n'];
    let s1 = a + b;
    let s2 = a + w + b;
    let n = a.len() as int;
    assert forall|m: int| 0 <= m < n implies s1[m] == s2[m] by {
        assert(s1[m] == a[m] && s2[m] == a[m]);
    }
    assert forall|m: int| n <= m < s1.len() implies s1[m] == s2[m + w.len()] by {
        assert(s1[m] == b[m - n]);
        assert(s2[m + w.len()] == b[m - n]);
    }
    assert(s2[n] == '/' && s2[n + 1] == '/');
    assert(!is_ws('/'));
    assert(blank_from(s2, n, false) == blank_from(s2, n + 2, true));
    assert forall|m: int| n + 2 <= m < n + w.len() - 1 implies s2[m] != '\n' by {
        assert(s2[m] == text[m - n - 2]);
    }
    assert(s2[n + w.len() - 1] == '\n');
    lemma_blank_walk_comment(s2, n + 2, n + w.len());
    lemma_insert_neutral(s1, s2, n, w.len() as int, 0);
}

/// Skips whitespace and comments, as `blank_from` describes.
fn skip_blanks(v: &Vec<char>, start: usize) -> (r: usize)
    requires
        start <= v@.len(),
    ensures
        r as int == blank_from(v@, start as int, false),
        start <= r <= v@.len(),
{
    let mut i = start;
    let mut in_comment = false;
    loop
        invariant
            start <= i <= v@.len(),
            blank_from(v@, start as int, false) == blank_from(v@, i as int, in_comment),
        decreases v@.len() - i + (if in_comment {
            1int
        } else {
            0int
        }),
    {
        if i >= v.len() {
            return i;
        }
        let c = v[i];
        if in_comment {
            if c == '\n' {
                in_comment = false;
            }
            i += 1;
        } else if crate::text::char_is_ws(c) {
            i += 1;
        } else if c == '/' && i + 1 < v.len() && v[i + 1] == '/' {
            in_comment = true;
            i += 2;
        } else {
            return i;
        }
    }
}

/// Whether a character may continue a bare word.
fn char_is_word(c: char) -> (r: bool)
    ensures
        r == is_word_char(c),
{
    ('a' <= c && c <= 'z') || ('A' <= c && c <= 'Z') || c == '_' || ('0' <= c && c <= '9') || c
        == '-'
}

/// Scans to the end of a word, as `word_end` describes.
fn scan_word_end(v: &Vec<char>, start: usize) -> (r: usize)
    requires
        start <= v@.len(),
    ensures
        r as int == word_end(v@, start as int),
        start <= r <= v@.len(),
{
    let mut i = start;
    while i < v.len() && char_is_word(v[i])
        invariant
            start <= i <= v@.len(),
            word_end(v@, start as int) == word_end(v@, i as int),
        decreases v@.len() - i,
    {
        i += 1;
    }
    i
}

/// Scans to the end of a digit run, as `digits_end` describes.
fn scan_digits_end(v: &Vec<char>, start: usize) -> (r: usize)
    requires
        start <= v@.len(),
    ensures
        r as int == digits_end(v@, start as int),
        start <= r <= v@.len(),
{
    let mut i = start;
    while i < v.len() && '0' <= v[i] && v[i] <= '9'
        invariant
            start <= i <= v@.len(),
            digits_end(v@, start as int) == digits_end(v@, i as int),
        decreases v@.len() - i,
    {
        i += 1;
    }
    i
}

/// Scans to the closing quote, as `quote_end` describes.
fn scan_quote_end(v: &Vec<char>, start: usize) -> (r: usize)
    requires
        start <= v@.len(),
    ensures
        r as int == quote_end(v@, start as int),
        start <= r <= v@.len(),
{
    let mut i = start;
    while i < v.len() && v[i] != '"'
        invariant
            start <= i <= v@.len(),
            quote_end(v@, start as int) == quote_end(v@, i as int),
        decreases v@.len() - i,
    {
        i += 1;
    }
    i
}

/// Parses a digit run as an `i64`, or reports the overflow that
/// `spec_next` calls a scan error.
fn parse_int(v: &Vec<char>, start: usize, end: usize) -> (r: Option<i64>)
    requires
        start <= end <= v@.len(),
        forall|j: int| start <= j < end ==> is_digit(v@[j]),
    ensures
        r matches Some(n) ==> n as int == dec_val(v@.subrange(start as int, end as int)) && dec_val(
            v@.subrange(start as int, end as int),
        ) <= i64::MAX as int,
        r is None <==> dec_val(v@.subrange(start as int, end as int)) > i64::MAX as int,
{
    let ghost whole = v@.subrange(start as int, end as int);
    proof {
        assert forall|j: int| 0 <= j < whole.len() implies is_digit(whole[j]) by {
            assert(whole[j] == v@[start + j]);
        }
        lemma_dec_val_bounds(whole);
    }
    let mut acc: i64 = 0;
    let mut i = start;
    while i < end
        invariant
            start <= i <= end <= v@.len(),
            whole == v@.subrange(start as int, end as int),
            forall|j: int| 0 <= j < whole.len() ==> is_digit(whole[j]),
            acc as int == dec_val(whole.take(i - start as int)),
            acc >= 0,
        decreases end - i,
    {
        let c = v[i];
        proof {
            assert(whole[i - start as int] == v@[i as int]);
            assert(is_digit(c));
        }
        let d = (c as u32) - ('0' as u32);
        if acc > (i64::MAX - (d as i64)) / 10 {
            proof {
                assert(whole.take(i - start + 1).drop_last() =~= whole.take(i - start as int));
                assert(whole.take(i - start + 1).last() == whole[i - start as int]);
                assert(dec_val(whole.take(i - start + 1)) > i64::MAX as int);
                lemma_dec_val_bounds(whole);
                assert(dec_val(whole.take(i - start + 1)) <= dec_val(whole));
            }
            return None;
        }
        proof {
            assert(whole.take(i - start + 1).drop_last() =~= whole.take(i - start as int));
            assert(whole.take(i - start + 1).last() == whole[i - start as int]);
        }
        acc = acc * 10 + (d as i64);
        i += 1;
    }
    proof {
        assert(whole.take(whole.len() as int) =~= whole);
    }
    Some(acc)
}

/// Classifies a bare word, as `classify_word` describes.
fn classify(word: &Vec<char>) -> (t: Token)
    ensures
        t@ == classify_word(word@),
{
    let lowered = lower_chars(word);
    if chars_eq_str(&lowered, "show") {
        Token::Keyword(Keyword::Show)
    } else if chars_eq_str(&lowered, "create") {
        Token::Keyword(Keyword::Create)
    } else if chars_eq_str(&lowered, "add") {
        Token::Keyword(Keyword::Add)
    } else if chars_eq_str(&lowered, "find") {
        Token::Keyword(Keyword::Find)
    } else if chars_eq_str(&lowered, "limit") {
        Token::Keyword(Keyword::Limit)
    } else if chars_eq_str(&lowered, "where") {
        Token::Keyword(Keyword::Where)
    } else if chars_eq_str(&lowered, "sum") {
        Token::Function(Function::Sum)
    } else if chars_eq_str(&lowered, "max") {
        Token::Function(Function::Max)
    } else if chars_eq_str(&lowered, "min") {
        Token::Function(Function::Min)
    } else if chars_eq_str(&lowered, "avg") {
        Token::Function(Function::Avg)
    } else if chars_eq_str(&lowered, "count") {
        Token::Function(Function::Count)
    } else if chars_eq_str(word, "on") {
        Token::AuxiliaryOn
    } else if chars_eq_str(word, "to") {
        Token::AuxiliaryTo
    } else if chars_eq_str(word, "true") {
        Token::LiteralBool(true)
    } else if chars_eq_str(word, "false") {
        Token::LiteralBool(false)
    } else {
        Token::Identifier(chars_to_string(word))
    }
}

/// One exec scan step.
enum NextStep {
    Tok(Token, usize),
    End,
    Fail(TokenizerError),
}

/// Scans one token from position `i`, exactly as `spec_next` says.
#[verifier::rlimit(100)]
fn next_token(v: &Vec<char>, i: usize) -> (r: NextStep)
    requires
        i <= v@.len(),
    ensures
        r matches NextStep::Tok(t, j) ==> spec_next(v@, i as int) == SpecNext::Tok(t@, j as int)
            && i < j <= v@.len(),
        r is End <==> spec_next(v@, i as int) is End,
        r matches NextStep::Fail(_) <==> spec_next(v@, i as int) is Fail,
        r matches NextStep::Fail(e) ==> e.char_position as int == blank_from(v@, i as int, false)
            && e.line_position as int == newline_count(
            v@.take(blank_from(v@, i as int, false)),
        ),
{
    proof {
        lemma_spec_next_progress(v@, i as int);
    }
    let b = skip_blanks(v, i);
    if b >= v.len() {
        return NextStep::End;
    }
    let c = v[b];
    if c == ';' {
        NextStep::Tok(Token::EOF, b + 1)
    } else if c == ',' {
        NextStep::Tok(Token::Seperator, b + 1)
    } else if c == '(' {
        NextStep::Tok(Token::GroupStart, b + 1)
    } else if c == ')' {
        NextStep::Tok(Token::GroupEnd, b + 1)
    } else if c == '.' {
        NextStep::Tok(Token::Accessor, b + 1)
    } else if c == '=' {
        if b + 1 < v.len() && v[b + 1] == '=' {
            NextStep::Tok(Token::Operator(Operator::Equal), b + 2)
        } else {
            NextStep::Tok(Token::Assign, b + 1)
        }
    } else if c == '!' {
        if b + 1 < v.len() && v[b + 1] == '=' {
            NextStep::Tok(Token::Operator(Operator::NotEqual), b + 2)
        } else {
            NextStep::Fail(error_at(v, b, "unsupported character"))
        }
    } else if c == '<' {
        if b + 1 < v.len() && v[b + 1] == '=' {
            NextStep::Tok(Token::Operator(Operator::LessOrEqual), b + 2)
        } else {
            NextStep::Tok(Token::Operator(Operator::Less), b + 1)
        }
    } else if c == '>' {
        if b + 1 < v.len() && v[b + 1] == '=' {
            NextStep::Tok(Token::Operator(Operator::GreaterOrEqual), b + 2)
        } else {
            NextStep::Tok(Token::Operator(Operator::Greater), b + 1)
        }
    } else if c == '+' {
        NextStep::Tok(Token::Operator(Operator::Add), b + 1)
    } else if c == '-' {
        NextStep::Tok(Token::Operator(Operator::Subtract), b + 1)
    } else if c == '*' {
        NextStep::Tok(Token::Operator(Operator::Multiply), b + 1)
    } else if c == '/' {
        NextStep::Tok(Token::Operator(Operator::Divide), b + 1)
    } else if c == '%' {
        NextStep::Tok(Token::Operator(Operator::Modulus), b + 1)
    } else if c == '"' {
        let q = scan_quote_end(v, b + 1);
        if q >= v.len() {
            NextStep::Fail(error_at(v, b, "unterminated string literal"))
        } else {
            let contents = subrange_chars(v, b + 1, q);
            NextStep::Tok(Token::LiteralStr(chars_to_string(&contents)), q + 1)
        }
    } else if '0' <= c && c <= '9' {
        let de = scan_digits_end(v, b);
        if de < v.len() && v[de] == '.' {
            let fe = scan_digits_end(v, de + 1);
            let lexeme = subrange_chars(v, b, fe);
            proof {
                lemma_digits_end(v@, b as int);
                assert(digits_end(v@, b as int) > b) by {
                    lemma_digits_end(v@, b + 1);
                }
            }
            NextStep::Tok(Token::LiteralFloat(chars_to_string(&lexeme)), fe)
        } else {
            proof {
                lemma_digits_end(v@, b as int);
            }
            match parse_int(v, b, de) {
                Some(n) => {
                    proof {
                        lemma_digits_end(v@, b + 1);
                    }
                    NextStep::Tok(Token::LiteralInt(n), de)
                },
                None => NextStep::Fail(error_at(v, b, "failed to parse int")),
            }
        }
    } else if ('a' <= c && c <= 'z') || ('A' <= c && c <= 'Z') || c == '_' {
        let we = scan_word_end(v, b);
        let word = subrange_chars(v, b, we);
        proof {
            lemma_word_end(v@, b + 1);
        }
        NextStep::Tok(classify(&word), we)
    } else {
        NextStep::Fail(error_at(v, b, "unsupported character"))
    }
}

/// How many newlines a sequence holds.
pub open spec fn newline_count(s: Seq<char>) -> int
    decreases s.len(),
{
    if s.len() == 0 {
        0
    } else {
        newline_count(s.drop_last()) + if s.last() == '\n' {
            1int
        } else {
            0int
        }
    }
}

/// The line and column of a position, for error reports: the line is the
/// number of newlines before the position, the column the position
/// itself.
fn error_at(v: &Vec<char>, pos: usize, message: &str) -> (r: TokenizerError)
    requires
        pos <= v@.len(),
    ensures
        r.message@ == message@,
        r.line_position as int == newline_count(v@.take(pos as int)),
        r.char_position == pos,
{
    let mut line: usize = 0;
    let mut i: usize = 0;
    proof {
        assert(v@.take(0) =~= Seq::<char>::empty());
    }
    while i < pos
        invariant
            i <= pos <= v@.len(),
            line <= i,
            line as int == newline_count(v@.take(i as int)),
        decreases pos - i,
    {
        if v[i] == '\n' {
            line += 1;
        }
        proof {
            assert(v@.take(i + 1).drop_last() =~= v@.take(i as int));
            assert(v@.take(i + 1).last() == v@[i as int]);
        }
        i += 1;
    }
    TokenizerError::new(message, line, pos)
}

/// The token stream of one input: the scanned tokens, the scan error
/// that cut the stream short if one did, and a cursor position.
#[derive(Debug)]
pub struct Tokens {
    pub toks: Vec<Token>,
    pub err: Option<TokenizerError>,
    pub pos: usize,
}

/// The views of the scanned tokens.
pub open spec fn views(ts: Seq<Token>) -> Seq<SpecToken> {
    ts.map_values(|t: Token| t@)
}

impl Tokens {
    /// The stream holds exactly what `spec_tokens` says of the input it
    /// was scanned from.
    pub open spec fn wf_for(&self, s: Seq<char>) -> bool {
        &&& views(self.toks@) == spec_tokens(s, 0).0
        &&& self.err is Some <==> spec_tokens(s, 0).1
        &&& self.err matches Some(e) ==> e.char_position as int == fail_pos(s, 0)
            && e.line_position as int == newline_count(s.take(fail_pos(s, 0)))
    }

    /// The next token without advancing: the token at the cursor, or the
    /// scan error, or an end-of-input error.
    pub fn peek(&mut self) -> (r: Result<Token, TokenizerError>)
        ensures
            *final(self) == *old(self),
            old(self).pos < old(self).toks@.len() ==> (r matches Ok(t) && t@ == old(self).toks@[
                old(self).pos as int
            ]@),
            old(self).pos >= old(self).toks@.len() ==> r is Err,
            old(self).pos >= old(self).toks@.len() ==> (match old(self).err {
                Some(e) => r matches Err(e2) && e2.message@ == e.message@ && e2.line_position
                    == e.line_position && e2.char_position == e.char_position,
                None => r matches Err(e2) && e2.message@ == "unexpected end of input"@
                    && e2.char_position == old(self).pos,
            }),
    {
        if self.pos < self.toks.len() {
            Ok(self.toks[self.pos].clone())
        } else {
            match &self.err {
                Some(e) => Err(e.clone()),
                None => Err(TokenizerError::new("unexpected end of input", 0, self.pos)),
            }
        }
    }

    /// The next token, advancing past it; past the last token every call
    /// reports the scan error or an end-of-input error.
    pub fn next(&mut self) -> (r: Result<Token, TokenizerError>)
        ensures
            final(self).toks == old(self).toks,
            final(self).err == old(self).err,
            old(self).pos < old(self).toks@.len() ==> (r matches Ok(t) && t@ == old(self).toks@[
                old(self).pos as int
            ]@ && final(self).pos == old(self).pos + 1),
            old(self).pos >= old(self).toks@.len() ==> r is Err && final(self).pos == old(
                self,
            ).pos,
            old(self).pos >= old(self).toks@.len() ==> (match old(self).err {
                Some(e) => r matches Err(e2) && e2.message@ == e.message@ && e2.line_position
                    == e.line_position && e2.char_position == e.char_position,
                None => r matches Err(e2) && e2.message@ == "unexpected end of input"@
                    && e2.char_position == old(self).pos,
            }),
    {
        if self.pos < self.toks.len() {
            let t = self.toks[self.pos].clone();
            self.pos += 1;
            Ok(t)
        } else {
            match &self.err {
                Some(e) => Err(e.clone()),
                None => Err(TokenizerError::new("unexpected end of input", 0, self.pos)),
            }
        }
    }
}

/// Scans the whole input, exactly as `spec_tokens` says: the returned
/// stream holds every token before the first scan error, and carries
/// that error exactly when there was one.
pub fn tokenize(input: &str) -> (r: Tokens)
    ensures
        r.wf_for(input@),
        r.pos == 0,
{
    let chars = str_to_chars(input);
    let mut toks: Vec<Token> = Vec::new();
    let mut err: Option<TokenizerError> = None;
    let mut i: usize = 0;
    let mut done = false;
    while !done
        invariant
            i <= chars@.len(),
            chars@ == input@,
            !done ==> err is None && spec_tokens(chars@, 0).0 == views(toks@) + spec_tokens(
                chars@,
                i as int,
            ).0 && spec_tokens(chars@, 0).1 == spec_tokens(chars@, i as int).1 && fail_pos(
                chars@,
                0,
            ) == fail_pos(chars@, i as int),
            done ==> views(toks@) == spec_tokens(chars@, 0).0 && (err is Some <==> spec_tokens(
                chars@,
                0,
            ).1) && (err matches Some(e) ==> e.char_position as int == fail_pos(chars@, 0)
                && e.line_position as int == newline_count(chars@.take(fail_pos(chars@, 0)))),
        decreases chars@.len() - i + (if done {
            0int
        } else {
            1int
        }),
    {
        match next_token(&chars, i) {
            NextStep::Tok(t, j) => {
                proof {
                    assert(views(toks@.push(t)) =~= views(toks@) + seq![t@]);
                }
                toks.push(t);
                i = j;
            },
            NextStep::End => {
                proof {
                    assert(views(toks@) + spec_tokens(chars@, i as int).0 =~= views(toks@));
                }
                done = true;
            },
            NextStep::Fail(e) => {
                proof {
                    assert(views(toks@) + spec_tokens(chars@, i as int).0 =~= views(toks@));
                }
                err = Some(e);
                done = true;
            },
        }
    }
    Tokens { toks, err, pos: 0 }
}

} // verus!

