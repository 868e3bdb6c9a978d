//! Character-level text utilities shared by the command parsers: trimming,
//! line handling, case folding and filtering, each as a spec function over
//! character sequences with a verified executable counterpart.

use vstd::prelude::*;

verus! {

/// ASCII whitespace: space, tab, carriage return, newline.
pub open spec fn is_ws(c: char) -> bool {
    c == ' ' || c == '\t' || c == '\r' || c == '\n'
}

pub fn char_is_ws(c: char) -> (r: bool)
    ensures
        r == is_ws(c),
{
    c == ' ' || c == '\t' || c == '\r' || c == '\n'
}

/// The sequence without its leading whitespace.
pub open spec fn trim_start(s: Seq<char>) -> Seq<char>
    decreases s.len(),
{
    if s.len() > 0 && is_ws(s[0]) {
        trim_start(s.drop_first())
    } else {
        s
    }
}

/// The sequence without its trailing whitespace.
pub open spec fn trim_end(s: Seq<char>) -> Seq<char>
    decreases s.len(),
{
    if s.len() > 0 && is_ws(s.last()) {
        trim_end(s.drop_last())
    } else {
        s
    }
}

/// The sequence without leading or trailing whitespace.
pub open spec fn trim(s: Seq<char>) -> Seq<char> {
    trim_end(trim_start(s))
}

/// The index of the first occurrence of `c`, or the length when absent.
pub open spec fn idx_of(s: Seq<char>, c: char) -> int
    decreases s.len(),
{
    if s.len() == 0 {
        0
    } else if s[0] == c {
        0
    } else {
        1 + idx_of(s.drop_first(), c)
    }
}

/// `idx_of` points at the first occurrence: everything before differs
/// from `c`, and the index is in range exactly when `c` occurs at all.
pub proof fn lemma_idx_of(s: Seq<char>, c: char)
    ensures
        0 <= idx_of(s, c) <= s.len(),
        forall|j: int| 0 <= j < idx_of(s, c) ==> s[j] != c,
        idx_of(s, c) < s.len() ==> s[idx_of(s, c)] == c,
    decreases s.len(),
{
    if s.len() > 0 && s[0] != c {
        lemma_idx_of(s.drop_first(), c);
        assert forall|j: int| 0 <= j < idx_of(s, c) implies s[j] != c by {
            if j > 0 {
                assert(s.drop_first()[j - 1] == s[j]);
            }
        }
    }
}

/// Whether `p` is a prefix of `s`.
pub open spec fn starts_with(s: Seq<char>, p: Seq<char>) -> bool {
    p.len() <= s.len() && s.take(p.len() as int) == p
}

/// ASCII lower-casing of one character.
pub open spec fn lower_char(c: char) -> char {
    if 'A' <= c && c <= 'Z' {
        ((c as u8) + 32) as char
    } else {
        c
    }
}

/// ASCII lower-casing of a sequence.
pub open spec fn to_lower(s: Seq<char>) -> Seq<char> {
    s.map_values(|c: char| lower_char(c))
}

/// The characters of a string slice, in order.
pub fn str_to_chars(s: &str) -> (v: Vec<char>)
    ensures
        v@ == s@,
{
    let n = s.unicode_len();
    let mut v: Vec<char> = Vec::new();
    let mut i: usize = 0;
    while i < n
        invariant
            n == s@.len(),
            i <= n,
            v@ == s@.take(i as int),
        decreases n - i,
    {
        v.push(s.get_char(i));
        proof {
            assert(v@ =~= s@.take(i + 1));
        }
        i += 1;
    }
    proof {
        assert(s@.take(n as int) =~= s@);
    }
    v
}

/// Relies on Iterator::collect for String: the returned string holds
/// exactly the given characters, in order.
#[verifier::external_body]
pub fn chars_to_string(v: &Vec<char>) -> (r: String)
    ensures
        r@ == v@,
{
    v.iter().collect()
}

/// Trims both ends, as `trim` describes.
pub fn trim_chars(v: &Vec<char>) -> (r: Vec<char>)
    ensures
        r@ == trim(v@),
{
    let mut a: usize = 0;
    while a < v.len() && char_is_ws(v[a])
        invariant
            a <= v@.len(),
            forall|j: int| 0 <= j < a ==> is_ws(v@[j]),
        decreases v@.len() - a,
    {
        a += 1;
    }
    proof {
        lemma_trim_start_skip(v@, a as int);
    }
    let mut b: usize = v.len();
    while b > a && char_is_ws(v[b - 1])
        invariant
            a <= b <= v@.len(),
            forall|j: int| b <= j < v@.len() ==> is_ws(v@[j]),
            a < v@.len() ==> !is_ws(v@[a as int]),
            a == v@.len() || !is_ws(v@[a as int]),
        decreases b,
    {
        b -= 1;
    }
    let mut r: Vec<char> = Vec::new();
    let mut i: usize = a;
    while i < b
        invariant
            a <= i <= b <= v@.len(),
            r@ == v@.subrange(a as int, i as int),
        decreases b - i,
    {
        r.push(v[i]);
        proof {
            assert(r@ =~= v@.subrange(a as int, i + 1));
        }
        i += 1;
    }
    proof {
        lemma_trim_end_sub(v@.skip(a as int), b - a as int);
        assert(v@.skip(a as int).take(b - a as int) =~= v@.subrange(a as int, b as int));
    }
    r
}

/// Dropping a fully-whitespace prefix is what `trim_start` does.
proof fn lemma_trim_start_skip(s: Seq<char>, k: int)
    requires
        0 <= k <= s.len(),
        forall|j: int| 0 <= j < k ==> is_ws(s[j]),
        k == s.len() || !is_ws(s[k]),
    ensures
        trim_start(s) == s.skip(k),
    decreases k,
{
    if k == 0 {
        assert(s.skip(0) =~= s);
    } else {
        assert(is_ws(s[0]));
        lemma_trim_start_skip(s.drop_first(), k - 1);
        assert(s.drop_first().skip(k - 1) =~= s.skip(k));
    }
}

/// Dropping a fully-whitespace suffix is what `trim_end` does.
proof fn lemma_trim_end_sub(s: Seq<char>, b: int)
    requires
        0 <= b <= s.len(),
        forall|j: int| b <= j < s.len() ==> is_ws(s[j]),
        b == 0 || !is_ws(s[b - 1]),
    ensures
        trim_end(s) == s.take(b),
    decreases s.len() - b,
{
    if b == s.len() {
        assert(s.take(b) =~= s);
        if s.len() > 0 {
            assert(!is_ws(s.last()));
        }
    } else {
        assert(is_ws(s.last()));
        lemma_trim_end_sub(s.drop_last(), b);
        assert(s.drop_last().take(b) =~= s.take(b));
    }
}

/// The prefix before the first occurrence of `c` (the whole sequence when
/// absent).
pub fn before_char(v: &Vec<char>, c: char) -> (r: Vec<char>)
    ensures
        r@ == v@.take(idx_of(v@, c)),
{
    let mut i: usize = 0;
    let mut r: Vec<char> = Vec::new();
    while i < v.len() && v[i] != c
        invariant
            i <= v@.len(),
            forall|j: int| 0 <= j < i ==> v@[j] != c,
            r@ == v@.take(i as int),
        decreases v@.len() - i,
    {
        r.push(v[i]);
        proof {
            assert(r@ =~= v@.take(i + 1));
        }
        i += 1;
    }
    proof {
        lemma_idx_of(v@, c);
        lemma_idx_of_at(v@, c, i as int);
    }
    r
}

/// A position whose prefix avoids `c` and that hits `c` or the end is
/// exactly `idx_of`.
pub proof fn lemma_idx_of_at(s: Seq<char>, c: char, k: int)
    requires
        0 <= k <= s.len(),
        forall|j: int| 0 <= j < k ==> s[j] != c,
        k == s.len() || s[k] == c,
    ensures
        idx_of(s, c) == k,
    decreases k,
{
    if k == 0 {
    } else {
        lemma_idx_of_at(s.drop_first(), c, k - 1);
        assert(forall|j: int| 0 <= j < k - 1 ==> s.drop_first()[j] == s[j + 1]);
    }
}

/// ASCII lower-casing of a character.
pub fn char_to_lower(c: char) -> (r: char)
    ensures
        r == lower_char(c),
{
    if 'A' <= c && c <= 'Z' {
        (((c as u8) + 32) as char)
    } else {
        c
    }
}

/// ASCII lower-casing of a character vector.
pub fn lower_chars(v: &Vec<char>) -> (r: Vec<char>)
    ensures
        r@ == to_lower(v@),
{
    let mut r: Vec<char> = Vec::new();
    let mut i: usize = 0;
    while i < v.len()
        invariant
            i <= v@.len(),
            r@.len() == i,
            forall|j: int| 0 <= j < i ==> r@[j] == lower_char(v@[j]),
        decreases v@.len() - i,
    {
        r.push(char_to_lower(v[i]));
        i += 1;
    }
    proof {
        assert(r@ =~= to_lower(v@));
    }
    r
}

/// ASCII letters and digits.
pub open spec fn is_ascii_alnum(c: char) -> bool {
    ('a' <= c && c <= 'z') || ('A' <= c && c <= 'Z') || ('0' <= c && c <= '9')
}

pub fn char_is_ascii_alnum(c: char) -> (r: bool)
    ensures
        r == is_ascii_alnum(c),
{
    ('a' <= c && c <= 'z') || ('A' <= c && c <= 'Z') || ('0' <= c && c <= '9')
}

/// The subsequence of characters satisfying `p`, in order.
pub open spec fn filter_seq(s: Seq<char>, p: spec_fn(char) -> bool) -> Seq<char>
    decreases s.len(),
{
    if s.len() == 0 {
        Seq::empty()
    } else if p(s.last()) {
        filter_seq(s.drop_last(), p) + seq![s.last()]
    } else {
        filter_seq(s.drop_last(), p)
    }
}

/// The input with every line whose trimmed form opens a comment removed,
/// and the kept lines run together without their newlines.
pub open spec fn strip_comment_lines(s: Seq<char>) -> Seq<char>
    decreases s.len(),
    via strip_comment_lines_dec
{
    if s.len() == 0 {
        Seq::empty()
    } else {
        let n = idx_of(s, '\n');
        let line = s.take(n);
        let rest = if n < s.len() {
            strip_comment_lines(s.skip(n + 1))
        } else {
            Seq::<char>::empty()
        };
        if starts_with(trim(line), "//"@) {
            rest
        } else {
            line + rest
        }
    }
}

#[via_fn]
proof fn strip_comment_lines_dec(s: Seq<char>) {
    lemma_idx_of(s, '\n');
}

/// Whether the trimmed form of the characters opens a line comment.
pub fn opens_comment(v: &Vec<char>) -> (r: bool)
    ensures
        r == starts_with(trim(v@), "//"@),
{
    let t = trim_chars(v);
    proof {
        reveal_strlit("//");
    }
    if t.len() >= 2 && t[0] == '/' && t[1] == '/' {
        proof {
            assert(trim(v@).take(2) =~= "//"@);
        }
        true
    } else {
        proof {
            if starts_with(trim(v@), "//"@) {
                assert(trim(v@)[0] == "//"@[0]);
                assert(trim(v@)[1] == "//"@[1]);
            }
        }
        false
    }
}

/// Whether the characters open with the exact pair `//`.
pub fn opens_comment_exact(v: &Vec<char>) -> (r: bool)
    ensures
        r == starts_with(v@, "//"@),
{
    proof {
        reveal_strlit("//");
    }
    if v.len() >= 2 && v[0] == '/' && v[1] == '/' {
        proof {
            assert(v@.take(2) =~= "//"@);
        }
        true
    } else {
        proof {
            if starts_with(v@, "//"@) {
                assert(v@[0] == "//"@[0]);
                assert(v@[1] == "//"@[1]);
            }
        }
        false
    }
}

/// Removes comment lines, as `strip_comment_lines` describes.
pub fn strip_comments(v: &Vec<char>) -> (r: Vec<char>)
    ensures
        r@ == strip_comment_lines(v@),
{
    let mut out: Vec<char> = Vec::new();
    let mut pos: usize = 0;
    proof {
        assert(v@.skip(0) =~= v@);
        assert(Seq::<char>::empty() + strip_comment_lines(v@) =~= strip_comment_lines(v@));
    }
    while pos < v.len()
        invariant
            pos <= v@.len(),
            strip_comment_lines(v@) == out@ + strip_comment_lines(v@.skip(pos as int)),
        decreases v@.len() - pos,
    {
        let ghost rest = v@.skip(pos as int);
        let mut e: usize = pos;
        while e < v.len() && v[e] != '\n'
            invariant
                pos <= e <= v@.len(),
                forall|j: int| pos <= j < e ==> v@[j] != '\n',
            decreases v@.len() - e,
        {
            e += 1;
        }
        let mut line: Vec<char> = Vec::new();
        let mut i: usize = pos;
        while i < e
            invariant
                pos <= i <= e <= v@.len(),
                line@ == v@.subrange(pos as int, i as int),
            decreases e - i,
        {
            line.push(v[i]);
            proof {
                assert(line@ =~= v@.subrange(pos as int, i + 1));
            }
            i += 1;
        }
        proof {
            assert forall|j: int| 0 <= j < e - pos implies rest[j] != '\n' by {
                assert(rest[j] == v@[pos + j]);
            }
            if e < v@.len() {
                assert(rest[e - pos] == v@[e as int]);
            }
            lemma_idx_of_at(rest, '\n', e - pos as int);
            assert(line@ =~= rest.take(e - pos as int));
        }
        let keep = !opens_comment(&line);
        if keep {
            let mut i: usize = 0;
            let ghost out_before = out@;
            while i < line.len()
                invariant
                    i <= line@.len(),
                    out@ == out_before + line@.take(i as int),
                decreases line@.len() - i,
            {
                out.push(line[i]);
                proof {
                    assert(out@ =~= out_before + line@.take(i + 1));
                }
                i += 1;
            }
            proof {
                assert(line@.take(line@.len() as int) =~= line@);
            }
        }
        proof {
            let n = e - pos as int;
            assert(idx_of(rest, '\n') == n);
            if e < v@.len() {
                assert(rest.skip(n + 1) =~= v@.skip(e + 1));
            } else {
                assert(v@.skip(v@.len() as int) =~= Seq::<char>::empty());
            }
        }
        if e < v.len() {
            pos = e + 1;
        } else {
            pos = e;
        }
    }
    proof {
        if pos as int >= v@.len() {
            assert(v@.skip(pos as int) =~= Seq::<char>::empty());
        }
        assert(out@ =~= out@ + strip_comment_lines(v@.skip(pos as int)));
    }
    out
}

/// The characters from position `k` on.
pub fn skip_chars(v: &Vec<char>, k: usize) -> (r: Vec<char>)
    requires
        k <= v@.len(),
    ensures
        r@ == v@.skip(k as int),
{
    let mut r: Vec<char> = Vec::new();
    let mut i: usize = k;
    while i < v.len()
        invariant
            k <= i <= v@.len(),
            r@ == v@.subrange(k as int, i as int),
        decreases v@.len() - i,
    {
        r.push(v[i]);
        proof {
            assert(r@ =~= v@.subrange(k as int, i + 1));
        }
        i += 1;
    }
    proof {
        assert(v@.subrange(k as int, v@.len() as int) =~= v@.skip(k as int));
    }
    r
}

/// The index of the first occurrence of `c`, or the length when absent.
pub fn find_char(v: &Vec<char>, c: char) -> (r: usize)
    ensures
        r as int == idx_of(v@, c),
        r <= v@.len(),
{
    let mut i: usize = 0;
    while i < v.len() && v[i] != c
        invariant
            i <= v@.len(),
            forall|j: int| 0 <= j < i ==> v@[j] != c,
        decreases v@.len() - i,
    {
        i += 1;
    }
    proof {
        lemma_idx_of_at(v@, c, i as int);
    }
    i
}

/// The index of the first occurrence of the two-character sequence `a b`,
/// or the length when absent.
pub open spec fn idx_of2(s: Seq<char>, a: char, b: char) -> int
    decreases s.len(),
{
    if s.len() < 2 {
        s.len() as int
    } else if s[0] == a && s[1] == b {
        0
    } else {
        1 + idx_of2(s.drop_first(), a, b)
    }
}

/// `idx_of2` points at the first occurrence of the pair, or at the length
/// when the pair never occurs.
pub proof fn lemma_idx_of2(s: Seq<char>, a: char, b: char)
    ensures
        0 <= idx_of2(s, a, b) <= s.len(),
        idx_of2(s, a, b) + 2 <= s.len() ==> s[idx_of2(s, a, b)] == a && s[idx_of2(s, a, b) + 1]
            == b,
        idx_of2(s, a, b) < s.len() ==> idx_of2(s, a, b) + 2 <= s.len(),
        forall|j: int|
            0 <= j < idx_of2(s, a, b) && j + 1 < s.len() ==> !((#[trigger] s[j]) == a && s[j + 1]
                == b),
    decreases s.len(),
{
    if s.len() >= 2 && !(s[0] == a && s[1] == b) {
        lemma_idx_of2(s.drop_first(), a, b);
        assert forall|j: int|
            0 <= j < idx_of2(s, a, b) && j + 1 < s.len() implies !((#[trigger] s[j]) == a && s[j
            + 1] == b) by {
            if j > 0 {
                assert(s.drop_first()[j - 1] == s[j]);
                assert(s.drop_first()[j] == s[j + 1]);
            }
        }
    }
}

/// Finds the first occurrence of the pair `a b`, as `idx_of2` describes.
pub fn find_two(v: &Vec<char>, a: char, b: char) -> (r: usize)
    ensures
        r as int == idx_of2(v@, a, b),
        r <= v@.len(),
{
    if v.len() < 2 {
        proof {
            lemma_idx_of2(v@, a, b);
        }
        return v.len();
    }
    let mut i: usize = 0;
    while i < v.len() - 1 && !(v[i] == a && v[i + 1] == b)
        invariant
            v@.len() >= 2,
            i <= v@.len() - 1,
            forall|j: int|
                0 <= j < i && j + 1 < v@.len() ==> !((#[trigger] v@[j]) == a && v@[j + 1] == b),
        decreases v@.len() - i,
    {
        i += 1;
    }
    proof {
        lemma_idx_of2(v@, a, b);
        lemma_idx_of2_at(v@, a, b, i as int);
    }
    if i + 1 < v.len() {
        i
    } else {
        v.len()
    }
}

/// A position whose prefix avoids the pair and that hits the pair, or has
/// no room left for one, pins `idx_of2`.
proof fn lemma_idx_of2_at(s: Seq<char>, a: char, b: char, k: int)
    requires
        s.len() >= 2,
        0 <= k <= s.len(),
        forall|j: int|
            0 <= j < k && j + 1 < s.len() ==> !((#[trigger] s[j]) == a && s[j + 1] == b),
        k + 1 < s.len() ==> s[k] == a && s[k + 1] == b,
    ensures
        k + 1 < s.len() ==> idx_of2(s, a, b) == k,
        k + 1 >= s.len() ==> idx_of2(s, a, b) == s.len(),
    decreases k,
{
    lemma_idx_of2(s, a, b);
    if k + 1 < s.len() {
        if idx_of2(s, a, b) < k {
            assert(!(s[idx_of2(s, a, b)] == a && s[idx_of2(s, a, b) + 1] == b));
        }
    } else {
        if idx_of2(s, a, b) < s.len() {
            let m = idx_of2(s, a, b);
            assert(s[m] == a && s[m + 1] == b);
            assert(m < k);
        }
    }
}

/// The index of the first occurrence of the three-character sequence
/// `a b c`, or the length when absent.
pub open spec fn idx_of3(s: Seq<char>, a: char, b: char, c: char) -> int
    decreases s.len(),
{
    if s.len() < 3 {
        s.len() as int
    } else if s[0] == a && s[1] == b && s[2] == c {
        0
    } else {
        1 + idx_of3(s.drop_first(), a, b, c)
    }
}

/// `idx_of3` points at the first occurrence of the triple, or at the
/// length when the triple never occurs.
pub proof fn lemma_idx_of3(s: Seq<char>, a: char, b: char, c: char)
    ensures
        0 <= idx_of3(s, a, b, c) <= s.len(),
        idx_of3(s, a, b, c) + 3 <= s.len() ==> s[idx_of3(s, a, b, c)] == a && s[idx_of3(s, a, b, c)
            + 1] == b && s[idx_of3(s, a, b, c) + 2] == c,
        idx_of3(s, a, b, c) < s.len() ==> idx_of3(s, a, b, c) + 3 <= s.len(),
        forall|j: int|
            0 <= j < idx_of3(s, a, b, c) && j + 2 < s.len() ==> !((#[trigger] s[j]) == a && s[j + 1]
                == b && s[j + 2] == c),
    decreases s.len(),
{
    if s.len() >= 3 && !(s[0] == a && s[1] == b && s[2] == c) {
        lemma_idx_of3(s.drop_first(), a, b, c);
        assert forall|j: int|
            0 <= j < idx_of3(s, a, b, c) && j + 2 < s.len() implies !((#[trigger] s[j]) == a && s[j
            + 1] == b && s[j + 2] == c) by {
            if j > 0 {
                assert(s.drop_first()[j - 1] == s[j]);
                assert(s.drop_first()[j] == s[j + 1]);
                assert(s.drop_first()[j + 1] == s[j + 2]);
            }
        }
    }
}

/// Finds the first occurrence of the triple, as `idx_of3` describes.
pub fn find_three(v: &Vec<char>, a: char, b: char, c: char) -> (r: usize)
    ensures
        r as int == idx_of3(v@, a, b, c),
        r <= v@.len(),
{
    if v.len() < 3 {
        proof {
            lemma_idx_of3(v@, a, b, c);
        }
        return v.len();
    }
    let mut i: usize = 0;
    while i < v.len() - 2 && !(v[i] == a && v[i + 1] == b && v[i + 2] == c)
        invariant
            v@.len() >= 3,
            i <= v@.len() - 2,
            forall|j: int|
                0 <= j < i && j + 2 < v@.len() ==> !((#[trigger] v@[j]) == a && v@[j + 1] == b
                    && v@[j + 2] == c),
        decreases v@.len() - i,
    {
        i += 1;
    }
    proof {
        lemma_idx_of3(v@, a, b, c);
        lemma_idx_of3_at(v@, a, b, c, i as int);
    }
    if i + 2 < v.len() {
        i
    } else {
        v.len()
    }
}

/// A position whose prefix avoids the triple and that hits the triple, or
/// has no room left for one, pins `idx_of3`.
proof fn lemma_idx_of3_at(s: Seq<char>, a: char, b: char, c: char, k: int)
    requires
        s.len() >= 3,
        0 <= k <= s.len(),
        forall|j: int|
            0 <= j < k && j + 2 < s.len() ==> !((#[trigger] s[j]) == a && s[j + 1] == b && s[j + 2]
                == c),
        k + 2 < s.len() ==> s[k] == a && s[k + 1] == b && s[k + 2] == c,
    ensures
        k + 2 < s.len() ==> idx_of3(s, a, b, c) == k,
        k + 2 >= s.len() ==> idx_of3(s, a, b, c) == s.len(),
{
    lemma_idx_of3(s, a, b, c);
    if k + 2 < s.len() {
        if idx_of3(s, a, b, c) < k {
            let m = idx_of3(s, a, b, c);
            assert(!(s[m] == a && s[m + 1] == b && s[m + 2] == c));
        }
    } else {
        if idx_of3(s, a, b, c) < s.len() {
            let m = idx_of3(s, a, b, c);
            assert(s[m] == a && s[m + 1] == b && s[m + 2] == c);
            assert(m < k);
        }
    }
}

/// The characters of positions `a .. b`.
pub fn subrange_chars(v: &Vec<char>, a: usize, b: usize) -> (r: Vec<char>)
    requires
        a <= b <= v@.len(),
    ensures
        r@ == v@.subrange(a as int, b as int),
{
    let mut r: Vec<char> = Vec::new();
    let mut i: usize = a;
    while i < b
        invariant
            a <= i <= b <= v@.len(),
            r@ == v@.subrange(a as int, i as int),
        decreases b - i,
    {
        r.push(v[i]);
        proof {
            assert(r@ =~= v@.subrange(a as int, i + 1));
        }
        i += 1;
    }
    r
}

/// The characters other than `c`, in order.
pub fn drop_char(v: &Vec<char>, c: char) -> (r: Vec<char>)
    ensures
        r@ == filter_seq(v@, |ch: char| ch != c),
{
    let mut r: Vec<char> = Vec::new();
    let mut i: usize = 0;
    proof {
        assert(v@.take(0) =~= Seq::<char>::empty());
    }
    while i < v.len()
        invariant
            i <= v@.len(),
            r@ == filter_seq(v@.take(i as int), |ch: char| ch != c),
        decreases v@.len() - i,
    {
        if v[i] != c {
            r.push(v[i]);
        }
        proof {
            assert(v@.take(i + 1).drop_last() =~= v@.take(i as int));
            assert(v@.take(i + 1).last() == v@[i as int]);
        }
        i += 1;
    }
    proof {
        assert(v@.take(v@.len() as int) =~= v@);
    }
    r
}

/// A comma-separated list of `name=value` assignments: each segment must
/// hold an `=`; names and values are trimmed and the values lose their
/// quote characters. `None` when some segment has no `=`.
pub open spec fn assign_pairs(s: Seq<char>) -> Option<Seq<(Seq<char>, Seq<char>)>>
    decreases s.len(),
    via assign_pairs_dec
{
    let n = idx_of(s, ',');
    let seg = s.take(n);
    let eq = idx_of(seg, '=');
    if eq >= seg.len() {
        None
    } else {
        let pair = (trim(seg.take(eq)), filter_seq(trim(seg.skip(eq + 1)), |c: char| c != '"'));
        if n < s.len() {
            match assign_pairs(s.skip(n + 1)) {
                None => None,
                Some(rest) => Some(seq![pair] + rest),
            }
        } else {
            Some(seq![pair])
        }
    }
}

#[via_fn]
proof fn assign_pairs_dec(s: Seq<char>) {
    lemma_idx_of(s, ',');
}

/// Splits an assignment list, as `assign_pairs` describes.
pub fn split_assigns(v: &Vec<char>) -> (r: Option<Vec<(String, String)>>)
    ensures
        r matches Some(ps) ==> assign_pairs(v@) matches Some(qs) && ps@.len() == qs.len() && (
        forall|i: int| 0 <= i < qs.len() ==> (#[trigger] ps@[i]).0@ == qs[i].0 && ps@[i].1@ == qs[i].1),
        r is None <==> assign_pairs(v@) is None,
{
    let mut out: Vec<(String, String)> = Vec::new();
    let mut pos: usize = 0;
    proof {
        assert(v@.skip(0) =~= v@);
    }
    loop
        invariant
            pos <= v@.len(),
            ({
                let done = out@.map_values(|p: (String, String)| (p.0@, p.1@));
                match assign_pairs(v@) {
                    None => assign_pairs(v@.skip(pos as int)) is None,
                    Some(all) => match assign_pairs(v@.skip(pos as int)) {
                        None => true,
                        Some(rest) => all == done + rest,
                    },
                }
            }),
            assign_pairs(v@) is Some ==> assign_pairs(v@.skip(pos as int)) is Some,
        decreases v@.len() - pos,
    {
        let ghost rest = v@.skip(pos as int);
        let mut e: usize = pos;
        while e < v.len() && v[e] != ','
            invariant
                pos <= e <= v@.len(),
                forall|j: int| pos <= j < e ==> v@[j] != ',',
            decreases v@.len() - e,
        {
            e += 1;
        }
        let seg = subrange_chars(v, pos, e);
        proof {
            assert forall|j: int| 0 <= j < e - pos implies rest[j] != ',' by {
                assert(rest[j] == v@[pos + j]);
            }
            if e < v@.len() {
                assert(rest[e - pos] == v@[e as int]);
            }
            lemma_idx_of_at(rest, ',', e - pos as int);
            assert(seg@ =~= rest.take(e - pos as int));
            lemma_idx_of(seg@, '=');
        }
        let eq = find_char(&seg, '=');
        if eq == seg.len() {
            return None;
        }
        let name_raw = subrange_chars(&seg, 0, eq);
        let name = trim_chars(&name_raw);
        let val_raw = skip_chars(&seg, eq + 1);
        let val_trimmed = trim_chars(&val_raw);
        let val = drop_char(&val_trimmed, '"');
        proof {
            assert(name_raw@ =~= seg@.take(eq as int));
            assert(val_raw@ =~= seg@.skip(eq + 1));
        }
        let ghost out_before = out@;
        out.push((chars_to_string(&name), chars_to_string(&val)));
        proof {
            let done = out@.map_values(|p: (String, String)| (p.0@, p.1@));
            let done_before = out_before.map_values(|p: (String, String)| (p.0@, p.1@));
            assert(done =~= done_before + seq![(name@, val@)]);
        }
        if e < v.len() {
            proof {
                assert(rest.skip(e - pos + 1) =~= v@.skip(e + 1));
                if assign_pairs(v@) is Some {
                    let all = assign_pairs(v@).unwrap();
                    let r0 = assign_pairs(rest).unwrap();
                    assert(r0 == seq![(name@, val@)] + assign_pairs(v@.skip(e + 1)).unwrap());
                    assert(out_before.map_values(|p: (String, String)| (p.0@, p.1@)) + r0
                        =~= out@.map_values(|p: (String, String)| (p.0@, p.1@)) + assign_pairs(
                        v@.skip(e + 1),
                    ).unwrap());
                }
            }
            pos = e + 1;
        } else {
            proof {
                if assign_pairs(v@) is Some {
                    let all = assign_pairs(v@).unwrap();
                    assert(assign_pairs(rest).unwrap() =~= seq![(name@, val@)]);
                    assert(all =~= out@.map_values(|p: (String, String)| (p.0@, p.1@)));
                }
            }
            return Some(out);
        }
    }
}

/// The comma-separated segments of the sequence, untrimmed; an empty
/// sequence is one empty segment.
pub open spec fn split_commas(s: Seq<char>) -> Seq<Seq<char>>
    decreases s.len(),
    via split_commas_dec
{
    let n = idx_of(s, ',');
    let seg = s.take(n);
    if n < s.len() {
        seq![seg] + split_commas(s.skip(n + 1))
    } else {
        seq![seg]
    }
}

#[via_fn]
proof fn split_commas_dec(s: Seq<char>) {
    lemma_idx_of(s, ',');
}

/// Splits on commas, as `split_commas` describes.
pub fn split_commas_chars(v: &Vec<char>) -> (r: Vec<Vec<char>>)
    ensures
        r@.map_values(|seg: Vec<char>| seg@) == split_commas(v@),
{
    let mut out: Vec<Vec<char>> = Vec::new();
    let mut pos: usize = 0;
    proof {
        assert(v@.skip(0) =~= v@);
    }
    loop
        invariant
            pos <= v@.len(),
            split_commas(v@) == out@.map_values(|seg: Vec<char>| seg@) + split_commas(
                v@.skip(pos as int),
            ),
        decreases v@.len() - pos,
    {
        let ghost rest = v@.skip(pos as int);
        let mut e: usize = pos;
        while e < v.len() && v[e] != ','
            invariant
                pos <= e <= v@.len(),
                forall|j: int| pos <= j < e ==> v@[j] != ',',
            decreases v@.len() - e,
        {
            e += 1;
        }
        let seg = subrange_chars(v, pos, e);
        proof {
            assert forall|j: int| 0 <= j < e - pos implies rest[j] != ',' by {
                assert(rest[j] == v@[pos + j]);
            }
            if e < v@.len() {
                assert(rest[e - pos] == v@[e as int]);
            }
            lemma_idx_of_at(rest, ',', e - pos as int);
            assert(seg@ =~= rest.take(e - pos as int));
        }
        let ghost out_before = out@;
        out.push(seg);
        proof {
            assert(out@.map_values(|sg: Vec<char>| sg@) =~= out_before.map_values(
                |sg: Vec<char>| sg@,
            ) + seq![rest.take(e - pos as int)]);
        }
        if e < v.len() {
            proof {
                assert(rest.skip(e - pos + 1) =~= v@.skip(e + 1));
                assert(out_before.map_values(|sg: Vec<char>| sg@) + split_commas(rest)
                    =~= out@.map_values(|sg: Vec<char>| sg@) + split_commas(v@.skip(e + 1)));
            }
            pos = e + 1;
        } else {
            proof {
                assert(split_commas(rest) =~= seq![rest.take(e - pos as int)]);
                assert(out_before.map_values(|sg: Vec<char>| sg@) + split_commas(rest)
                    =~= out@.map_values(|sg: Vec<char>| sg@));
            }
            return out;
        }
    }
}

/// Character-sequence equality of a string against a string literal.
pub fn string_is(a: &String, b: &str) -> (r: bool)
    ensures
        r == (a@ == b@),
{
    *a == b.to_owned()
}

/// Character-sequence equality of a vector against a string literal.
pub fn chars_eq_str(v: &Vec<char>, s: &str) -> (r: bool)
    ensures
        r == (v@ == s@),
{
    let n = s.unicode_len();
    if v.len() != n {
        proof {
            assert(v@.len() != s@.len());
        }
        return false;
    }
    let mut i: usize = 0;
    while i < n
        invariant
            n == s@.len(),
            v@.len() == n,
            i <= n,
            forall|j: int| 0 <= j < i ==> v@[j] == s@[j],
        decreases n - i,
    {
        if v[i] != s.get_char(i) {
            return false;
        }
        i += 1;
    }
    proof {
        assert(v@ =~= s@);
    }
    true
}

} // verus!
