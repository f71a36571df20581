use crate::parser::token::{Token, TokenModel};
use vstd::prelude::*;
use vstd::string::StrSliceExecFns;
use vstd::string::StringExecFns;

verus! {

broadcast use vstd::std_specs::vec::group_vec_axioms;

/// Whitespace skipped between tokens: space, tab, carriage return, newline.
pub open spec fn is_ws_char(c: char) -> bool {
    c == ' ' || c == '\t' || c == '\r' || c == '\n'
}

/// A decimal digit.
pub open spec fn is_digit_char(c: char) -> bool {
    ('0' as u32) <= (c as u32) && (c as u32) <= ('9' as u32)
}

/// A character that may start an identifier: an ASCII letter or `_`.
pub open spec fn is_ident_start_char(c: char) -> bool {
    (('a' as u32) <= (c as u32) && (c as u32) <= ('z' as u32)) || (('A' as u32) <= (c as u32) && (
    c as u32) <= ('Z' as u32)) || c == '_'
}

/// A character that may continue an identifier: a letter, digit or `_`.
pub open spec fn is_ident_char(c: char) -> bool {
    is_ident_start_char(c) || is_digit_char(c)
}

/// The first position at or after `i` holding a non-whitespace character,
/// or the end of the input.
pub open spec fn skip_ws(s: Seq<char>, i: int) -> int
    decreases s.len() - i,
    when 0 <= i <= s.len()
{
    if i < s.len() && is_ws_char(s[i]) {
        skip_ws(s, i + 1)
    } else {
        i
    }
}

/// The end of the identifier-character run beginning at `i`.
pub open spec fn ident_end(s: Seq<char>, i: int) -> int
    decreases s.len() - i,
    when 0 <= i <= s.len()
{
    if i < s.len() && is_ident_char(s[i]) {
        ident_end(s, i + 1)
    } else {
        i
    }
}

/// The end of the digit run beginning at `i`.
pub open spec fn digits_end(s: Seq<char>, i: int) -> int
    decreases s.len() - i,
    when 0 <= i <= s.len()
{
    if i < s.len() && is_digit_char(s[i]) {
        digits_end(s, i + 1)
    } else {
        i
    }
}

/// The position of the first `"` at or after `i`, or the end of the input
/// when the literal is unterminated.
pub open spec fn quote_end(s: Seq<char>, i: int) -> int
    decreases s.len() - i,
    when 0 <= i <= s.len()
{
    if i < s.len() && s[i] != '"' {
        quote_end(s, i + 1)
    } else {
        i
    }
}

/// The numeric value of a digit character.
pub open spec fn digit_val(c: char) -> int {
    c as u32 - '0' as u32
}

/// The value of a sequence of decimal digits.
pub open spec fn digits_val(s: Seq<char>) -> int
    decreases s.len(),
{
    if s.len() == 0 {
        0
    } else {
        digits_val(s.drop_last()) * 10 + digit_val(s.last())
    }
}

/// Whether the word `w` occurs in `s` starting at position `k`.
pub open spec fn word_at(s: Seq<char>, k: int, w: Seq<char>) -> bool {
    0 <= k && k + w.len() <= s.len() && s.subrange(k, k + w.len()) == w
}

/// The token an identifier-shaped word stands for: one of the reserved
/// words yields its keyword token, anything else is a plain identifier.
pub open spec fn keyword_or_ident(w: Seq<char>) -> TokenModel {
    if w == "function"@ {
        TokenModel::Function
    } else if w == "if"@ {
        TokenModel::If
    } else if w == "else"@ {
        TokenModel::Else
    } else if w == "while"@ {
        TokenModel::While
    } else if w == "return"@ {
        TokenModel::Return
    } else if w == "print"@ {
        TokenModel::Print
    } else {
        TokenModel::Ident(w)
    }
}

/// The largest value of a 32-bit literal.
pub open spec fn i32_limit() -> int {
    0x7fffffff
}

/// The largest value of a 64-bit literal.
pub open spec fn i64_limit() -> int {
    0x7fffffffffffffff
}

/// One token scanned at position `pos`, which must hold a non-whitespace
/// character, together with the position just past it; `None` when no
/// token starts there (an unrecognised character, an unterminated string
/// literal, or a decimal literal beyond the 64-bit range), in which case
/// lexing halts.
///
/// Priority mirrors the surface grammar: an identifier-shaped word is
/// first tried as a type declaration (`name : i32|i64|string`, whitespace
/// allowed around the colon), then as a keyword, then as an identifier;
/// a digit run becomes a 32-bit literal when its value fits, otherwise a
/// 64-bit literal; `==` is matched before `=`.
pub open spec fn scan_token(s: Seq<char>, pos: int) -> Option<(TokenModel, int)> {
    let c = s[pos];
    if is_ident_start_char(c) {
        let e = ident_end(s, pos + 1);
        let w = s.subrange(pos, e);
        let j = skip_ws(s, e);
        if j < s.len() && s[j] == ':' {
            let k = skip_ws(s, j + 1);
            if word_at(s, k, "i32"@) {
                Some((TokenModel::TypeDeclaration(w, "i32"@), k + 3))
            } else if word_at(s, k, "i64"@) {
                Some((TokenModel::TypeDeclaration(w, "i64"@), k + 3))
            } else if word_at(s, k, "string"@) {
                Some((TokenModel::TypeDeclaration(w, "string"@), k + 6))
            } else {
                Some((keyword_or_ident(w), e))
            }
        } else {
            Some((keyword_or_ident(w), e))
        }
    } else if is_digit_char(c) {
        let e = digits_end(s, pos + 1);
        let v = digits_val(s.subrange(pos, e));
        if v <= i32_limit() {
            Some((TokenModel::I32(v as i32), e))
        } else if v <= i64_limit() {
            Some((TokenModel::I64(v as i64), e))
        } else {
            None
        }
    } else if c == '"' {
        let q = quote_end(s, pos + 1);
        if q < s.len() {
            Some((TokenModel::String(s.subrange(pos + 1, q)), q + 1))
        } else {
            None
        }
    } else if c == '=' {
        if pos + 1 < s.len() && s[pos + 1] == '=' {
            Some((TokenModel::DoubleEqual, pos + 2))
        } else {
            Some((TokenModel::Assignment, pos + 1))
        }
    } else if c == '+' {
        Some((TokenModel::Plus, pos + 1))
    } else if c == '-' {
        Some((TokenModel::Minus, pos + 1))
    } else if c == '*' {
        Some((TokenModel::Star, pos + 1))
    } else if c == '/' {
        Some((TokenModel::Slash, pos + 1))
    } else if c == '%' {
        Some((TokenModel::Modulo, pos + 1))
    } else if c == '<' {
        Some((TokenModel::LessThan, pos + 1))
    } else if c == '>' {
        Some((TokenModel::GreaterThan, pos + 1))
    } else if c == '(' {
        Some((TokenModel::LParen, pos + 1))
    } else if c == ')' {
        Some((TokenModel::RParen, pos + 1))
    } else if c == '{' {
        Some((TokenModel::LBrace, pos + 1))
    } else if c == '}' {
        Some((TokenModel::RBrace, pos + 1))
    } else if c == ';' {
        Some((TokenModel::Semicolon, pos + 1))
    } else if c == ',' {
        Some((TokenModel::Comma, pos + 1))
    } else {
        None
    }
}

/// The token sequence lexed from position `pos` on, and the position where
/// lexing stopped.  Whitespace is skipped before every token; when the end
/// of the input is reached the `EOF` sentinel is appended and the stop
/// position is the input length; when no token can be scanned the stop
/// position is the end of the last token lexed (no sentinel is appended),
/// and the caller treats the remainder as unconsumed input.
pub open spec fn spec_tokenize_from(s: Seq<char>, pos: int) -> (Seq<TokenModel>, int)
    decreases s.len() - pos,
    when 0 <= pos <= s.len()
{
    let p = skip_ws(s, pos);
    if !(pos <= p <= s.len()) {
        (Seq::empty(), pos)
    } else if p == s.len() {
        (seq![TokenModel::EOF], s.len() as int)
    } else {
        match scan_token(s, p) {
            Some((t, np)) => if p < np <= s.len() {
                let rest = spec_tokenize_from(s, np);
                (seq![t] + rest.0, rest.1)
            } else {
                (Seq::empty(), pos)
            },
            None => (Seq::empty(), pos),
        }
    }
}

/// The token sequence lexed from the whole input, with the stop position.
pub open spec fn spec_tokenize(s: Seq<char>) -> (Seq<TokenModel>, int) {
    spec_tokenize_from(s, 0)
}

/// `skip_ws` stays within bounds, skips only whitespace, and stops at a
/// non-whitespace character or at the end.
pub proof fn lemma_skip_ws(s: Seq<char>, i: int)
    requires
        0 <= i <= s.len(),
    ensures
        i <= skip_ws(s, i) <= s.len(),
        skip_ws(s, i) < s.len() ==> !is_ws_char(s[skip_ws(s, i)]),
        forall|k: int| i <= k < skip_ws(s, i) ==> is_ws_char(#[trigger] s[k]),
    decreases s.len() - i,
{
    if i < s.len() && is_ws_char(s[i]) {
        lemma_skip_ws(s, i + 1);
    }
}

/// `ident_end` stays within bounds, covers only identifier characters, and
/// stops at a non-identifier character or at the end.
pub proof fn lemma_ident_end(s: Seq<char>, i: int)
    requires
        0 <= i <= s.len(),
    ensures
        i <= ident_end(s, i) <= s.len(),
        ident_end(s, i) < s.len() ==> !is_ident_char(s[ident_end(s, i)]),
        forall|k: int| i <= k < ident_end(s, i) ==> is_ident_char(#[trigger] s[k]),
    decreases s.len() - i,
{
    if i < s.len() && is_ident_char(s[i]) {
        lemma_ident_end(s, i + 1);
    }
}

/// `digits_end` stays within bounds, covers only digits, and stops at a
/// non-digit or at the end.
pub proof fn lemma_digits_end(s: Seq<char>, i: int)
    requires
        0 <= i <= s.len(),
    ensures
        i <= digits_end(s, i) <= s.len(),
        digits_end(s, i) < s.len() ==> !is_digit_char(s[digits_end(s, i)]),
        forall|k: int| i <= k < digits_end(s, i) ==> is_digit_char(#[trigger] s[k]),
    decreases s.len() - i,
{
    if i < s.len() && is_digit_char(s[i]) {
        lemma_digits_end(s, i + 1);
    }
}

/// `quote_end` stays within bounds, passes only over non-quote characters,
/// and stops at a `"` or at the end.
pub proof fn lemma_quote_end(s: Seq<char>, i: int)
    requires
        0 <= i <= s.len(),
    ensures
        i <= quote_end(s, i) <= s.len(),
        quote_end(s, i) < s.len() ==> s[quote_end(s, i)] == '"',
        forall|k: int| i <= k < quote_end(s, i) ==> #[trigger] s[k] != '"',
    decreases s.len() - i,
{
    if i < s.len() && s[i] != '"' {
        lemma_quote_end(s, i + 1);
    }
}

/// A scanned token always makes progress: it consumes at least one
/// character and never runs past the end of the input.
pub proof fn lemma_scan_token_advances(s: Seq<char>, pos: int)
    requires
        0 <= pos < s.len(),
    ensures
        scan_token(s, pos) matches Some(r) ==> pos < r.1 <= s.len(),
{
    let c = s[pos];
    if is_ident_start_char(c) {
        lemma_ident_end(s, pos + 1);
        let e = ident_end(s, pos + 1);
        let j = skip_ws(s, e);
        lemma_skip_ws(s, e);
        if j < s.len() && s[j] == ':' {
            lemma_skip_ws(s, j + 1);
            let k = skip_ws(s, j + 1);
            reveal_strlit("i32");
            reveal_strlit("i64");
            reveal_strlit("string");
        }
    } else if is_digit_char(c) {
        lemma_digits_end(s, pos + 1);
    } else if c == '"' {
        lemma_quote_end(s, pos + 1);
    }
}

/// Non-negative digit sequences have non-negative values.
pub proof fn lemma_digits_val_nonneg(t: Seq<char>)
    requires
        forall|k: int| 0 <= k < t.len() ==> is_digit_char(#[trigger] t[k]),
    ensures
        digits_val(t) >= 0,
    decreases t.len(),
{
    if t.len() > 0 {
        lemma_digits_val_nonneg(t.drop_last());
    }
}

/// Extending a digit sequence never decreases its value.
pub proof fn lemma_digits_val_prefix(t: Seq<char>, m: int)
    requires
        forall|k: int| 0 <= k < t.len() ==> is_digit_char(#[trigger] t[k]),
        0 <= m <= t.len(),
    ensures
        digits_val(t) >= digits_val(t.subrange(0, m)),
    decreases t.len(),
{
    lemma_digits_val_nonneg(t);
    if m == t.len() {
        assert(t.subrange(0, m) =~= t);
    } else {
        let u = t.drop_last();
        lemma_digits_val_nonneg(u);
        lemma_digits_val_prefix(u, m);
        assert(u.subrange(0, m) =~= t.subrange(0, m));
        assert(digits_val(t) == digits_val(u) * 10 + digit_val(t.last()));
    }
}

fn ws_char(c: char) -> (b: bool)
    ensures
        b == is_ws_char(c),
{
    c == ' ' || c == '\t' || c == '\r' || c == '\n'
}

fn digit_char(c: char) -> (b: bool)
    ensures
        b == is_digit_char(c),
{
    let v = c as u32;
    48 <= v && v <= 57
}

fn ident_start_char(c: char) -> (b: bool)
    ensures
        b == is_ident_start_char(c),
{
    let v = c as u32;
    (97 <= v && v <= 122) || (65 <= v && v <= 90) || c == '_'
}

fn ident_char(c: char) -> (b: bool)
    ensures
        b == is_ident_char(c),
{
    ident_start_char(c) || digit_char(c)
}

fn skip_ws_at(s: &str, n: usize, i: usize) -> (p: usize)
    requires
        n == s@.len(),
        i <= n,
    ensures
        p as int == skip_ws(s@, i as int),
        i <= p <= n,
{
    let mut p = i;
    while p < n && ws_char(s.get_char(p))
        invariant
            i <= p <= n,
            n == s@.len(),
            skip_ws(s@, i as int) == skip_ws(s@, p as int),
        decreases n - p,
    {
        p = p + 1;
    }
    p
}

fn ident_end_at(s: &str, n: usize, i: usize) -> (p: usize)
    requires
        n == s@.len(),
        i <= n,
    ensures
        p as int == ident_end(s@, i as int),
        i <= p <= n,
{
    let mut p = i;
    while p < n && ident_char(s.get_char(p))
        invariant
            i <= p <= n,
            n == s@.len(),
            ident_end(s@, i as int) == ident_end(s@, p as int),
        decreases n - p,
    {
        p = p + 1;
    }
    p
}

fn digits_end_at(s: &str, n: usize, i: usize) -> (p: usize)
    requires
        n == s@.len(),
        i <= n,
    ensures
        p as int == digits_end(s@, i as int),
        i <= p <= n,
{
    let mut p = i;
    while p < n && digit_char(s.get_char(p))
        invariant
            i <= p <= n,
            n == s@.len(),
            digits_end(s@, i as int) == digits_end(s@, p as int),
        decreases n - p,
    {
        p = p + 1;
    }
    p
}

fn quote_end_at(s: &str, n: usize, i: usize) -> (p: usize)
    requires
        n == s@.len(),
        i <= n,
    ensures
        p as int == quote_end(s@, i as int),
        i <= p <= n,
{
    let mut p = i;
    while p < n && s.get_char(p) != '"'
        invariant
            i <= p <= n,
            n == s@.len(),
            quote_end(s@, i as int) == quote_end(s@, p as int),
        decreases n - p,
    {
        p = p + 1;
    }
    p
}

/// Whether the word `w` occurs in `s` starting at position `k`.
fn word_at_exec(s: &str, n: usize, k: usize, w: &str) -> (b: bool)
    requires
        n == s@.len(),
        k <= n,
    ensures
        b == word_at(s@, k as int, w@),
{
    let wn = w.unicode_len();
    if wn > n - k {
        return false;
    }
    let mut j: usize = 0;
    while j < wn
        invariant
            0 <= j <= wn,
            wn == w@.len(),
            n == s@.len(),
            k + wn <= n,
            forall|t: int| 0 <= t < j ==> s@[k + t] == w@[t],
        decreases wn - j,
    {
        if s.get_char(k + j) != w.get_char(j) {
            proof {
                assert(s@.subrange(k as int, k as int + wn as int)[j as int] == s@[k + j]);
            }
            return false;
        }
        j = j + 1;
    }
    proof {
        assert(s@.subrange(k as int, k as int + wn as int) =~= w@);
    }
    true
}

/// Whether the region `[from, to)` of `s` is exactly the word `w`.
pub(crate) fn region_is(s: &str, n: usize, from: usize, to: usize, w: &str) -> (b: bool)
    requires
        n == s@.len(),
        from <= to <= n,
    ensures
        b == (s@.subrange(from as int, to as int) == w@),
{
    let wn = w.unicode_len();
    if to - from != wn {
        proof {
            assert(s@.subrange(from as int, to as int).len() == to - from);
        }
        return false;
    }
    let r = word_at_exec(s, n, from, w);
    proof {
        assert(s@.subrange(from as int, from as int + wn as int) =~= s@.subrange(
            from as int,
            to as int,
        ));
    }
    r
}

/// The value of the digit run `[from, to)`, or `None` when it exceeds the
/// signed 64-bit range.
fn digits_value(s: &str, n: usize, from: usize, to: usize) -> (r: Option<u64>)
    requires
        n == s@.len(),
        from <= to <= n,
        forall|k: int| from <= k < to ==> is_digit_char(#[trigger] s@[k]),
    ensures
        match r {
            Some(v) => v as int == digits_val(s@.subrange(from as int, to as int)) && v as int
                <= i64_limit(),
            None => digits_val(s@.subrange(from as int, to as int)) > i64_limit(),
        },
{
    let mut acc: u64 = 0;
    let mut i = from;
    while i < to
        invariant
            from <= i <= to,
            n == s@.len(),
            to <= n,
            forall|k: int| from <= k < to ==> is_digit_char(#[trigger] s@[k]),
            acc as int == digits_val(s@.subrange(from as int, i as int)),
            acc as int <= i64_limit(),
        decreases to - i,
    {
        let c = s.get_char(i);
        let d: u64 = (c as u32 - 48) as u64;
        if acc > (0x7fffffffffffffffu64 - d) / 10 {
            proof {
                let full = s@.subrange(from as int, to as int);
                let next = s@.subrange(from as int, i + 1);
                assert(next.drop_last() =~= s@.subrange(from as int, i as int));
                assert(next.last() == s@[i as int]);
                assert(digits_val(next) == acc * 10 + d);
                assert(acc * 10 + d > i64_limit()) by {
                    assert(acc >= (0x7fffffffffffffffu64 - d) / 10 + 1);
                    assert(((0x7fffffffffffffffu64 - d) / 10 + 1) * 10 + d > 0x7fffffffffffffff)
                        by (nonlinear_arith);
                    assert(acc * 10 >= ((0x7fffffffffffffffu64 - d) / 10 + 1) * 10)
                        by (nonlinear_arith)
                        requires
                            acc >= (0x7fffffffffffffffu64 - d) / 10 + 1,
                    ;
                }
                assert(full.subrange(0, i + 1 - from) =~= next);
                lemma_digits_val_prefix(full, i + 1 - from);
            }
            return None;
        }
        proof {
            let next = s@.subrange(from as int, i + 1);
            assert(next.drop_last() =~= s@.subrange(from as int, i as int));
            assert(next.last() == s@[i as int]);
            assert(acc * 10 + d <= 0x7fffffffffffffff) by {
                assert(acc <= (0x7fffffffffffffffu64 - d) / 10);
                assert(acc * 10 <= ((0x7fffffffffffffffu64 - d) / 10) * 10) by (nonlinear_arith)
                    requires
                        acc <= (0x7fffffffffffffffu64 - d) / 10,
                ;
                assert(((0x7fffffffffffffffu64 - d) / 10) * 10 <= 0x7fffffffffffffffu64 - d);
            }
        }
        acc = acc * 10 + d;
        i = i + 1;
    }
    proof {
        assert(s@.subrange(from as int, i as int) =~= s@.subrange(from as int, to as int));
    }
    Some(acc)
}

/// Whether two string slices hold the same characters.
pub fn str_eq(a: &str, b: &str) -> (r: bool)
    ensures
        r == (a@ == b@),
{
    let n = a.unicode_len();
    let r = region_is(a, n, 0, n, b);
    proof {
        assert(a@.subrange(0, n as int) =~= a@);
    }
    r
}

/// One token scanned at position `pos`, executing `scan_token` exactly.
fn scan_one(s: &str, n: usize, pos: usize) -> (r: Option<(Token, usize)>)
    requires
        n == s@.len(),
        pos < n,
    ensures
        match r {
            Some(t) => scan_token(s@, pos as int) == Some((t.0@, t.1 as int)) && pos < t.1 <= n,
            None => scan_token(s@, pos as int) is None,
        },
{
    proof {
        lemma_scan_token_advances(s@, pos as int);
    }
    let c = s.get_char(pos);
    if ident_start_char(c) {
        let e = ident_end_at(s, n, pos + 1);
        let j = skip_ws_at(s, n, e);
        if j < n && s.get_char(j) == ':' {
            let k = skip_ws_at(s, n, j + 1);
            if word_at_exec(s, n, k, "i32") {
                proof {
                    reveal_strlit("i32");
                }
                let name = s.substring_char(pos, e).to_owned();
                return Some((Token::TypeDeclaration(name, "i32".to_owned()), k + 3));
            }
            if word_at_exec(s, n, k, "i64") {
                proof {
                    reveal_strlit("i64");
                }
                let name = s.substring_char(pos, e).to_owned();
                return Some((Token::TypeDeclaration(name, "i64".to_owned()), k + 3));
            }
            if word_at_exec(s, n, k, "string") {
                proof {
                    reveal_strlit("string");
                }
                let name = s.substring_char(pos, e).to_owned();
                return Some((Token::TypeDeclaration(name, "string".to_owned()), k + 6));
            }
        }
        if region_is(s, n, pos, e, "function") {
            return Some((Token::Function, e));
        }
        if region_is(s, n, pos, e, "if") {
            return Some((Token::If, e));
        }
        if region_is(s, n, pos, e, "else") {
            return Some((Token::Else, e));
        }
        if region_is(s, n, pos, e, "while") {
            return Some((Token::While, e));
        }
        if region_is(s, n, pos, e, "return") {
            return Some((Token::Return, e));
        }
        if region_is(s, n, pos, e, "print") {
            return Some((Token::Print, e));
        }
        let name = s.substring_char(pos, e).to_owned();
        return Some((Token::Ident(name), e));
    }
    if digit_char(c) {
        let e = digits_end_at(s, n, pos + 1);
        proof {
            lemma_digits_end(s@, pos + 1);
        }
        match digits_value(s, n, pos, e) {
            Some(v) => {
                if v <= 0x7fffffff {
                    return Some((Token::I32(v as i32), e));
                } else {
                    return Some((Token::I64(v as i64), e));
                }
            },
            None => {
                return None;
            },
        }
    }
    if c == '"' {
        let q = quote_end_at(s, n, pos + 1);
        if q < n {
            let content = s.substring_char(pos + 1, q).to_owned();
            return Some((Token::String(content), q + 1));
        } else {
            return None;
        }
    }
    if c == '=' {
        if pos + 1 < n && s.get_char(pos + 1) == '=' {
            return Some((Token::DoubleEqual, pos + 2));
        } else {
            return Some((Token::Assignment, pos + 1));
        }
    }
    if c == '+' {
        return Some((Token::Plus, pos + 1));
    }
    if c == '-' {
        return Some((Token::Minus, pos + 1));
    }
    if c == '*' {
        return Some((Token::Star, pos + 1));
    }
    if c == '/' {
        return Some((Token::Slash, pos + 1));
    }
    if c == '%' {
        return Some((Token::Modulo, pos + 1));
    }
    if c == '<' {
        return Some((Token::LessThan, pos + 1));
    }
    if c == '>' {
        return Some((Token::GreaterThan, pos + 1));
    }
    if c == '(' {
        return Some((Token::LParen, pos + 1));
    }
    if c == ')' {
        return Some((Token::RParen, pos + 1));
    }
    if c == '{' {
        return Some((Token::LBrace, pos + 1));
    }
    if c == '}' {
        return Some((Token::RBrace, pos + 1));
    }
    if c == ';' {
        return Some((Token::Semicolon, pos + 1));
    }
    if c == ',' {
        return Some((Token::Comma, pos + 1));
    }
    None
}

/// Lexes the whole input into tokens, skipping whitespace between tokens.
/// The identifier alphabet is ASCII by policy: a letter or underscore,
/// then letters, digits and underscores.
/// Returns the unconsumed remainder together with the tokens; the
/// remainder is empty exactly when the whole input was lexed, and only
/// then is the `EOF` sentinel appended.  On the first character at which
/// no token can be scanned, lexing halts and the rest of the input
/// (beginning right after the last token) is handed back unconsumed.
#[verifier::loop_isolation(false)]
pub fn tokenizer(input: &str) -> (r: (String, Vec<Token>))
    ensures
        r.1.deep_view() == spec_tokenize(input@).0,
        r.0@ == input@.subrange(spec_tokenize(input@).1, input@.len() as int),
{
    let n = input.unicode_len();
    let mut tokens: Vec<Token> = Vec::new();
    let mut pos: usize = 0;
    loop
        invariant
            pos <= n,
            spec_tokenize(input@).0 == tokens.deep_view() + spec_tokenize_from(
                input@,
                pos as int,
            ).0,
            spec_tokenize(input@).1 == spec_tokenize_from(input@, pos as int).1,
        decreases n - pos,
    {
        let ghost prev_dv = tokens.deep_view();
        let p = skip_ws_at(input, n, pos);
        if p == n {
            tokens.push(Token::EOF);
            proof {
                assert(tokens.deep_view() =~= prev_dv + seq![TokenModel::EOF]);
                assert(spec_tokenize(input@).0 =~= tokens.deep_view());
            }
            let rem = String::new();
            proof {
                assert(rem@ =~= input@.subrange(spec_tokenize(input@).1, input@.len() as int));
            }
            return (rem, tokens);
        }
        match scan_one(input, n, p) {
            Some((tok, np)) => {
                proof {
                    let rest = spec_tokenize_from(input@, np as int);
                    assert(spec_tokenize_from(input@, pos as int) == (
                        seq![tok@] + rest.0,
                        rest.1,
                    ));
                }
                let ghost t0 = tok@;
                tokens.push(tok);
                proof {
                    assert(tokens.deep_view() =~= prev_dv + seq![t0]);
                    assert(prev_dv + (seq![t0] + spec_tokenize_from(input@, np as int).0) =~= (
                    prev_dv + seq![t0]) + spec_tokenize_from(input@, np as int).0);
                }
                pos = np;
            },
            None => {
                let rem = input.substring_char(pos, n).to_owned();
                proof {
                    assert(spec_tokenize_from(input@, pos as int) == (
                        Seq::<TokenModel>::empty(),
                        pos as int,
                    ));
                    assert(spec_tokenize(input@).0 =~= tokens.deep_view());
                }
                return (rem, tokens);
            },
        }
    }
}

/// The identifier run beginning at `i` ends exactly at `e` when the
/// characters up to `e` are identifier characters and `e` is the end of
/// the input or holds something else.
pub proof fn lemma_ident_end_is(s: Seq<char>, i: int, e: int)
    requires
        0 <= i <= e <= s.len(),
        forall|k: int| i <= k < e ==> is_ident_char(#[trigger] s[k]),
        e < s.len() ==> !is_ident_char(s[e]),
    ensures
        ident_end(s, i) == e,
    decreases e - i,
{
    if i < e {
        lemma_ident_end_is(s, i + 1, e);
    }
}

/// The digit run beginning at `i` ends exactly at `e` under the analogous
/// conditions.
pub proof fn lemma_digits_end_is(s: Seq<char>, i: int, e: int)
    requires
        0 <= i <= e <= s.len(),
        forall|k: int| i <= k < e ==> is_digit_char(#[trigger] s[k]),
        e < s.len() ==> !is_digit_char(s[e]),
    ensures
        digits_end(s, i) == e,
    decreases e - i,
{
    if i < e {
        lemma_digits_end_is(s, i + 1, e);
    }
}

/// `quote_end` beginning at `i` stops exactly at `e` when no `"` occurs
/// before `e` and `e` is the end of the input or holds a `"`.
pub proof fn lemma_quote_end_is(s: Seq<char>, i: int, e: int)
    requires
        0 <= i <= e <= s.len(),
        forall|k: int| i <= k < e ==> #[trigger] s[k] != '"',
        e < s.len() ==> s[e] == '"',
    ensures
        quote_end(s, i) == e,
    decreases e - i,
{
    if i < e {
        lemma_quote_end_is(s, i + 1, e);
    }
}

/// `skip_ws` beginning at `i` stops exactly at `e` when everything before
/// `e` is whitespace and `e` is the end of the input or non-whitespace.
pub proof fn lemma_skip_ws_is(s: Seq<char>, i: int, e: int)
    requires
        0 <= i <= e <= s.len(),
        forall|k: int| i <= k < e ==> is_ws_char(#[trigger] s[k]),
        e < s.len() ==> !is_ws_char(s[e]),
    ensures
        skip_ws(s, i) == e,
    decreases e - i,
{
    if i < e {
        lemma_skip_ws_is(s, i + 1, e);
    }
}

/// Where a lone operator or punctuation character token ends, if `c`
/// stands (surrounded by optional whitespace) at the front of `s`: the
/// position after the character and its trailing whitespace.
pub open spec fn char_token_end(s: Seq<char>, c: char) -> Option<int> {
    let p = skip_ws(s, 0);
    if p < s.len() && s[p] == c {
        Some(skip_ws(s, p + 1))
    } else {
        None
    }
}

/// Consumes one expected character surrounded by optional whitespace and
/// hands back the remaining input.
fn char_token(input: &str, c: char) -> (r: Option<String>)
    ensures
        match char_token_end(input@, c) {
            Some(e) => r matches Some(rem) && rem@ == input@.subrange(e, input@.len() as int),
            None => r is None,
        },
{
    let n = input.unicode_len();
    let p = skip_ws_at(input, n, 0);
    if p < n && input.get_char(p) == c {
        let e = skip_ws_at(input, n, p + 1);
        Some(input.substring_char(e, n).to_owned())
    } else {
        None
    }
}

/// Lexes a decimal integer literal at the very front of the input: a
/// 32-bit token when the value fits, otherwise a 64-bit one, and `None`
/// past the signed 64-bit range.  Hands back the unconsumed remainder.
pub fn integer(input: &str) -> (r: Option<(String, Token)>)
    ensures
        ({
            let s = input@;
            if s.len() > 0 && is_digit_char(s[0]) {
                match scan_token(s, 0) {
                    Some(t) => r matches Some(p) && p.1@ == t.0 && p.0@ == s.subrange(
                        t.1,
                        s.len() as int,
                    ),
                    None => r is None,
                }
            } else {
                r is None
            }
        }),
{
    let n = input.unicode_len();
    if n == 0 {
        return None;
    }
    if !digit_char(input.get_char(0)) {
        return None;
    }
    match scan_one(input, n, 0) {
        Some((tok, np)) => Some((input.substring_char(np, n).to_owned(), tok)),
        None => None,
    }
}

/// Lexes an identifier word at the very front of the input, without
/// keyword interpretation, and hands back the unconsumed remainder.
pub fn identifier(input: &str) -> (r: Option<(String, Token)>)
    ensures
        ({
            let s = input@;
            if s.len() > 0 && is_ident_start_char(s[0]) {
                let e = ident_end(s, 1);
                r matches Some(p) && p.1@ == TokenModel::Ident(s.subrange(0, e)) && p.0@
                    == s.subrange(e, s.len() as int)
            } else {
                r is None
            }
        }),
{
    let n = input.unicode_len();
    if n == 0 {
        return None;
    }
    if !ident_start_char(input.get_char(0)) {
        return None;
    }
    let e = ident_end_at(input, n, 1);
    let word = input.substring_char(0, e).to_owned();
    Some((input.substring_char(e, n).to_owned(), Token::Ident(word)))
}

/// Lexes a double-quoted string literal surrounded by optional
/// whitespace; the quotes are excluded from the token's content.
pub fn string_literal(input: &str) -> (r: Option<(String, Token)>)
    ensures
        ({
            let s = input@;
            let p = skip_ws(s, 0);
            if p < s.len() && s[p] == '"' {
                let q = quote_end(s, p + 1);
                if q < s.len() {
                    let e = skip_ws(s, q + 1);
                    r matches Some(t) && t.1@ == TokenModel::String(s.subrange(p + 1, q)) && t.0@
                        == s.subrange(e, s.len() as int)
                } else {
                    r is None
                }
            } else {
                r is None
            }
        }),
{
    let n = input.unicode_len();
    let p = skip_ws_at(input, n, 0);
    if p < n && input.get_char(p) == '"' {
        let q = quote_end_at(input, n, p + 1);
        if q < n {
            let content = input.substring_char(p + 1, q).to_owned();
            let e = skip_ws_at(input, n, q + 1);
            Some((input.substring_char(e, n).to_owned(), Token::String(content)))
        } else {
            None
        }
    } else {
        None
    }
}

/// Lexes a `+` surrounded by optional whitespace.
pub fn plus(input: &str) -> (r: Option<(String, Token)>)
    ensures
        match char_token_end(input@, '+') {
            Some(e) => r matches Some(p) && p.1@ == TokenModel::Plus && p.0@ == input@.subrange(
                e,
                input@.len() as int,
            ),
            None => r is None,
        },
{
    match char_token(input, '+') {
        Some(rem) => Some((rem, Token::Plus)),
        None => None,
    }
}

/// Lexes a `-` surrounded by optional whitespace.
pub fn minus(input: &str) -> (r: Option<(String, Token)>)
    ensures
        match char_token_end(input@, '-') {
            Some(e) => r matches Some(p) && p.1@ == TokenModel::Minus && p.0@ == input@.subrange(
                e,
                input@.len() as int,
            ),
            None => r is None,
        },
{
    match char_token(input, '-') {
        Some(rem) => Some((rem, Token::Minus)),
        None => None,
    }
}

/// Lexes a `*` surrounded by optional whitespace.
pub fn star(input: &str) -> (r: Option<(String, Token)>)
    ensures
        match char_token_end(input@, '*') {
            Some(e) => r matches Some(p) && p.1@ == TokenModel::Star && p.0@ == input@.subrange(
                e,
                input@.len() as int,
            ),
            None => r is None,
        },
{
    match char_token(input, '*') {
        Some(rem) => Some((rem, Token::Star)),
        None => None,
    }
}

/// Lexes a `/` surrounded by optional whitespace.
pub fn slash(input: &str) -> (r: Option<(String, Token)>)
    ensures
        match char_token_end(input@, '/') {
            Some(e) => r matches Some(p) && p.1@ == TokenModel::Slash && p.0@ == input@.subrange(
                e,
                input@.len() as int,
            ),
            None => r is None,
        },
{
    match char_token(input, '/') {
        Some(rem) => Some((rem, Token::Slash)),
        None => None,
    }
}

/// Lexes a `%` surrounded by optional whitespace.
pub fn modulo(input: &str) -> (r: Option<(String, Token)>)
    ensures
        match char_token_end(input@, '%') {
            Some(e) => r matches Some(p) && p.1@ == TokenModel::Modulo && p.0@ == input@.subrange(
                e,
                input@.len() as int,
            ),
            None => r is None,
        },
{
    match char_token(input, '%') {
        Some(rem) => Some((rem, Token::Modulo)),
        None => None,
    }
}

/// Lexes a `<` surrounded by optional whitespace.
pub fn less_than(input: &str) -> (r: Option<(String, Token)>)
    ensures
        match char_token_end(input@, '<') {
            Some(e) => r matches Some(p) && p.1@ == TokenModel::LessThan && p.0@
                == input@.subrange(e, input@.len() as int),
            None => r is None,
        },
{
    match char_token(input, '<') {
        Some(rem) => Some((rem, Token::LessThan)),
        None => None,
    }
}

/// Lexes a `>` surrounded by optional whitespace.
pub fn greater_than(input: &str) -> (r: Option<(String, Token)>)
    ensures
        match char_token_end(input@, '>') {
            Some(e) => r matches Some(p) && p.1@ == TokenModel::GreaterThan && p.0@
                == input@.subrange(e, input@.len() as int),
            None => r is None,
        },
{
    match char_token(input, '>') {
        Some(rem) => Some((rem, Token::GreaterThan)),
        None => None,
    }
}

/// Lexes a `=` surrounded by optional whitespace.
pub fn assignment(input: &str) -> (r: Option<(String, Token)>)
    ensures
        match char_token_end(input@, '=') {
            Some(e) => r matches Some(p) && p.1@ == TokenModel::Assignment && p.0@
                == input@.subrange(e, input@.len() as int),
            None => r is None,
        },
{
    match char_token(input, '=') {
        Some(rem) => Some((rem, Token::Assignment)),
        None => None,
    }
}

/// Lexes a `==` surrounded by optional whitespace, as one token.
pub fn double_equal(input: &str) -> (r: Option<(String, Token)>)
    ensures
        ({
            let s = input@;
            let p = skip_ws(s, 0);
            if p + 1 < s.len() && s[p] == '=' && s[p + 1] == '=' {
                let e = skip_ws(s, p + 2);
                r matches Some(t) && t.1@ == TokenModel::DoubleEqual && t.0@ == s.subrange(
                    e,
                    s.len() as int,
                )
            } else {
                r is None
            }
        }),
{
    let n = input.unicode_len();
    let p = skip_ws_at(input, n, 0);
    if p < n && input.get_char(p) == '=' && p + 1 < n && input.get_char(p + 1) == '=' {
        let e = skip_ws_at(input, n, p + 2);
        Some((input.substring_char(e, n).to_owned(), Token::DoubleEqual))
    } else {
        None
    }
}

/// Lexes a `(` surrounded by optional whitespace.
pub fn l_paren(input: &str) -> (r: Option<(String, Token)>)
    ensures
        match char_token_end(input@, '(') {
            Some(e) => r matches Some(p) && p.1@ == TokenModel::LParen && p.0@ == input@.subrange(
                e,
                input@.len() as int,
            ),
            None => r is None,
        },
{
    match char_token(input, '(') {
        Some(rem) => Some((rem, Token::LParen)),
        None => None,
    }
}

/// Lexes a `)` surrounded by optional whitespace.
pub fn r_paren(input: &str) -> (r: Option<(String, Token)>)
    ensures
        match char_token_end(input@, ')') {
            Some(e) => r matches Some(p) && p.1@ == TokenModel::RParen && p.0@ == input@.subrange(
                e,
                input@.len() as int,
            ),
            None => r is None,
        },
{
    match char_token(input, ')') {
        Some(rem) => Some((rem, Token::RParen)),
        None => None,
    }
}

/// Lexes a `{` surrounded by optional whitespace.
pub fn l_brace(input: &str) -> (r: Option<(String, Token)>)
    ensures
        match char_token_end(input@, '{') {
            Some(e) => r matches Some(p) && p.1@ == TokenModel::LBrace && p.0@ == input@.subrange(
                e,
                input@.len() as int,
            ),
            None => r is None,
        },
{
    match char_token(input, '{') {
        Some(rem) => Some((rem, Token::LBrace)),
        None => None,
    }
}

/// Lexes a `}` surrounded by optional whitespace.
pub fn r_brace(input: &str) -> (r: Option<(String, Token)>)
    ensures
        match char_token_end(input@, '}') {
            Some(e) => r matches Some(p) && p.1@ == TokenModel::RBrace && p.0@ == input@.subrange(
                e,
                input@.len() as int,
            ),
            None => r is None,
        },
{
    match char_token(input, '}') {
        Some(rem) => Some((rem, Token::RBrace)),
        None => None,
    }
}

/// Lexes a `;` surrounded by optional whitespace.
pub fn semicolon(input: &str) -> (r: Option<(String, Token)>)
    ensures
        match char_token_end(input@, ';') {
            Some(e) => r matches Some(p) && p.1@ == TokenModel::Semicolon && p.0@
                == input@.subrange(e, input@.len() as int),
            None => r is None,
        },
{
    match char_token(input, ';') {
        Some(rem) => Some((rem, Token::Semicolon)),
        None => None,
    }
}

/// Lexes a `,` surrounded by optional whitespace.
pub fn comma(input: &str) -> (r: Option<(String, Token)>)
    ensures
        match char_token_end(input@, ',') {
            Some(e) => r matches Some(p) && p.1@ == TokenModel::Comma && p.0@ == input@.subrange(
                e,
                input@.len() as int,
            ),
            None => r is None,
        },
{
    match char_token(input, ',') {
        Some(rem) => Some((rem, Token::Comma)),
        None => None,
    }
}

/// Round-trip of the identifier category: an identifier-shaped word that
/// is none of the reserved words lexes to exactly its identifier token
/// and the end-of-input sentinel.
pub proof fn lemma_tokenize_ident(s: Seq<char>)
    requires
        s.len() > 0,
        is_ident_start_char(s[0]),
        forall|k: int| 0 <= k < s.len() ==> is_ident_char(#[trigger] s[k]),
        s != "function"@,
        s != "if"@,
        s != "else"@,
        s != "while"@,
        s != "return"@,
        s != "print"@,
    ensures
        spec_tokenize(s).0 == seq![TokenModel::Ident(s), TokenModel::EOF],
        spec_tokenize(s).1 == s.len(),
{
    let n = s.len() as int;
    assert(!is_ws_char(s[0]));
    lemma_skip_ws_is(s, 0, 0);
    lemma_ident_end_is(s, 1, n);
    assert(skip_ws(s, n) == n);
    assert(s.subrange(0, n) =~= s);
    assert(scan_token(s, 0) == Some((TokenModel::Ident(s), n)));
    assert(spec_tokenize_from(s, n) == (seq![TokenModel::EOF], n));
    assert(spec_tokenize_from(s, 0) == (
        seq![TokenModel::Ident(s)] + seq![TokenModel::EOF],
        n,
    ));
    assert(seq![TokenModel::Ident(s)] + seq![TokenModel::EOF] =~= seq![
        TokenModel::Ident(s),
        TokenModel::EOF,
    ]);
}

/// Round-trip of the integer-literal category: a run of digits lexes to
/// the 32-bit token when its value fits in a signed 32-bit integer, to
/// the 64-bit token when it only fits in a signed 64-bit integer, and to
/// nothing (lexing halts) beyond that.
pub proof fn lemma_tokenize_int(s: Seq<char>)
    requires
        s.len() > 0,
        forall|k: int| 0 <= k < s.len() ==> is_digit_char(#[trigger] s[k]),
    ensures
        digits_val(s) <= i32_limit() ==> spec_tokenize(s) == (
            seq![TokenModel::I32(digits_val(s) as i32), TokenModel::EOF],
            s.len() as int,
        ),
        i32_limit() < digits_val(s) <= i64_limit() ==> spec_tokenize(s) == (
            seq![TokenModel::I64(digits_val(s) as i64), TokenModel::EOF],
            s.len() as int,
        ),
        digits_val(s) > i64_limit() ==> spec_tokenize(s) == (Seq::<TokenModel>::empty(), 0int),
{
    let n = s.len() as int;
    assert(!is_ws_char(s[0]));
    assert(!is_ident_start_char(s[0]));
    lemma_skip_ws_is(s, 0, 0);
    lemma_digits_end_is(s, 1, n);
    assert(skip_ws(s, n) == n);
    assert(s.subrange(0, n) =~= s);
    assert(spec_tokenize_from(s, n) == (seq![TokenModel::EOF], n));
    if digits_val(s) <= i32_limit() {
        assert(scan_token(s, 0) == Some((TokenModel::I32(digits_val(s) as i32), n)));
        assert(seq![TokenModel::I32(digits_val(s) as i32)] + seq![TokenModel::EOF] =~= seq![
            TokenModel::I32(digits_val(s) as i32),
            TokenModel::EOF,
        ]);
    } else if digits_val(s) <= i64_limit() {
        assert(scan_token(s, 0) == Some((TokenModel::I64(digits_val(s) as i64), n)));
        assert(seq![TokenModel::I64(digits_val(s) as i64)] + seq![TokenModel::EOF] =~= seq![
            TokenModel::I64(digits_val(s) as i64),
            TokenModel::EOF,
        ]);
    } else {
        assert(scan_token(s, 0) is None);
    }
}

/// Round-trip of the string-literal category: quoted content lexes to a
/// string token carrying exactly the characters between the quotes, the
/// quotes excluded.
pub proof fn lemma_tokenize_string(c: Seq<char>)
    requires
        forall|k: int| 0 <= k < c.len() ==> #[trigger] c[k] != '"',
    ensures
        spec_tokenize(seq!['"'] + c + seq!['"']).0 == seq![
            TokenModel::String(c),
            TokenModel::EOF,
        ],
        spec_tokenize(seq!['"'] + c + seq!['"']).1 == c.len() + 2,
{
    let s = seq!['"'] + c + seq!['"'];
    let n = s.len() as int;
    assert(n == c.len() + 2);
    assert(s[0] == '"');
    assert(!is_ws_char(s[0]));
    assert(!is_ident_start_char(s[0]));
    assert(!is_digit_char(s[0]));
    lemma_skip_ws_is(s, 0, 0);
    assert(forall|k: int| 1 <= k < n - 1 ==> #[trigger] s[k] != '"');
    assert(s[n - 1] == '"');
    lemma_quote_end_is(s, 1, n - 1);
    assert(s.subrange(1, n - 1) =~= c);
    assert(scan_token(s, 0) == Some((TokenModel::String(c), n)));
    assert(skip_ws(s, n) == n);
    assert(spec_tokenize_from(s, n) == (seq![TokenModel::EOF], n));
    assert(spec_tokenize_from(s, 0) == (seq![TokenModel::String(c)] + seq![TokenModel::EOF], n));
    assert(seq![TokenModel::String(c)] + seq![TokenModel::EOF] =~= seq![
        TokenModel::String(c),
        TokenModel::EOF,
    ]);
}

/// Round-trip of the type-declaration category: an identifier-shaped
/// name, a colon and one of the three type names lex to the single
/// combined token carrying both parts.
pub proof fn lemma_tokenize_type_declaration(name: Seq<char>, ty: Seq<char>)
    requires
        name.len() > 0,
        is_ident_start_char(name[0]),
        forall|k: int| 0 <= k < name.len() ==> is_ident_char(#[trigger] name[k]),
        ty == "i32"@ || ty == "i64"@ || ty == "string"@,
    ensures
        spec_tokenize(name + seq![':'] + ty).0 == seq![
            TokenModel::TypeDeclaration(name, ty),
            TokenModel::EOF,
        ],
        spec_tokenize(name + seq![':'] + ty).1 == name.len() + 1 + ty.len(),
{
    reveal_strlit("i32");
    reveal_strlit("i64");
    reveal_strlit("string");
    let s = name + seq![':'] + ty;
    let n = s.len() as int;
    let nl = name.len() as int;
    assert(s[0] == name[0]);
    assert(!is_ws_char(s[0]));
    lemma_skip_ws_is(s, 0, 0);
    assert(forall|k: int| 1 <= k < nl ==> is_ident_char(#[trigger] s[k]));
    assert(s[nl] == ':');
    assert(!is_ident_char(s[nl]));
    lemma_ident_end_is(s, 1, nl);
    assert(!is_ws_char(s[nl]));
    lemma_skip_ws_is(s, nl, nl);
    assert(s[nl + 1] == ty[0]);
    assert(!is_ws_char(s[nl + 1]));
    lemma_skip_ws_is(s, nl + 1, nl + 1);
    assert(s.subrange(0, nl) =~= name);
    assert(s.subrange(nl + 1, n) =~= ty);
    if ty == "i32"@ {
        assert(s.subrange(nl + 1, nl + 1 + 3) =~= ty);
        assert(word_at(s, nl + 1, "i32"@));
        assert(scan_token(s, 0) == Some((TokenModel::TypeDeclaration(name, ty), n)));
    } else if ty == "i64"@ {
        assert(s.subrange(nl + 1, nl + 1 + 3) =~= ty);
        assert(!word_at(s, nl + 1, "i32"@)) by {
            assert(ty[1] != "i32"@[1]);
        }
        assert(word_at(s, nl + 1, "i64"@));
        assert(scan_token(s, 0) == Some((TokenModel::TypeDeclaration(name, ty), n)));
    } else {
        assert(s.subrange(nl + 1, nl + 1 + 6) =~= ty);
        assert(!word_at(s, nl + 1, "i32"@)) by {
            if word_at(s, nl + 1, "i32"@) {
                assert(s.subrange(nl + 1, nl + 1 + 3)[0] == "i32"@[0]);
                assert(s[nl + 1] == 'i');
                assert(ty[0] == 's');
            }
        }
        assert(!word_at(s, nl + 1, "i64"@)) by {
            if word_at(s, nl + 1, "i64"@) {
                assert(s.subrange(nl + 1, nl + 1 + 3)[0] == "i64"@[0]);
                assert(s[nl + 1] == 'i');
                assert(ty[0] == 's');
            }
        }
        assert(word_at(s, nl + 1, "string"@));
        assert(scan_token(s, 0) == Some((TokenModel::TypeDeclaration(name, ty), n)));
    }
    assert(skip_ws(s, n) == n);
    assert(spec_tokenize_from(s, n) == (seq![TokenModel::EOF], n));
    assert(spec_tokenize_from(s, 0) == (
        seq![TokenModel::TypeDeclaration(name, ty)] + seq![TokenModel::EOF],
        n,
    ));
    assert(seq![TokenModel::TypeDeclaration(name, ty)] + seq![TokenModel::EOF] =~= seq![
        TokenModel::TypeDeclaration(name, ty),
        TokenModel::EOF,
    ]);
}

/// Round-trip of the operator and punctuation category: each lone
/// operator or punctuation character lexes to its own token and the
/// end-of-input sentinel (`=` alone is the assignment token).
pub proof fn lemma_tokenize_operator(c: char)
    requires
        c == '+' || c == '-' || c == '*' || c == '/' || c == '%' || c == '<' || c == '>' || c
            == '=' || c == '(' || c == ')' || c == '{' || c == '}' || c == ';' || c == ',',
    ensures
        spec_tokenize(seq![c]).1 == 1,
        c == '+' ==> spec_tokenize(seq![c]).0 == seq![TokenModel::Plus, TokenModel::EOF],
        c == '-' ==> spec_tokenize(seq![c]).0 == seq![TokenModel::Minus, TokenModel::EOF],
        c == '*' ==> spec_tokenize(seq![c]).0 == seq![TokenModel::Star, TokenModel::EOF],
        c == '/' ==> spec_tokenize(seq![c]).0 == seq![TokenModel::Slash, TokenModel::EOF],
        c == '%' ==> spec_tokenize(seq![c]).0 == seq![TokenModel::Modulo, TokenModel::EOF],
        c == '<' ==> spec_tokenize(seq![c]).0 == seq![TokenModel::LessThan, TokenModel::EOF],
        c == '>' ==> spec_tokenize(seq![c]).0 == seq![TokenModel::GreaterThan, TokenModel::EOF],
        c == '=' ==> spec_tokenize(seq![c]).0 == seq![TokenModel::Assignment, TokenModel::EOF],
        c == '(' ==> spec_tokenize(seq![c]).0 == seq![TokenModel::LParen, TokenModel::EOF],
        c == ')' ==> spec_tokenize(seq![c]).0 == seq![TokenModel::RParen, TokenModel::EOF],
        c == '{' ==> spec_tokenize(seq![c]).0 == seq![TokenModel::LBrace, TokenModel::EOF],
        c == '}' ==> spec_tokenize(seq![c]).0 == seq![TokenModel::RBrace, TokenModel::EOF],
        c == ';' ==> spec_tokenize(seq![c]).0 == seq![TokenModel::Semicolon, TokenModel::EOF],
        c == ',' ==> spec_tokenize(seq![c]).0 == seq![TokenModel::Comma, TokenModel::EOF],
{
    let s = seq![c];
    assert(s[0] == c);
    assert(!is_ws_char(c));
    assert(!is_ident_start_char(c));
    assert(!is_digit_char(c));
    lemma_skip_ws_is(s, 0, 0);
    assert(scan_token(s, 0) is Some);
    let pr = scan_token(s, 0)->0;
    assert(pr.1 == 1);
    assert(skip_ws(s, 1) == 1);
    assert(spec_tokenize_from(s, 1) == (seq![TokenModel::EOF], 1int));
    let t = pr.0;
    assert(spec_tokenize_from(s, 0) == (seq![t] + seq![TokenModel::EOF], 1int));
    assert(seq![t] + seq![TokenModel::EOF] =~= seq![t, TokenModel::EOF]);
}

/// A double equals sign scans as the single `DoubleEqual` token consuming
/// both characters — never as two `Assignment` tokens.
pub proof fn lemma_double_equal_single_token(s: Seq<char>, pos: int)
    requires
        0 <= pos,
        pos + 1 < s.len(),
        s[pos] == '=',
        s[pos + 1] == '=',
    ensures
        scan_token(s, pos) == Some((TokenModel::DoubleEqual, pos + 2)),
{
}

} // verus!
