//! The tokenizer: scans evaluator output into a stream of tokens, silently
//! skipping characters that begin no token.

use vstd::prelude::*;

verus! {

/// A token as a mathematical value.
pub enum TokenV {
    Null,
    Bool(bool),
    Str(Seq<char>),
    Code,
    Lambda,
    Primop,
    Cycle,
    Equals,
    Semi,
    Number(i64),
    LParens,
    RParens,
    LBracket,
    RBracket,
    LCurly,
    RCurly,
    Path(Seq<char>),
    Ident(Seq<char>),
}

/// The lexical units of evaluator output.
#[derive(Debug, PartialEq)]
pub enum Token {
    Null,
    Bool(bool),
    String(String),
    CODE,
    LAMBDA,
    PRIMOP,
    CYCLE,
    Equals,
    Semi,
    Number(i64),
    LParens,
    RParens,
    LBracket,
    RBracket,
    LCurly,
    RCurly,
    Path(String),
    Ident(String),
}

impl View for Token {
    type V = TokenV;

    open spec fn view(&self) -> TokenV {
        match self {
            Token::Null => TokenV::Null,
            Token::Bool(b) => TokenV::Bool(*b),
            Token::String(s) => TokenV::Str(s@),
            Token::CODE => TokenV::Code,
            Token::LAMBDA => TokenV::Lambda,
            Token::PRIMOP => TokenV::Primop,
            Token::CYCLE => TokenV::Cycle,
            Token::Equals => TokenV::Equals,
            Token::Semi => TokenV::Semi,
            Token::Number(n) => TokenV::Number(*n),
            Token::LParens => TokenV::LParens,
            Token::RParens => TokenV::RParens,
            Token::LBracket => TokenV::LBracket,
            Token::RBracket => TokenV::RBracket,
            Token::LCurly => TokenV::LCurly,
            Token::RCurly => TokenV::RCurly,
            Token::Path(p) => TokenV::Path(p@),
            Token::Ident(i) => TokenV::Ident(i@),
        }
    }
}

/// What scanning one token yields: the token, or the text of a literal that
/// does not denote a value (an integer out of range, a bad escape).
pub open spec fn scanned_view(r: Result<Token, String>) -> Result<TokenV, Seq<char>> {
    match r {
        Ok(t) => Ok(t@),
        Err(text) => Err(text@),
    }
}

pub open spec fn is_digit(c: char) -> bool {
    '0' <= c && c <= '9'
}

pub open spec fn is_letter(c: char) -> bool {
    ('a' <= c && c <= 'z') || ('A' <= c && c <= 'Z')
}

/// Whether `c` is a Unicode word character, the class `\w` of regular
/// expressions.
pub uninterp spec fn word_char(c: char) -> bool;

/// Characters that continue an identifier: word characters, `-` and `'`.
pub open spec fn is_ident_char(c: char) -> bool {
    word_char(c) || c == '-' || c == '\''
}

pub open spec fn is_punct(c: char) -> bool {
    c == '[' || c == ']' || c == '{' || c == '}' || c == '(' || c == ')' || c == '=' || c == ';'
}

/// End of the run of digits that starts at `i`.
pub open spec fn digits_end(s: Seq<char>, i: int) -> int
    decreases s.len() - i,
{
    if 0 <= i < s.len() && is_digit(s[i]) {
        digits_end(s, i + 1)
    } else {
        i
    }
}

/// End of the run of identifier characters that starts at `i`.
pub open spec fn ident_end(s: Seq<char>, i: int) -> int
    decreases s.len() - i,
{
    if 0 <= i < s.len() && is_ident_char(s[i]) {
        ident_end(s, i + 1)
    } else {
        i
    }
}

/// End of a path literal's text: the next semicolon, or the end of input.
pub open spec fn path_end(s: Seq<char>, i: int) -> int
    decreases s.len() - i,
{
    if 0 <= i < s.len() && s[i] != ';' {
        path_end(s, i + 1)
    } else {
        i
    }
}

/// Index of the quote that closes a string literal whose contents start at
/// `i`; a backslash takes the character after it along.
pub open spec fn string_close(s: Seq<char>, i: int) -> Option<int>
    decreases s.len() - i,
{
    if i < 0 || i >= s.len() {
        None
    } else if s[i] == '"' {
        Some(i)
    } else if s[i] == '\\' {
        if i + 1 < s.len() {
            string_close(s, i + 2)
        } else {
            None
        }
    } else {
        string_close(s, i + 1)
    }
}

pub open spec fn code_marker() -> Seq<char> {
    seq!['<', 'C', 'O', 'D', 'E', '>']
}

pub open spec fn cycle_marker() -> Seq<char> {
    seq!['<', 'C', 'Y', 'C', 'L', 'E', '>']
}

pub open spec fn lambda_marker() -> Seq<char> {
    seq!['<', 'L', 'A', 'M', 'B', 'D', 'A', '>']
}

pub open spec fn primop_marker() -> Seq<char> {
    seq!['<', 'P', 'R', 'I', 'M', 'O', 'P', '>']
}

pub open spec fn occurs_at(s: Seq<char>, i: int, m: Seq<char>) -> bool {
    0 <= i && i + m.len() <= s.len() && s.subrange(i, i + m.len()) == m
}

/// Where the token that starts at `i` ends, if one starts there. The kinds
/// are tried in order: integer, identifier, string, path, marker,
/// punctuation.
pub open spec fn lexeme_end(s: Seq<char>, i: int) -> Option<int> {
    if !(0 <= i < s.len()) {
        None
    } else if is_digit(s[i]) {
        Some(digits_end(s, i + 1))
    } else if s[i] == '-' && i + 1 < s.len() && is_digit(s[i + 1]) {
        Some(digits_end(s, i + 2))
    } else if is_letter(s[i]) {
        Some(ident_end(s, i + 1))
    } else if s[i] == '"' {
        match string_close(s, i + 1) {
            Some(j) => Some(j + 1),
            None => None,
        }
    } else if s[i] == '/' {
        Some(path_end(s, i + 1))
    } else if occurs_at(s, i, code_marker()) {
        Some(i + 6)
    } else if occurs_at(s, i, cycle_marker()) {
        Some(i + 7)
    } else if occurs_at(s, i, lambda_marker()) || occurs_at(s, i, primop_marker()) {
        Some(i + 8)
    } else if is_punct(s[i]) {
        Some(i + 1)
    } else {
        None
    }
}

/// The span of the first token at or after `i`; what lies between is
/// skipped.
pub open spec fn next_lexeme(s: Seq<char>, i: int) -> Option<(int, int)>
    decreases s.len() - i,
{
    if !(0 <= i < s.len()) {
        None
    } else {
        match lexeme_end(s, i) {
            Some(e) => Some((i, e)),
            None => next_lexeme(s, i + 1),
        }
    }
}

pub open spec fn digit_value(c: char) -> int {
    c as int - '0' as int
}

/// The number that a run of decimal digits denotes.
pub open spec fn digits_value(t: Seq<char>) -> int
    decreases t.len(),
{
    if t.len() == 0 {
        0
    } else {
        digits_value(t.drop_last()) * 10 + digit_value(t.last())
    }
}

/// The number that an optionally signed run of digits denotes.
pub open spec fn signed_value(t: Seq<char>) -> int {
    if t.len() > 0 && t[0] == '-' {
        -digits_value(t.drop_first())
    } else {
        digits_value(t)
    }
}

pub open spec fn null_word() -> Seq<char> {
    seq!['n', 'u', 'l', 'l']
}

pub open spec fn true_word() -> Seq<char> {
    seq!['t', 'r', 'u', 'e']
}

pub open spec fn false_word() -> Seq<char> {
    seq!['f', 'a', 'l', 's', 'e']
}

/// What the contents of a string literal decode to, if its escapes are valid.
pub uninterp spec fn unescaped(s: Seq<char>) -> Option<Seq<char>>;

/// The token that the text `s[a..b]` stands for, `b` being the end that
/// `lexeme_end(s, a)` gives.
pub open spec fn token_at(s: Seq<char>, a: int, b: int) -> Result<TokenV, Seq<char>> {
    let t = s.subrange(a, b);
    let c = s[a];
    if is_digit(c) || c == '-' {
        let v = signed_value(t);
        if i64::MIN <= v <= i64::MAX {
            Ok(TokenV::Number(v as i64))
        } else {
            Err(t)
        }
    } else if is_letter(c) {
        if t == null_word() {
            Ok(TokenV::Null)
        } else if t == true_word() {
            Ok(TokenV::Bool(true))
        } else if t == false_word() {
            Ok(TokenV::Bool(false))
        } else {
            Ok(TokenV::Ident(t))
        }
    } else if c == '"' {
        match unescaped(s.subrange(a + 1, b - 1)) {
            Some(u) => Ok(TokenV::Str(u)),
            None => Err(t),
        }
    } else if c == '/' {
        Ok(TokenV::Path(t))
    } else if c == '<' {
        if t == code_marker() {
            Ok(TokenV::Code)
        } else if t == cycle_marker() {
            Ok(TokenV::Cycle)
        } else if t == lambda_marker() {
            Ok(TokenV::Lambda)
        } else {
            Ok(TokenV::Primop)
        }
    } else if c == '[' {
        Ok(TokenV::LBracket)
    } else if c == ']' {
        Ok(TokenV::RBracket)
    } else if c == '{' {
        Ok(TokenV::LCurly)
    } else if c == '}' {
        Ok(TokenV::RCurly)
    } else if c == '(' {
        Ok(TokenV::LParens)
    } else if c == ')' {
        Ok(TokenV::RParens)
    } else if c == '=' {
        Ok(TokenV::Equals)
    } else {
        Ok(TokenV::Semi)
    }
}

/// The first token at or after `pos`, with the position just past it.
pub open spec fn next_token(s: Seq<char>, pos: int) -> Option<(Result<TokenV, Seq<char>>, int)> {
    match next_lexeme(s, pos) {
        Some((a, b)) => Some((token_at(s, a, b), b)),
        None => None,
    }
}

/// Relies on unescape::unescape, which decodes the backslash escapes of a
/// string and returns `None` on an invalid one; a string without a
/// backslash comes back unchanged.
#[verifier::external_body]
fn unescape_str(s: &str) -> (r: Option<String>)
    ensures
        r.is_some() == unescaped(s@).is_some(),
        r.is_some() ==> r.unwrap()@ == unescaped(s@).unwrap(),
        r.is_some() || exists|i: int| 0 <= i < s@.len() && s@[i] == '\\',
        r.is_some() ==> (r.unwrap()@ == s@ || exists|i: int| 0 <= i < s@.len() && s@[i] == '\\'),
{
    unescape::unescape(s)
}

/// Relies on String::push, which appends one character.
#[verifier::external_body]
fn push_char(t: &mut String, c: char)
    ensures
        final(t)@ == old(t)@.push(c),
{
    t.push(c)
}


proof fn lemma_run_ends(s: Seq<char>, i: int)
    requires
        0 <= i <= s.len(),
    ensures
        i <= digits_end(s, i) <= s.len(),
        i <= ident_end(s, i) <= s.len(),
        i <= path_end(s, i) <= s.len(),
        string_close(s, i) matches Some(j) ==> i <= j < s.len(),
    decreases s.len() - i,
{
    if i < s.len() {
        lemma_run_ends(s, i + 1);
        if i + 2 <= s.len() {
            lemma_run_ends(s, i + 2);
        }
    }
}

/// A token spans at least one character and lies within the text.
pub proof fn lemma_lexeme_in_bounds(s: Seq<char>, i: int)
    ensures
        lexeme_end(s, i) matches Some(e) ==> i < e <= s.len(),
        next_lexeme(s, i) matches Some((a, b)) ==> i <= a < b <= s.len(),
        next_token(s, i) matches Some((_, e)) ==> i < e <= s.len(),
    decreases s.len() - i,
{
    if 0 <= i < s.len() {
        lemma_run_ends(s, i + 1);
        if i + 2 <= s.len() {
            lemma_run_ends(s, i + 2);
        }
        lemma_lexeme_in_bounds(s, i + 1);
    }
}

/// Whether `c` can begin no token: such characters, whitespace among them,
/// are skipped wherever they stand.
pub open spec fn begins_no_token(c: char) -> bool {
    !is_digit(c) && !is_letter(c) && !is_punct(c) && c != '-' && c != '"' && c != '/' && c != '<'
}

/// A character that begins no token is skipped: the next token is the one
/// after it.
pub proof fn lemma_skips_unknown(s: Seq<char>, i: int)
    requires
        0 <= i < s.len(),
        begins_no_token(s[i]),
    ensures
        next_token(s, i) == next_token(s, i + 1),
{
}

/// A run of digits is worth at least what any of its prefixes is worth, and
/// nothing negative.
proof fn lemma_digits_prefix(t: Seq<char>, k: int)
    requires
        0 <= k <= t.len(),
        forall|j: int| 0 <= j < t.len() ==> is_digit(#[trigger] t[j]),
    ensures
        0 <= digits_value(t.take(k)) <= digits_value(t),
    decreases t.len(),
{
    if t.len() > 0 {
        let d = t.drop_last();
        if k < t.len() {
            lemma_digits_prefix(d, k);
            assert(d.take(k) =~= t.take(k));
        } else {
            lemma_digits_prefix(d, k - 1);
            assert(d.take(k - 1) =~= d);
            assert(t.take(k) =~= t);
        }
    } else {
        assert(t.take(k) =~= t);
    }
}

fn is_digit_char(c: char) -> (r: bool)
    ensures
        r == is_digit(c),
{
    '0' <= c && c <= '9'
}

fn is_letter_char(c: char) -> (r: bool)
    ensures
        r == is_letter(c),
{
    ('a' <= c && c <= 'z') || ('A' <= c && c <= 'Z')
}

/// Relies on regex_syntax::is_word_character, the Unicode `\w` class
/// (Alphabetic, Join_Control, Decimal_Number, Mark, Connector_Punctuation);
/// ASCII letters, digits and `_` belong to it. It panics only without the
/// crate's `unicode-perl` feature, which its default features include.
#[verifier::external_body]
fn is_word_char(c: char) -> (r: bool)
    ensures
        r == word_char(c),
        (is_letter(c) || is_digit(c) || c == '_') ==> r,
{
    regex_syntax::is_word_character(c)
}

fn is_ident_char_exec(c: char) -> (r: bool)
    ensures
        r == is_ident_char(c),
{
    c == '-' || c == '\'' || is_word_char(c)
}

fn digits_end_exec(s: &Vec<char>, i: usize) -> (r: usize)
    requires
        i <= s.len(),
    ensures
        r == digits_end(s@, i as int),
        i <= r <= s.len(),
        forall|k: int| i <= k < r ==> is_digit(#[trigger] s@[k]),
{
    let mut j = i;
    while j < s.len() && is_digit_char(s[j])
        invariant
            i <= j <= s.len(),
            digits_end(s@, i as int) == digits_end(s@, j as int),
            forall|k: int| i <= k < j ==> is_digit(#[trigger] s@[k]),
        decreases s.len() - j,
    {
        j = j + 1;
    }
    j
}

fn ident_end_exec(s: &Vec<char>, i: usize) -> (r: usize)
    requires
        i <= s.len(),
    ensures
        r == ident_end(s@, i as int),
        i <= r <= s.len(),
{
    let mut j = i;
    while j < s.len() && is_ident_char_exec(s[j])
        invariant
            i <= j <= s.len(),
            ident_end(s@, i as int) == ident_end(s@, j as int),
        decreases s.len() - j,
    {
        j = j + 1;
    }
    j
}

fn path_end_exec(s: &Vec<char>, i: usize) -> (r: usize)
    requires
        i <= s.len(),
    ensures
        r == path_end(s@, i as int),
        i <= r <= s.len(),
{
    let mut j = i;
    while j < s.len() && s[j] != ';'
        invariant
            i <= j <= s.len(),
            path_end(s@, i as int) == path_end(s@, j as int),
        decreases s.len() - j,
    {
        j = j + 1;
    }
    j
}

fn string_close_exec(s: &Vec<char>, i: usize) -> (r: Option<usize>)
    requires
        i <= s.len(),
    ensures
        r matches Some(j) ==> string_close(s@, i as int) == Some(j as int) && i <= j < s.len(),
        r is None ==> string_close(s@, i as int) is None,
{
    let mut j = i;
    while j < s.len()
        invariant
            i <= j <= s.len(),
            string_close(s@, i as int) == string_close(s@, j as int),
        decreases s.len() - j,
    {
        if s[j] == '"' {
            return Some(j);
        } else if s[j] == '\\' {
            if j + 1 < s.len() {
                j = j + 2;
            } else {
                return None;
            }
        } else {
            j = j + 1;
        }
    }
    None
}

/// Whether `m` occurs in `s` at `i`.
pub(crate) fn occurs_exec(s: &Vec<char>, i: usize, m: &Vec<char>) -> (r: bool)
    ensures
        r == occurs_at(s@, i as int, m@),
{
    if i > s.len() || m.len() > s.len() - i {
        return false;
    }
    let mut k: usize = 0;
    while k < m.len()
        invariant
            i + m.len() <= s.len(),
            k <= m.len(),
            forall|j: int| 0 <= j < k ==> s@[i + j] == m@[j],
        decreases m.len() - k,
    {
        if s[i + k] != m[k] {
            assert(s@.subrange(i as int, i + m.len())[k as int] != m@[k as int]);
            return false;
        }
        k = k + 1;
    }
    assert(s@.subrange(i as int, i + m.len()) =~= m@);
    true
}

/// The characters `s[a..b]` as a string.
fn text_of(s: &Vec<char>, a: usize, b: usize) -> (r: String)
    requires
        a <= b <= s.len(),
    ensures
        r@ == s@.subrange(a as int, b as int),
{
    let mut t = String::new();
    let mut k = a;
    while k < b
        invariant
            a <= k <= b <= s.len(),
            t@ == s@.subrange(a as int, k as int),
        decreases b - k,
    {
        push_char(&mut t, s[k]);
        assert(s@.subrange(a as int, k + 1) =~= s@.subrange(a as int, k as int).push(s@[k as int]));
        k = k + 1;
    }
    t
}


/// The integer token for `s[a..b]`, an optionally signed run of digits.
fn number_token(s: &Vec<char>, a: usize, b: usize) -> (r: Result<Token, String>)
    requires
        a < b <= s.len(),
        is_digit(s@[a as int]) || (s@[a as int] == '-' && a + 1 < b),
        forall|k: int| a < k < b ==> is_digit(#[trigger] s@[k]),
    ensures
        scanned_view(r) == token_at(s@, a as int, b as int),
{
    let neg = s[a] == '-';
    let start = if neg { a + 1 } else { a };
    let ghost digits = s@.subrange(start as int, b as int);
    let ghost t = s@.subrange(a as int, b as int);
    proof {
        if neg {
            assert(t.drop_first() =~= digits);
        } else {
            assert(t =~= digits);
        }
        assert forall|j: int| 0 <= j < digits.len() implies is_digit(#[trigger] digits[j]) by {
            assert(digits[j] == s@[start + j]);
        }
    }
    let mut m: u64 = 0;
    let mut i = start;
    while i < b
        invariant
            a <= start <= i <= b <= s.len(),
            neg == (s@[a as int] == '-'),
            start == if neg { a + 1 } else { a as int },
            t == s@.subrange(a as int, b as int),
            neg ==> t.drop_first() == digits,
            !neg ==> t == digits,
            digits == s@.subrange(start as int, b as int),
            forall|j: int| 0 <= j < digits.len() ==> is_digit(#[trigger] digits[j]),
            m == digits_value(digits.take(i - start)),
        decreases b - i,
    {
        let c = s[i];
        let cv = c as u32;
        proof {
            assert(digits[i - start] == c);
            assert(48 <= cv <= 57);
        }
        let d = (cv - 48) as u64;
        proof {
            assert(digits[i - start] == s@[i as int]);
            assert(digits.take(i - start + 1).drop_last() =~= digits.take(i - start));
            assert(digits.take(i - start + 1).last() == c);
            assert(digit_value(c) == d);
            lemma_digits_prefix(digits, i - start + 1);
        }
        match m.checked_mul(10) {
            Some(m10) => match m10.checked_add(d) {
                Some(x) => {
                    m = x;
                },
                None => {
                    proof {
                        assert(digits_value(digits.take(i - start + 1)) > u64::MAX);
                        assert(t[0] == s@[a as int]);
                    }
                    return Err(text_of(s, a, b));
                },
            },
            None => {
                proof {
                    assert(digits_value(digits.take(i - start + 1)) > u64::MAX);
                    assert(t[0] == s@[a as int]);
                }
                return Err(text_of(s, a, b));
            },
        }
        i = i + 1;
    }
    proof {
        assert(digits.take(b - start) =~= digits);
    }
    if neg {
        if m <= 9223372036854775808u64 {
            if m == 9223372036854775808u64 {
                Ok(Token::Number(i64::MIN))
            } else {
                Ok(Token::Number(-(m as i64)))
            }
        } else {
            Err(text_of(s, a, b))
        }
    } else {
        if m <= 9223372036854775807u64 {
            Ok(Token::Number(m as i64))
        } else {
            Err(text_of(s, a, b))
        }
    }
}

/// The token for the identifier `s[a..b]`: a keyword or a name.
fn word_token(s: &Vec<char>, a: usize, b: usize) -> (r: Result<Token, String>)
    requires
        a < b <= s.len(),
        is_letter(s@[a as int]),
    ensures
        scanned_view(r) == token_at(s@, a as int, b as int),
{
    let ghost t = s@.subrange(a as int, b as int);
    let null_w = vec!['n', 'u', 'l', 'l'];
    let true_w = vec!['t', 'r', 'u', 'e'];
    let false_w = vec!['f', 'a', 'l', 's', 'e'];
    proof {
        assert(null_w@ =~= null_word());
        assert(true_w@ =~= true_word());
        assert(false_w@ =~= false_word());
    }
    if b - a == 4 && occurs_exec(s, a, &null_w) {
        Ok(Token::Null)
    } else if b - a == 4 && occurs_exec(s, a, &true_w) {
        proof {
            assert(null_word()[0] != true_word()[0]);
        }
        Ok(Token::Bool(true))
    } else if b - a == 5 && occurs_exec(s, a, &false_w) {
        Ok(Token::Bool(false))
    } else {
        proof {
            if t == null_word() {
                assert(occurs_at(s@, a as int, null_word()));
            }
            if t == true_word() {
                assert(occurs_at(s@, a as int, true_word()));
            }
            if t == false_word() {
                assert(occurs_at(s@, a as int, false_word()));
            }
        }
        Ok(Token::Ident(text_of(s, a, b)))
    }
}

/// The token for the string literal `s[a..b]`, quotes included.
fn string_token(s: &Vec<char>, a: usize, b: usize) -> (r: Result<Token, String>)
    requires
        a + 2 <= b <= s.len(),
        s@[a as int] == '"',
    ensures
        scanned_view(r) == token_at(s@, a as int, b as int),
{
    let inner = text_of(s, a + 1, b - 1);
    match unescape_str(inner.as_str()) {
        Some(u) => Ok(Token::String(u)),
        None => Err(text_of(s, a, b)),
    }
}

/// The marker token that occurs at `i`, if one does, with its end.
fn marker_token(s: &Vec<char>, i: usize) -> (r: Option<(Token, usize)>)
    requires
        i < s.len(),
    ensures
        r is None ==> !occurs_at(s@, i as int, code_marker()) && !occurs_at(s@, i as int, cycle_marker())
            && !occurs_at(s@, i as int, lambda_marker()) && !occurs_at(s@, i as int, primop_marker()),
        r matches Some((t, e)) ==> ({
            &&& (occurs_at(s@, i as int, code_marker()) || occurs_at(s@, i as int, cycle_marker())
                || occurs_at(s@, i as int, lambda_marker()) || occurs_at(s@, i as int, primop_marker()))
            &&& e == if occurs_at(s@, i as int, code_marker()) {
                i + 6
            } else if occurs_at(s@, i as int, cycle_marker()) {
                i + 7
            } else {
                i + 8
            }
            &&& e <= s.len()
            &&& s@[i as int] == '<'
            &&& token_at(s@, i as int, e as int) == Ok::<TokenV, Seq<char>>(t@)
        }),
{
    let code = vec!['<', 'C', 'O', 'D', 'E', '>'];
    let cycle = vec!['<', 'C', 'Y', 'C', 'L', 'E', '>'];
    let lambda = vec!['<', 'L', 'A', 'M', 'B', 'D', 'A', '>'];
    let primop = vec!['<', 'P', 'R', 'I', 'M', 'O', 'P', '>'];
    proof {
        assert(code@ =~= code_marker());
        assert(cycle@ =~= cycle_marker());
        assert(lambda@ =~= lambda_marker());
        assert(primop@ =~= primop_marker());
    }
    if occurs_exec(s, i, &code) {
        proof {
            assert(s@.subrange(i as int, i + 6)[0] == s@[i as int]);
        }
        Some((Token::CODE, i + 6))
    } else if occurs_exec(s, i, &cycle) {
        proof {
            assert(s@.subrange(i as int, i + 7)[0] == s@[i as int]);
        }
        Some((Token::CYCLE, i + 7))
    } else if occurs_exec(s, i, &lambda) {
        proof {
            assert(s@.subrange(i as int, i + 8)[0] == s@[i as int]);
        }
        Some((Token::LAMBDA, i + 8))
    } else if occurs_exec(s, i, &primop) {
        proof {
            assert(s@.subrange(i as int, i + 8)[0] == s@[i as int]);
            assert(primop_marker()[1] != lambda_marker()[1]);
        }
        Some((Token::PRIMOP, i + 8))
    } else {
        None
    }
}

/// The punctuation token at `i`.
fn punct_token(s: &Vec<char>, i: usize) -> (r: Token)
    requires
        i < s.len(),
        is_punct(s@[i as int]),
        !is_digit(s@[i as int]),
        !is_letter(s@[i as int]),
        s@[i as int] != '-' && s@[i as int] != '"' && s@[i as int] != '/' && s@[i as int] != '<',
    ensures
        token_at(s@, i as int, i + 1) == Ok::<TokenV, Seq<char>>(r@),
{
    let c = s[i];
    if c == '[' {
        Token::LBracket
    } else if c == ']' {
        Token::RBracket
    } else if c == '{' {
        Token::LCurly
    } else if c == '}' {
        Token::RCurly
    } else if c == '(' {
        Token::LParens
    } else if c == ')' {
        Token::RParens
    } else if c == '=' {
        Token::Equals
    } else {
        Token::Semi
    }
}


/// The token that starts at `i`, if one does, with its end.
fn lex_at(s: &Vec<char>, i: usize) -> (r: Option<(Result<Token, String>, usize)>)
    requires
        i < s.len(),
    ensures
        r is None ==> lexeme_end(s@, i as int) is None,
        r matches Some((t, e)) ==> lexeme_end(s@, i as int) == Some(e as int) && i < e <= s.len()
            && scanned_view(t) == token_at(s@, i as int, e as int),
{
    let c = s[i];
    if is_digit_char(c) {
        let e = digits_end_exec(s, i + 1);
        Some((number_token(s, i, e), e))
    } else if c == '-' && i + 1 < s.len() && is_digit_char(s[i + 1]) {
        let e = digits_end_exec(s, i + 2);
        Some((number_token(s, i, e), e))
    } else if is_letter_char(c) {
        let e = ident_end_exec(s, i + 1);
        Some((word_token(s, i, e), e))
    } else if c == '"' {
        match string_close_exec(s, i + 1) {
            Some(j) => Some((string_token(s, i, j + 1), j + 1)),
            None => None,
        }
    } else if c == '/' {
        let e = path_end_exec(s, i + 1);
        Some((Ok(Token::Path(text_of(s, i, e))), e))
    } else {
        match marker_token(s, i) {
            Some((t, e)) => Some((Ok(t), e)),
            None => {
                if c == '[' || c == ']' || c == '{' || c == '}' || c == '(' || c == ')' || c == '='
                    || c == ';' {
                    Some((Ok(punct_token(s, i)), i + 1))
                } else {
                    None
                }
            },
        }
    }
}

/// The first token at or after `i`, with the position just past it.
fn scan_from(s: &Vec<char>, i: usize) -> (r: Option<(Result<Token, String>, usize)>)
    requires
        i <= s.len(),
    ensures
        match next_token(s@, i as int) {
            None => r is None,
            Some((t, e)) => r matches Some((u, f)) && scanned_view(u) == t && f == e && i < e
                <= s.len(),
        },
{
    let mut j = i;
    while j < s.len()
        invariant
            i <= j <= s.len(),
            next_lexeme(s@, i as int) == next_lexeme(s@, j as int),
        decreases s.len() - j,
    {
        match lex_at(s, j) {
            Some((t, e)) => {
                return Some((t, e));
            },
            None => {
                j = j + 1;
            },
        }
    }
    None
}

/// The characters of a string, in order.
pub(crate) fn chars_of(text: &str) -> (r: Vec<char>)
    ensures
        r@ == text@,
{
    broadcast use vstd::string::axiom_spec_iter;

    let mut v: Vec<char> = Vec::new();
    for c in it: text.chars()
        invariant
            v@ == it.seq().take(it.index() as int),
    {
        v.push(c);
    }
    v
}

/// A cursor over the tokens of one text, with one token of lookahead.
pub struct Tokens {
    chars: Vec<char>,
    pos: usize,
}

impl Tokens {
    /// The text being scanned.
    pub closed spec fn text(&self) -> Seq<char> {
        self.chars@
    }

    /// How far the cursor has read.
    pub closed spec fn position(&self) -> int {
        self.pos as int
    }

    pub open spec fn wf(&self) -> bool {
        0 <= self.position() <= self.text().len()
    }

    /// A cursor at the start of `text`.
    pub fn new(text: &str) -> (r: Tokens)
        ensures
            r.text() == text@,
            r.position() == 0,
            r.wf(),
    {
        Tokens { chars: chars_of(text), pos: 0 }
    }

    /// The next token, without consuming it.
    pub fn peek(&self) -> (r: Option<Result<Token, String>>)
        requires
            self.wf(),
        ensures
            match next_token(self.text(), self.position()) {
                None => r is None,
                Some((t, _)) => r matches Some(u) && scanned_view(u) == t,
            },
    {
        match scan_from(&self.chars, self.pos) {
            Some((t, _)) => Some(t),
            None => None,
        }
    }

    /// Consumes and returns the next token.
    pub fn next(&mut self) -> (r: Option<Result<Token, String>>)
        requires
            old(self).wf(),
        ensures
            final(self).text() == old(self).text(),
            final(self).wf(),
            match next_token(old(self).text(), old(self).position()) {
                None => r is None && final(self).position() == old(self).position(),
                Some((t, e)) => r matches Some(u) && scanned_view(u) == t && final(self).position()
                    == e && old(self).position() < e,
            },
    {
        match scan_from(&self.chars, self.pos) {
            Some((t, e)) => {
                self.pos = e;
                Some(t)
            },
            None => None,
        }
    }
}

} // verus!
