//! The value model and the recursive-descent parser over the token stream.

use vstd::prelude::*;
use crate::lexer::{
    Token, TokenV, Tokens, next_token, scanned_view, begins_no_token, lemma_skips_unknown,
    lemma_lexeme_in_bounds,
};

verus! {

/// A parsed value as a mathematical value. A map is a sequence of entries
/// in the order in which their keys first appeared.
pub enum ValueV {
    Null,
    Function,
    Unevaluated,
    Derivation(Seq<char>),
    Bool(bool),
    Number(i64),
    Str(Seq<char>),
    Path(Seq<char>),
    List(Seq<ValueV>),
    AttrSet(Seq<(Seq<char>, ValueV)>),
}

/// The values that can be read back from the evaluator's output. Two values
/// are equal when they are equal as trees, attribute sets compared as
/// mappings, whatever the order of their entries.
#[derive(Debug)]
pub enum Value {
    /// The singleton null value.
    Null,
    /// A function, which is not inspected further: both `<LAMBDA>` and
    /// `<PRIMOP>`.
    Function,
    /// Code that the evaluator did not force: both `<CODE>` and `<CYCLE>`.
    Unevaluated,
    /// A derivation, for now only by its path.
    Derivation(String),
    Bool(bool),
    Number(i64),
    String(String),
    Path(String),
    List(Vec<Value>),
    /// Keys are unique; entries keep the order in which keys first came.
    AttrSet(Vec<(String, Value)>),
}

/// The model of a value.
pub open spec fn value_model(v: Value) -> ValueV
    decreases v,
{
    match v {
        Value::Null => ValueV::Null,
        Value::Function => ValueV::Function,
        Value::Unevaluated => ValueV::Unevaluated,
        Value::Derivation(d) => ValueV::Derivation(d@),
        Value::Bool(b) => ValueV::Bool(b),
        Value::Number(n) => ValueV::Number(n),
        Value::String(s) => ValueV::Str(s@),
        Value::Path(p) => ValueV::Path(p@),
        Value::List(items) => ValueV::List(views(items@)),
        Value::AttrSet(entries) => ValueV::AttrSet(entry_views(entries@)),
    }
}

/// The models of a sequence of values.
pub open spec fn views(s: Seq<Value>) -> Seq<ValueV>
    decreases s,
{
    if s.len() == 0 {
        Seq::empty()
    } else {
        views(s.subrange(0, s.len() - 1)).push(value_model(s[s.len() - 1]))
    }
}

/// The models of a sequence of entries.
pub open spec fn entry_views(s: Seq<(String, Value)>) -> Seq<(Seq<char>, ValueV)>
    decreases s,
{
    if s.len() == 0 {
        Seq::empty()
    } else {
        entry_views(s.subrange(0, s.len() - 1)).push(
            (s[s.len() - 1].0@, value_model(s[s.len() - 1].1)),
        )
    }
}

impl View for Value {
    type V = ValueV;

    open spec fn view(&self) -> ValueV {
        value_model(*self)
    }
}


/// Equality of values, attribute sets compared as mappings: as many
/// entries on each side, each entry of the first matched by key and value in
/// the second.
pub open spec fn value_eq(a: ValueV, b: ValueV) -> bool
    decreases a, 0nat,
{
    match (a, b) {
        (ValueV::List(xs), ValueV::List(ys)) => items_eq(xs, ys),
        (ValueV::AttrSet(m1), ValueV::AttrSet(m2)) => m1.len() == m2.len() && entries_in(m1, m2),
        (ValueV::List(_), _) => false,
        (ValueV::AttrSet(_), _) => false,
        _ => a == b,
    }
}

/// Element-wise equality of two lists.
pub open spec fn items_eq(xs: Seq<ValueV>, ys: Seq<ValueV>) -> bool
    decreases xs, 0nat,
{
    if xs.len() == 0 {
        ys.len() == 0
    } else {
        ys.len() == xs.len() && items_eq(xs.subrange(0, xs.len() - 1), ys.subrange(0, ys.len() - 1))
            && value_eq(xs[xs.len() - 1], ys[ys.len() - 1])
    }
}

/// Every entry of `m1` is matched, by key and value, in `m2`.
pub open spec fn entries_in(m1: Seq<(Seq<char>, ValueV)>, m2: Seq<(Seq<char>, ValueV)>) -> bool
    decreases m1, 0nat,
{
    if m1.len() == 0 {
        true
    } else {
        entries_in(m1.subrange(0, m1.len() - 1), m2) && found_in(
            m1[m1.len() - 1].0,
            m1[m1.len() - 1].1,
            m2,
        )
    }
}

/// Some entry of `m` has key `k` and a value equal to `v`.
pub open spec fn found_in(k: Seq<char>, v: ValueV, m: Seq<(Seq<char>, ValueV)>) -> bool
    decreases v, m.len(),
{
    if m.len() == 0 {
        false
    } else {
        found_in(k, v, m.subrange(0, m.len() - 1)) || (m[m.len() - 1].0 == k && value_eq(
            v,
            m[m.len() - 1].1,
        ))
    }
}

pub(crate) proof fn lemma_items_eq(xs: Seq<ValueV>, ys: Seq<ValueV>)
    ensures
        items_eq(xs, ys) == (xs.len() == ys.len() && forall|i: int|
            0 <= i < xs.len() ==> value_eq(#[trigger] xs[i], ys[i])),
    decreases xs.len(),
{
    if xs.len() > 0 && ys.len() == xs.len() {
        let p = xs.subrange(0, xs.len() - 1);
        let q = ys.subrange(0, ys.len() - 1);
        lemma_items_eq(p, q);
        assert forall|i: int| 0 <= i < p.len() implies p[i] == xs[i] && q[i] == ys[i] by {}
        if items_eq(xs, ys) {
            assert forall|i: int| 0 <= i < xs.len() implies value_eq(#[trigger] xs[i], ys[i]) by {
                if i < p.len() {
                    assert(value_eq(p[i], q[i]));
                }
            }
        }
    }
}

pub(crate) proof fn lemma_entries_in(m1: Seq<(Seq<char>, ValueV)>, m2: Seq<(Seq<char>, ValueV)>)
    ensures
        entries_in(m1, m2) == forall|i: int| 0 <= i < m1.len() ==> found_in(#[trigger] m1[i].0, m1[i].1, m2),
    decreases m1.len(),
{
    if m1.len() > 0 {
        let p = m1.subrange(0, m1.len() - 1);
        lemma_entries_in(p, m2);
        assert forall|i: int| 0 <= i < p.len() implies p[i] == m1[i] by {}
        if entries_in(m1, m2) {
            assert forall|i: int| 0 <= i < m1.len() implies found_in(#[trigger] m1[i].0, m1[i].1, m2) by {
                if i < p.len() {
                    assert(found_in(p[i].0, p[i].1, m2));
                }
            }
        }
    }
}

pub(crate) proof fn lemma_found_in(k: Seq<char>, v: ValueV, m: Seq<(Seq<char>, ValueV)>)
    ensures
        found_in(k, v, m) == exists|j: int| 0 <= j < m.len() && #[trigger] m[j].0 == k && value_eq(v, m[j].1),
    decreases m.len(),
{
    if m.len() > 0 {
        let p = m.subrange(0, m.len() - 1);
        lemma_found_in(k, v, p);
        assert forall|j: int| 0 <= j < p.len() implies p[j] == m[j] by {}
        if found_in(k, v, p) {
            let j = choose|j: int| 0 <= j < p.len() && #[trigger] p[j].0 == k && value_eq(v, p[j].1);
            assert(m[j].0 == k);
        }
    }
}

impl PartialEq for Value {
    fn eq(&self, other: &Value) -> (r: bool)
        ensures
            r == value_eq(self@, other@),
        decreases self,
    {
        match (self, other) {
            (Value::List(xs), Value::List(ys)) => {
                proof {
                    lemma_views(xs@);
                    lemma_views(ys@);
                    lemma_items_eq(views(xs@), views(ys@));
                }
                if xs.len() != ys.len() {
                    return false;
                }
                let mut i: usize = 0;
                while i < xs.len()
                    invariant
                        *self == Value::List(*xs),
                        *other == Value::List(*ys),
                        xs.len() == ys.len(),
                        i <= xs.len(),
                        views(xs@).len() == xs.len(),
                        views(ys@).len() == ys.len(),
                        forall|j: int| 0 <= j < xs.len() ==> #[trigger] views(xs@)[j] == xs@[j]@,
                        forall|j: int| 0 <= j < ys.len() ==> #[trigger] views(ys@)[j] == ys@[j]@,
                        forall|j: int| 0 <= j < i ==> value_eq(#[trigger] views(xs@)[j], views(ys@)[j]),
                    decreases xs.len() - i,
                {
                    proof {
                        assert(decreases_to!(*self => (*self)->List_0));
                    }
                    if !xs[i].eq(&ys[i]) {
                        proof {
                            lemma_items_eq(views(xs@), views(ys@));
                            assert(!value_eq(views(xs@)[i as int], views(ys@)[i as int]));
                        }
                        return false;
                    }
                    i = i + 1;
                }
                true
            },
            (Value::AttrSet(m1), Value::AttrSet(m2)) => {
                proof {
                    lemma_entry_views(m1@);
                    lemma_entry_views(m2@);
                    lemma_entries_in(entry_views(m1@), entry_views(m2@));
                }
                if m1.len() != m2.len() {
                    return false;
                }
                let mut i: usize = 0;
                while i < m1.len()
                    invariant
                        *self == Value::AttrSet(*m1),
                        *other == Value::AttrSet(*m2),
                        i <= m1.len(),
                        entry_views(m1@).len() == m1.len(),
                        entry_views(m2@).len() == m2.len(),
                        forall|j: int| 0 <= j < m1.len() ==> #[trigger] entry_views(m1@)[j] == (m1@[j].0@, m1@[j].1@),
                        forall|j: int| 0 <= j < m2.len() ==> #[trigger] entry_views(m2@)[j] == (m2@[j].0@, m2@[j].1@),
                        forall|j: int|
                            0 <= j < i ==> found_in(
                                #[trigger] entry_views(m1@)[j].0,
                                entry_views(m1@)[j].1,
                                entry_views(m2@),
                            ),
                    decreases m1.len() - i,
                {
                    proof {
                        lemma_found_in(m1@[i as int].0@, m1@[i as int].1@, entry_views(m2@));
                    }
                    let mut found = false;
                    let mut j: usize = 0;
                    while j < m2.len() && !found
                        invariant
                            *self == Value::AttrSet(*m1),
                            i < m1.len(),
                            j <= m2.len(),
                            entry_views(m2@).len() == m2.len(),
                            forall|t: int| 0 <= t < m2.len() ==> #[trigger] entry_views(m2@)[t] == (m2@[t].0@, m2@[t].1@),
                            found ==> found_in(m1@[i as int].0@, m1@[i as int].1@, entry_views(m2@)),
                            !found ==> forall|t: int| 0 <= t < j ==> !(#[trigger] m2@[t].0@ == m1@[i as int].0@
                                && value_eq(m1@[i as int].1@, m2@[t].1@)),
                            found_in(m1@[i as int].0@, m1@[i as int].1@, entry_views(m2@)) == exists|t: int|
                                0 <= t < m2.len() && #[trigger] entry_views(m2@)[t].0 == m1@[i as int].0@
                                && value_eq(m1@[i as int].1@, entry_views(m2@)[t].1),
                        decreases m2.len() - j,
                    {
                        proof {
                            assert(decreases_to!(*self => (*self)->AttrSet_0));
                            assert(decreases_to!(*m1 => m1@[i as int]));
                        }
                        if m1[i].0 == m2[j].0 && m1[i].1.eq(&m2[j].1) {
                            assert(entry_views(m2@)[j as int].0 == m1@[i as int].0@);
                            found = true;
                        }
                        j = j + 1;
                    }
                    if !found {
                        proof {
                            if found_in(m1@[i as int].0@, m1@[i as int].1@, entry_views(m2@)) {
                                let t = choose|t: int|
                                    0 <= t < m2.len() && #[trigger] entry_views(m2@)[t].0 == m1@[i as int].0@
                                        && value_eq(m1@[i as int].1@, entry_views(m2@)[t].1);
                                assert(m2@[t].0@ == m1@[i as int].0@);
                            }
                            lemma_entries_in(entry_views(m1@), entry_views(m2@));
                            assert(!found_in(
                                entry_views(m1@)[i as int].0,
                                entry_views(m1@)[i as int].1,
                                entry_views(m2@),
                            ));
                        }
                        return false;
                    }
                    i = i + 1;
                }
                true
            },
            (Value::Null, Value::Null) => true,
            (Value::Function, Value::Function) => true,
            (Value::Unevaluated, Value::Unevaluated) => true,
            (Value::Derivation(a), Value::Derivation(b)) => *a == *b,
            (Value::Bool(a), Value::Bool(b)) => *a == *b,
            (Value::Number(a), Value::Number(b)) => *a == *b,
            (Value::String(a), Value::String(b)) => *a == *b,
            (Value::Path(a), Value::Path(b)) => *a == *b,
            _ => false,
        }
    }
}

impl vstd::std_specs::cmp::PartialEqSpecImpl for Value {
    open spec fn obeys_eq_spec() -> bool {
        true
    }

    open spec fn eq_spec(&self, other: &Value) -> bool {
        value_eq(self@, other@)
    }
}

/// A parse failure as a mathematical value.
pub enum ParseErrorV {
    UnexpectedEndOfInput,
    UnexpectedToken(TokenV),
    InvalidLiteral(Seq<char>),
}

/// Why the evaluator's output could not be parsed.
#[derive(Debug, PartialEq)]
pub enum ParseError {
    /// A token was required and the input ended.
    UnexpectedEndOfInput,
    /// The token present does not fit where it stands.
    UnexpectedToken(Token),
    /// A literal that denotes no value: an integer out of range, or a string
    /// with an invalid escape. Holds the literal's text.
    InvalidLiteral(String),
}

impl View for ParseError {
    type V = ParseErrorV;

    open spec fn view(&self) -> ParseErrorV {
        match self {
            ParseError::UnexpectedEndOfInput => ParseErrorV::UnexpectedEndOfInput,
            ParseError::UnexpectedToken(t) => ParseErrorV::UnexpectedToken(t@),
            ParseError::InvalidLiteral(s) => ParseErrorV::InvalidLiteral(s@),
        }
    }
}

pub(crate) proof fn lemma_views(s: Seq<Value>)
    ensures
        views(s).len() == s.len(),
        forall|i: int| 0 <= i < s.len() ==> #[trigger] views(s)[i] == s[i]@,
    decreases s.len(),
{
    if s.len() > 0 {
        lemma_views(s.subrange(0, s.len() - 1));
    }
}

pub(crate) proof fn lemma_entry_views(s: Seq<(String, Value)>)
    ensures
        entry_views(s).len() == s.len(),
        forall|i: int| 0 <= i < s.len() ==> #[trigger] entry_views(s)[i] == (s[i].0@, s[i].1@),
    decreases s.len(),
{
    if s.len() > 0 {
        lemma_entry_views(s.subrange(0, s.len() - 1));
    }
}

/// The first index at or after `i` whose entry has key `k`, or the length.
pub open spec fn key_index_from(m: Seq<(Seq<char>, ValueV)>, k: Seq<char>, i: int) -> int
    decreases m.len() - i,
{
    if 0 <= i < m.len() {
        if m[i].0 == k {
            i
        } else {
            key_index_from(m, k, i + 1)
        }
    } else {
        m.len() as int
    }
}

/// Binds `k` to `v`: an existing entry for `k` is overwritten in place, else
/// the entry is appended.
pub open spec fn entries_insert(m: Seq<(Seq<char>, ValueV)>, k: Seq<char>, v: ValueV) -> Seq<
    (Seq<char>, ValueV),
> {
    let j = key_index_from(m, k, 0);
    if j < m.len() {
        m.update(j, (k, v))
    } else {
        m.push((k, v))
    }
}

/// The value that starts at token position `pos` of `s`, and where it ends.
pub open spec fn parse_value_at(s: Seq<char>, pos: int) -> Result<(ValueV, int), ParseErrorV>
    decreases s.len() - pos, 0int,
{
    match next_token(s, pos) {
        None => Err(ParseErrorV::UnexpectedEndOfInput),
        Some((Err(t), _)) => Err(ParseErrorV::InvalidLiteral(t)),
        Some((Ok(tok), e)) => match tok {
            TokenV::Null => Ok((ValueV::Null, e)),
            TokenV::Bool(b) => Ok((ValueV::Bool(b), e)),
            TokenV::Number(n) => Ok((ValueV::Number(n), e)),
            TokenV::Str(x) => Ok((ValueV::Str(x), e)),
            TokenV::Path(p) => Ok((ValueV::Path(p), e)),
            TokenV::Code => Ok((ValueV::Unevaluated, e)),
            TokenV::Cycle => Ok((ValueV::Unevaluated, e)),
            TokenV::Lambda => Ok((ValueV::Function, e)),
            TokenV::Primop => Ok((ValueV::Function, e)),
            TokenV::LBracket => if pos < e <= s.len() {
                parse_list_at(s, e, Seq::empty())
            } else {
                Err(ParseErrorV::UnexpectedEndOfInput)
            },
            TokenV::LCurly => if pos < e <= s.len() {
                parse_set_at(s, e, Seq::empty())
            } else {
                Err(ParseErrorV::UnexpectedEndOfInput)
            },
            _ => Err(ParseErrorV::UnexpectedToken(tok)),
        },
    }
}

/// The rest of a list whose first elements were `items`, from `pos` on.
pub open spec fn parse_list_at(s: Seq<char>, pos: int, items: Seq<ValueV>) -> Result<
    (ValueV, int),
    ParseErrorV,
>
    decreases s.len() - pos, 1int,
{
    match next_token(s, pos) {
        Some((Ok(TokenV::RBracket), e)) => Ok((ValueV::List(items), e)),
        _ => match parse_value_at(s, pos) {
            Err(err) => Err(err),
            Ok((v, e)) => if pos < e <= s.len() {
                parse_list_at(s, e, items.push(v))
            } else {
                Err(ParseErrorV::UnexpectedEndOfInput)
            },
        },
    }
}

/// The rest of an attribute set whose first bindings were `entries`, from
/// `pos` on: `name = value ;` until the closing brace.
pub open spec fn parse_set_at(s: Seq<char>, pos: int, entries: Seq<(Seq<char>, ValueV)>) -> Result<
    (ValueV, int),
    ParseErrorV,
>
    decreases s.len() - pos, 1int,
{
    match next_token(s, pos) {
        None => Err(ParseErrorV::UnexpectedEndOfInput),
        Some((Err(t), _)) => Err(ParseErrorV::InvalidLiteral(t)),
        Some((Ok(TokenV::RCurly), e)) => Ok((ValueV::AttrSet(entries), e)),
        Some((Ok(TokenV::Ident(k)), e1)) => match next_token(s, e1) {
            None => Err(ParseErrorV::UnexpectedEndOfInput),
            Some((Err(t), _)) => Err(ParseErrorV::InvalidLiteral(t)),
            Some((Ok(TokenV::Equals), e2)) => if pos < e2 <= s.len() {
                match parse_value_at(s, e2) {
                    Err(err) => Err(err),
                    Ok((v, e3)) => match next_token(s, e3) {
                        None => Err(ParseErrorV::UnexpectedEndOfInput),
                        Some((Err(t), _)) => Err(ParseErrorV::InvalidLiteral(t)),
                        Some((Ok(TokenV::Semi), e4)) => if pos < e4 <= s.len() {
                            parse_set_at(s, e4, entries_insert(entries, k, v))
                        } else {
                            Err(ParseErrorV::UnexpectedEndOfInput)
                        },
                        Some((Ok(other), _)) => Err(ParseErrorV::UnexpectedToken(other)),
                    },
                }
            } else {
                Err(ParseErrorV::UnexpectedEndOfInput)
            },
            Some((Ok(other), _)) => Err(ParseErrorV::UnexpectedToken(other)),
        },
        Some((Ok(other), _)) => Err(ParseErrorV::UnexpectedToken(other)),
    }
}

/// The value that a whole text parses to: the first value in it; what
/// follows that value is not read.
pub open spec fn parse_text(s: Seq<char>) -> Result<ValueV, ParseErrorV> {
    match parse_value_at(s, 0) {
        Ok((v, _)) => Ok(v),
        Err(e) => Err(e),
    }
}

/// `r` is what `expected` describes, the cursor standing at `end`.
pub open spec fn parsed(
    r: Result<Value, ParseError>,
    end: int,
    expected: Result<(ValueV, int), ParseErrorV>,
) -> bool {
    match expected {
        Ok((v, e)) => r matches Ok(x) && x@ == v && end == e,
        Err(err) => r matches Err(x) && x@ == err,
    }
}

pub open spec fn result_view(r: Result<Value, ParseError>) -> Result<ValueV, ParseErrorV> {
    match r {
        Ok(v) => Ok(v@),
        Err(e) => Err(e@),
    }
}


/// Every successful parse consumes at least one token and ends within the
/// text.
pub proof fn lemma_parse_advances(s: Seq<char>, pos: int)
    ensures
        parse_value_at(s, pos) matches Ok((_, e)) ==> pos < e <= s.len(),
    decreases s.len() - pos, 0int,
{
    lemma_lexeme_in_bounds(s, pos);
    match next_token(s, pos) {
        Some((Ok(TokenV::LBracket), e)) => {
            if pos < e <= s.len() {
                lemma_list_advances(s, e, Seq::empty());
            }
        },
        Some((Ok(TokenV::LCurly), e)) => {
            if pos < e <= s.len() {
                lemma_set_advances(s, e, Seq::empty());
            }
        },
        _ => {},
    }
}

proof fn lemma_list_advances(s: Seq<char>, pos: int, items: Seq<ValueV>)
    ensures
        parse_list_at(s, pos, items) matches Ok((_, e)) ==> pos < e <= s.len(),
    decreases s.len() - pos, 1int,
{
    lemma_lexeme_in_bounds(s, pos);
    match next_token(s, pos) {
        Some((Ok(TokenV::RBracket), e)) => {},
        _ => {
            lemma_parse_advances(s, pos);
            if let Ok((v, e)) = parse_value_at(s, pos) {
                if pos < e <= s.len() {
                    lemma_list_advances(s, e, items.push(v));
                }
            }
        },
    }
}

proof fn lemma_set_advances(s: Seq<char>, pos: int, entries: Seq<(Seq<char>, ValueV)>)
    ensures
        parse_set_at(s, pos, entries) matches Ok((_, e)) ==> pos < e <= s.len(),
    decreases s.len() - pos, 1int,
{
    lemma_lexeme_in_bounds(s, pos);
    if let Some((Ok(TokenV::Ident(k)), e1)) = next_token(s, pos) {
        if let Some((Ok(TokenV::Equals), e2)) = next_token(s, e1) {
            if pos < e2 <= s.len() {
                if let Ok((v, e3)) = parse_value_at(s, e2) {
                    if let Some((Ok(TokenV::Semi), e4)) = next_token(s, e3) {
                        if pos < e4 <= s.len() {
                            lemma_set_advances(s, e4, entries_insert(entries, k, v));
                        }
                    }
                }
            }
        }
    }
}

/// Characters that begin no token never change what is parsed, wherever
/// they stand: before a value, inside a list, or inside an attribute set.
pub proof fn lemma_unknown_chars_ignored(
    s: Seq<char>,
    i: int,
    items: Seq<ValueV>,
    entries: Seq<(Seq<char>, ValueV)>,
)
    requires
        0 <= i < s.len(),
        begins_no_token(s[i]),
    ensures
        parse_value_at(s, i) == parse_value_at(s, i + 1),
        parse_list_at(s, i, items) == parse_list_at(s, i + 1, items),
        parse_set_at(s, i, entries) == parse_set_at(s, i + 1, entries),
{
    lemma_skips_unknown(s, i);
    lemma_lexeme_in_bounds(s, i + 1);
    assert(parse_value_at(s, i) == parse_value_at(s, i + 1));
    lemma_parse_advances(s, i + 1);
    if let Some((Ok(TokenV::Ident(k)), e1)) = next_token(s, i + 1) {
        lemma_lexeme_in_bounds(s, e1);
        if let Some((Ok(TokenV::Equals), e2)) = next_token(s, e1) {
            lemma_parse_advances(s, e2);
            if let Ok((v, e3)) = parse_value_at(s, e2) {
                lemma_lexeme_in_bounds(s, e3);
            }
        }
    }
}

/// The deferred-code markers read as `Unevaluated` and the function markers
/// as `Function`, consuming that one token and nothing more.
pub proof fn lemma_markers_terminal(s: Seq<char>, pos: int)
    ensures
        next_token(s, pos) matches Some((Ok(TokenV::Code), e)) ==> parse_value_at(s, pos) == Ok::<
            (ValueV, int),
            ParseErrorV,
        >((ValueV::Unevaluated, e)),
        next_token(s, pos) matches Some((Ok(TokenV::Cycle), e)) ==> parse_value_at(s, pos) == Ok::<
            (ValueV, int),
            ParseErrorV,
        >((ValueV::Unevaluated, e)),
        next_token(s, pos) matches Some((Ok(TokenV::Lambda), e)) ==> parse_value_at(s, pos) == Ok::<
            (ValueV, int),
            ParseErrorV,
        >((ValueV::Function, e)),
        next_token(s, pos) matches Some((Ok(TokenV::Primop), e)) ==> parse_value_at(s, pos) == Ok::<
            (ValueV, int),
            ParseErrorV,
        >((ValueV::Function, e)),
{
}

/// When no token is left, a value, the rest of a list and the rest of an
/// attribute set all fail with `UnexpectedEndOfInput`; no partial value is
/// returned.
pub proof fn lemma_end_of_input(
    s: Seq<char>,
    pos: int,
    items: Seq<ValueV>,
    entries: Seq<(Seq<char>, ValueV)>,
)
    requires
        next_token(s, pos) is None,
    ensures
        parse_value_at(s, pos) == Err::<(ValueV, int), ParseErrorV>(ParseErrorV::UnexpectedEndOfInput),
        parse_list_at(s, pos, items) == Err::<(ValueV, int), ParseErrorV>(
            ParseErrorV::UnexpectedEndOfInput,
        ),
        parse_set_at(s, pos, entries) == Err::<(ValueV, int), ParseErrorV>(
            ParseErrorV::UnexpectedEndOfInput,
        ),
{
}

/// In an attribute set, a name followed by any token other than `=` fails
/// with that token.
pub proof fn lemma_binding_needs_equals(
    s: Seq<char>,
    pos: int,
    entries: Seq<(Seq<char>, ValueV)>,
    k: Seq<char>,
    e1: int,
    t: TokenV,
)
    requires
        next_token(s, pos) == Some::<(Result<TokenV, Seq<char>>, int)>((Ok(TokenV::Ident(k)), e1)),
        next_token(s, e1) matches Some((Ok(u), _)) && u == t,
        t != TokenV::Equals,
    ensures
        parse_set_at(s, pos, entries) == Err::<(ValueV, int), ParseErrorV>(
            ParseErrorV::UnexpectedToken(t),
        ),
{
}

/// One binding `k = v ;` of an attribute set binds `k` to `v` over the
/// bindings before it, the last binding of a name winning, and parsing goes
/// on after the `;`.
pub proof fn lemma_binding_step(
    s: Seq<char>,
    pos: int,
    entries: Seq<(Seq<char>, ValueV)>,
    k: Seq<char>,
    e1: int,
    e2: int,
    v: ValueV,
    e3: int,
    e4: int,
)
    requires
        next_token(s, pos) == Some::<(Result<TokenV, Seq<char>>, int)>((Ok(TokenV::Ident(k)), e1)),
        next_token(s, e1) == Some::<(Result<TokenV, Seq<char>>, int)>((Ok(TokenV::Equals), e2)),
        parse_value_at(s, e2) == Ok::<(ValueV, int), ParseErrorV>((v, e3)),
        next_token(s, e3) == Some::<(Result<TokenV, Seq<char>>, int)>((Ok(TokenV::Semi), e4)),
    ensures
        parse_set_at(s, pos, entries) == parse_set_at(s, e4, entries_insert(entries, k, v)),
{
    lemma_lexeme_in_bounds(s, pos);
    lemma_lexeme_in_bounds(s, e1);
    lemma_parse_advances(s, e2);
    lemma_lexeme_in_bounds(s, e3);
}

/// No two entries share a key.
pub open spec fn keys_unique(m: Seq<(Seq<char>, ValueV)>) -> bool {
    forall|a: int, b: int| 0 <= a < b < m.len() ==> m[a].0 != m[b].0
}

proof fn lemma_key_index(m: Seq<(Seq<char>, ValueV)>, k: Seq<char>, i: int)
    requires
        0 <= i <= m.len(),
    ensures
        i <= key_index_from(m, k, i) <= m.len(),
        key_index_from(m, k, i) < m.len() ==> m[key_index_from(m, k, i)].0 == k,
        forall|j: int| i <= j < key_index_from(m, k, i) ==> m[j].0 != k,
    decreases m.len() - i,
{
    if i < m.len() {
        lemma_key_index(m, k, i + 1);
    }
}

/// Binding a name keeps the keys of an attribute set unique, and the last
/// value bound to a name is the one it keeps; other bindings are untouched.
pub proof fn lemma_insert_last_wins(m: Seq<(Seq<char>, ValueV)>, k: Seq<char>, v: ValueV)
    requires
        keys_unique(m),
    ensures
        keys_unique(entries_insert(m, k, v)),
        exists|j: int|
            0 <= j < entries_insert(m, k, v).len() && #[trigger] entries_insert(m, k, v)[j] == (k, v),
        forall|j: int| 0 <= j < m.len() && m[j].0 != k ==> #[trigger] entries_insert(m, k, v)[j] == m[j],
        forall|j: int|
            0 <= j < entries_insert(m, k, v).len() ==> #[trigger] entries_insert(m, k, v)[j] == (k, v)
                || (j < m.len() && entries_insert(m, k, v)[j] == m[j]),
        entries_insert(m, k, v).len() == if key_index_from(m, k, 0) < m.len() {
            m.len()
        } else {
            m.len() + 1
        },
{
    lemma_key_index(m, k, 0);
    let j = key_index_from(m, k, 0);
    let r = entries_insert(m, k, v);
    if j < m.len() {
        assert(r[j] == (k, v));
    } else {
        assert(r[m.len() as int] == (k, v));
    }
}

/// Whether every attribute set within a value has unique keys.
pub open spec fn well_formed(v: ValueV) -> bool
    decreases v,
{
    match v {
        ValueV::List(items) => items_well_formed(items),
        ValueV::AttrSet(entries) => keys_unique(entries) && entries_well_formed(entries),
        _ => true,
    }
}

pub open spec fn items_well_formed(s: Seq<ValueV>) -> bool
    decreases s,
{
    if s.len() == 0 {
        true
    } else {
        items_well_formed(s.subrange(0, s.len() - 1)) && well_formed(s[s.len() - 1])
    }
}

pub open spec fn entries_well_formed(s: Seq<(Seq<char>, ValueV)>) -> bool
    decreases s,
{
    if s.len() == 0 {
        true
    } else {
        entries_well_formed(s.subrange(0, s.len() - 1)) && well_formed(s[s.len() - 1].1)
    }
}

proof fn lemma_items_well_formed(s: Seq<ValueV>)
    ensures
        items_well_formed(s) == forall|i: int| 0 <= i < s.len() ==> well_formed(#[trigger] s[i]),
    decreases s.len(),
{
    if s.len() > 0 {
        let p = s.subrange(0, s.len() - 1);
        lemma_items_well_formed(p);
        assert forall|i: int| 0 <= i < p.len() implies p[i] == s[i] by {}
        if items_well_formed(s) {
            assert forall|i: int| 0 <= i < s.len() implies well_formed(#[trigger] s[i]) by {
                if i < p.len() {
                    assert(well_formed(p[i]));
                }
            }
        }
    }
}

proof fn lemma_entries_well_formed(s: Seq<(Seq<char>, ValueV)>)
    ensures
        entries_well_formed(s) == forall|i: int| 0 <= i < s.len() ==> well_formed(#[trigger] s[i].1),
    decreases s.len(),
{
    if s.len() > 0 {
        let p = s.subrange(0, s.len() - 1);
        lemma_entries_well_formed(p);
        assert forall|i: int| 0 <= i < p.len() implies p[i] == s[i] by {}
        if entries_well_formed(s) {
            assert forall|i: int| 0 <= i < s.len() implies well_formed(#[trigger] s[i].1) by {
                if i < p.len() {
                    assert(well_formed(p[i].1));
                }
            }
        }
    }
}

/// Every value that parsing yields is well formed: within each attribute
/// set no key appears twice.
pub proof fn lemma_parsed_keys_unique(s: Seq<char>, pos: int)
    ensures
        parse_value_at(s, pos) matches Ok((v, _)) ==> well_formed(v),
    decreases s.len() - pos, 0int,
{
    match next_token(s, pos) {
        Some((Ok(TokenV::LBracket), e)) => {
            if pos < e <= s.len() {
                lemma_items_well_formed(Seq::empty());
                lemma_list_well_formed(s, e, Seq::empty());
            }
        },
        Some((Ok(TokenV::LCurly), e)) => {
            if pos < e <= s.len() {
                lemma_entries_well_formed(Seq::empty());
                lemma_set_well_formed(s, e, Seq::empty());
            }
        },
        _ => {},
    }
}

proof fn lemma_list_well_formed(s: Seq<char>, pos: int, items: Seq<ValueV>)
    requires
        items_well_formed(items),
    ensures
        parse_list_at(s, pos, items) matches Ok((v, _)) ==> well_formed(v),
    decreases s.len() - pos, 1int,
{
    match next_token(s, pos) {
        Some((Ok(TokenV::RBracket), e)) => {},
        _ => {
            lemma_parsed_keys_unique(s, pos);
            if let Ok((v, e)) = parse_value_at(s, pos) {
                if pos < e <= s.len() {
                    assert(items.push(v).subrange(0, items.len() as int) =~= items);
                    lemma_list_well_formed(s, e, items.push(v));
                }
            }
        },
    }
}

proof fn lemma_set_well_formed(s: Seq<char>, pos: int, entries: Seq<(Seq<char>, ValueV)>)
    requires
        keys_unique(entries),
        entries_well_formed(entries),
    ensures
        parse_set_at(s, pos, entries) matches Ok((v, _)) ==> well_formed(v),
    decreases s.len() - pos, 1int,
{
    if let Some((Ok(TokenV::Ident(k)), e1)) = next_token(s, pos) {
        if let Some((Ok(TokenV::Equals), e2)) = next_token(s, e1) {
            if pos < e2 <= s.len() {
                lemma_parsed_keys_unique(s, e2);
                if let Ok((v, e3)) = parse_value_at(s, e2) {
                    if let Some((Ok(TokenV::Semi), e4)) = next_token(s, e3) {
                        if pos < e4 <= s.len() {
                            let m = entries_insert(entries, k, v);
                            lemma_insert_last_wins(entries, k, v);
                            lemma_entries_well_formed(entries);
                            lemma_entries_well_formed(m);
                            lemma_set_well_formed(s, e4, m);
                        }
                    }
                }
            }
        }
    }
}

/// Binds `key` to `val` in `entries`, overwriting an existing binding.
fn insert_entry(entries: &mut Vec<(String, Value)>, key: String, val: Value)
    ensures
        entry_views(final(entries)@) == entries_insert(entry_views(old(entries)@), key@, val@),
{
    let ghost m = entry_views(entries@);
    let ghost k = key@;
    let ghost v = val@;
    proof {
        lemma_entry_views(entries@);
    }
    let mut i: usize = 0;
    while i < entries.len()
        invariant
            i <= entries.len(),
            m == entry_views(entries@),
            m == entry_views(old(entries)@),
            m.len() == entries.len(),
            forall|j: int| 0 <= j < entries.len() ==> #[trigger] m[j] == (entries@[j].0@, entries@[j].1@),
            k == key@,
            v == val@,
            key_index_from(m, k, 0) == key_index_from(m, k, i as int),
        decreases entries.len() - i,
    {
        if entries[i].0 == key {
            assert(m[i as int].0 == k);
            entries.set(i, (key, val));
            proof {
                lemma_entry_views(entries@);
            }
            assert(entry_views(entries@) =~= entries_insert(m, k, v));
            return;
        }
        i = i + 1;
    }
    entries.push((key, val));
    proof {
        lemma_entry_views(entries@);
    }
    assert(entry_views(entries@) =~= entries_insert(m, k, v));
}

fn is_rbracket(t: &Option<Result<Token, String>>) -> (r: bool)
    ensures
        r == (t matches Some(Ok(Token::RBracket))),
{
    match t {
        Some(Ok(Token::RBracket)) => true,
        _ => false,
    }
}

fn is_rcurly(t: &Option<Result<Token, String>>) -> (r: bool)
    ensures
        r == (t matches Some(Ok(Token::RCurly))),
{
    match t {
        Some(Ok(Token::RCurly)) => true,
        _ => false,
    }
}

/// Parses one value from the stream.
fn parse_value(tokens: &mut Tokens) -> (r: Result<Value, ParseError>)
    requires
        old(tokens).wf(),
    ensures
        final(tokens).wf(),
        final(tokens).text() == old(tokens).text(),
        parsed(r, final(tokens).position(), parse_value_at(old(tokens).text(), old(tokens).position())),
        r is Ok ==> final(tokens).position() > old(tokens).position(),
    decreases old(tokens).text().len() - old(tokens).position(), 0int,
{
    match tokens.next() {
        None => Err(ParseError::UnexpectedEndOfInput),
        Some(Err(text)) => Err(ParseError::InvalidLiteral(text)),
        Some(Ok(tok)) => match tok {
            Token::Null => Ok(Value::Null),
            Token::Bool(b) => Ok(Value::Bool(b)),
            Token::Number(n) => Ok(Value::Number(n)),
            Token::String(x) => Ok(Value::String(x)),
            Token::Path(p) => Ok(Value::Path(p)),
            Token::CODE => Ok(Value::Unevaluated),
            Token::CYCLE => Ok(Value::Unevaluated),
            Token::LAMBDA => Ok(Value::Function),
            Token::PRIMOP => Ok(Value::Function),
            Token::LBracket => parse_list(tokens),
            Token::LCurly => parse_set(tokens),
            t => Err(ParseError::UnexpectedToken(t)),
        },
    }
}

/// Parses the rest of a list, its opening bracket consumed.
fn parse_list(tokens: &mut Tokens) -> (r: Result<Value, ParseError>)
    requires
        old(tokens).wf(),
    ensures
        final(tokens).wf(),
        final(tokens).text() == old(tokens).text(),
        parsed(
            r,
            final(tokens).position(),
            parse_list_at(old(tokens).text(), old(tokens).position(), Seq::empty()),
        ),
        r is Ok ==> final(tokens).position() > old(tokens).position(),
    decreases old(tokens).text().len() - old(tokens).position(), 1int,
{
    let ghost s = tokens.text();
    let ghost start = tokens.position();
    let mut values: Vec<Value> = Vec::new();
    proof {
        assert(views(values@) =~= Seq::<ValueV>::empty());
    }
    loop
        invariant
            tokens.wf(),
            tokens.text() == s,
            s == old(tokens).text(),
            start == old(tokens).position(),
            start <= tokens.position(),
            parse_list_at(s, start, Seq::empty()) == parse_list_at(s, tokens.position(), views(values@)),
        decreases s.len() - tokens.position(),
    {
        let ahead = tokens.peek();
        if is_rbracket(&ahead) {
            let _ = tokens.next();
            return Ok(Value::List(values));
        }
        match parse_value(tokens) {
            Ok(v) => {
                proof {
                    assert(values@.push(v).subrange(0, values@.len() as int) =~= values@);
                }
                values.push(v);
            },
            Err(e) => {
                return Err(e);
            },
        }
    }
}

/// Parses the name of a binding.
fn parse_ident(tokens: &mut Tokens) -> (r: Result<String, ParseError>)
    requires
        old(tokens).wf(),
    ensures
        final(tokens).wf(),
        final(tokens).text() == old(tokens).text(),
        match next_token(old(tokens).text(), old(tokens).position()) {
            None => r matches Err(ParseError::UnexpectedEndOfInput),
            Some((Err(t), _)) => r matches Err(x) && x@ == ParseErrorV::InvalidLiteral(t),
            Some((Ok(TokenV::Ident(k)), e)) => r matches Ok(name) && name@ == k
                && final(tokens).position() == e && e > old(tokens).position(),
            Some((Ok(t), _)) => r matches Err(x) && x@ == ParseErrorV::UnexpectedToken(t),
        },
{
    match tokens.next() {
        Some(Ok(Token::Ident(name))) => Ok(name),
        Some(Ok(t)) => Err(ParseError::UnexpectedToken(t)),
        Some(Err(text)) => Err(ParseError::InvalidLiteral(text)),
        None => Err(ParseError::UnexpectedEndOfInput),
    }
}

/// Whether two tokens are the same token.
fn same_token(t: &Token, want: &Token) -> (r: bool)
    ensures
        r == (t@ == want@),
{
    match (t, want) {
        (Token::Null, Token::Null) => true,
        (Token::Bool(a), Token::Bool(b)) => *a == *b,
        (Token::String(a), Token::String(b)) => *a == *b,
        (Token::CODE, Token::CODE) => true,
        (Token::LAMBDA, Token::LAMBDA) => true,
        (Token::PRIMOP, Token::PRIMOP) => true,
        (Token::CYCLE, Token::CYCLE) => true,
        (Token::Equals, Token::Equals) => true,
        (Token::Semi, Token::Semi) => true,
        (Token::Number(a), Token::Number(b)) => *a == *b,
        (Token::LParens, Token::LParens) => true,
        (Token::RParens, Token::RParens) => true,
        (Token::LBracket, Token::LBracket) => true,
        (Token::RBracket, Token::RBracket) => true,
        (Token::LCurly, Token::LCurly) => true,
        (Token::RCurly, Token::RCurly) => true,
        (Token::Path(a), Token::Path(b)) => *a == *b,
        (Token::Ident(a), Token::Ident(b)) => *a == *b,
        _ => false,
    }
}

/// Consumes the token `want`; any other token is reported as found.
fn parse_token(tokens: &mut Tokens, want: Token) -> (r: Result<(), ParseError>)
    requires
        old(tokens).wf(),
    ensures
        final(tokens).wf(),
        final(tokens).text() == old(tokens).text(),
        match next_token(old(tokens).text(), old(tokens).position()) {
            None => r matches Err(ParseError::UnexpectedEndOfInput),
            Some((Err(t), _)) => r matches Err(x) && x@ == ParseErrorV::InvalidLiteral(t),
            Some((Ok(t), e)) => if t == want@ {
                r is Ok && final(tokens).position() == e && e > old(tokens).position()
            } else {
                r matches Err(x) && x@ == ParseErrorV::UnexpectedToken(t)
            },
        },
{
    match tokens.next() {
        Some(Ok(t)) => if same_token(&t, &want) {
            Ok(())
        } else {
            Err(ParseError::UnexpectedToken(t))
        },
        Some(Err(text)) => Err(ParseError::InvalidLiteral(text)),
        None => Err(ParseError::UnexpectedEndOfInput),
    }
}

/// Parses the rest of an attribute set, its opening brace consumed. A name
/// bound twice keeps the last value.
fn parse_set(tokens: &mut Tokens) -> (r: Result<Value, ParseError>)
    requires
        old(tokens).wf(),
    ensures
        final(tokens).wf(),
        final(tokens).text() == old(tokens).text(),
        parsed(
            r,
            final(tokens).position(),
            parse_set_at(old(tokens).text(), old(tokens).position(), Seq::empty()),
        ),
        r is Ok ==> final(tokens).position() > old(tokens).position(),
    decreases old(tokens).text().len() - old(tokens).position(), 1int,
{
    let ghost s = tokens.text();
    let ghost start = tokens.position();
    let mut entries: Vec<(String, Value)> = Vec::new();
    proof {
        assert(entry_views(entries@) =~= Seq::<(Seq<char>, ValueV)>::empty());
    }
    loop
        invariant
            tokens.wf(),
            tokens.text() == s,
            s == old(tokens).text(),
            start == old(tokens).position(),
            start <= tokens.position(),
            parse_set_at(s, start, Seq::empty()) == parse_set_at(s, tokens.position(), entry_views(entries@)),
        decreases s.len() - tokens.position(),
    {
        let ahead = tokens.peek();
        if is_rcurly(&ahead) {
            let _ = tokens.next();
            return Ok(Value::AttrSet(entries));
        }
        let ident = match parse_ident(tokens) {
            Ok(name) => name,
            Err(e) => {
                return Err(e);
            },
        };
        match parse_token(tokens, Token::Equals) {
            Ok(()) => {},
            Err(e) => {
                return Err(e);
            },
        }
        let val = match parse_value(tokens) {
            Ok(v) => v,
            Err(e) => {
                return Err(e);
            },
        };
        match parse_token(tokens, Token::Semi) {
            Ok(()) => {},
            Err(e) => {
                return Err(e);
            },
        }
        insert_entry(&mut entries, ident, val);
    }
}

/// Parses the output of `nix-instantiate --eval`: the first value in it.
pub fn parse_nix_instantiate(output: &str) -> (r: Result<Value, ParseError>)
    ensures
        result_view(r) == parse_text(output@),
        r matches Ok(v) ==> well_formed(v@),
{
    let mut tokens = Tokens::new(output);
    proof {
        lemma_parsed_keys_unique(output@, 0);
    }
    parse_value(&mut tokens)
}


/// What a byte string decodes to as UTF-8, if it is valid UTF-8.
pub uninterp spec fn utf8_text(b: Seq<u8>) -> Option<Seq<char>>;

/// What a byte string decodes to when each invalid UTF-8 sequence is
/// replaced by U+FFFD.
pub uninterp spec fn lossy_text(b: Seq<u8>) -> Seq<char>;

/// Relies on String::from_utf8: `Ok` exactly when the bytes are valid UTF-8.
#[verifier::external_body]
fn decode_utf8(b: Vec<u8>) -> (r: Option<String>)
    ensures
        r.is_some() == utf8_text(b@).is_some(),
        r.is_some() ==> r.unwrap()@ == utf8_text(b@).unwrap(),
{
    String::from_utf8(b).ok()
}

/// Relies on String::from_utf8_lossy, which replaces invalid sequences and
/// leaves valid UTF-8 as it decodes.
#[verifier::external_body]
fn decode_utf8_lossy(b: &Vec<u8>) -> (r: String)
    ensures
        r@ == lossy_text(b@),
        utf8_text(b@).is_some() ==> r@ == utf8_text(b@).unwrap(),
{
    String::from_utf8_lossy(b).into_owned()
}

/// Errors of one run of the evaluator.
#[derive(Debug, PartialEq)]
pub enum InstantiationError {
    /// The evaluator succeeded but its output did not parse.
    ParseError(ParseError),
    /// The evaluator failed; holds its diagnostic text.
    EvaluationError(String),
    /// The evaluator failed and its diagnostic is not valid UTF-8.
    UnparsableEvaluationError,
    /// The evaluator could not be started; holds the reason.
    StartError(String),
}

/// Classifies one finished run of the evaluator from its exit status and
/// its two output streams.
pub fn interpret_output(success: bool, stdout: &Vec<u8>, stderr: Vec<u8>) -> (r: Result<
    Value,
    InstantiationError,
>)
    ensures
        success ==> match parse_text(lossy_text(stdout@)) {
            Ok(v) => r matches Ok(x) && x@ == v,
            Err(e) => r matches Err(InstantiationError::ParseError(pe)) && pe@ == e,
        },
        !success ==> match utf8_text(stderr@) {
            Some(t) => r matches Err(InstantiationError::EvaluationError(m)) && m@ == t,
            None => r matches Err(InstantiationError::UnparsableEvaluationError),
        },
{
    if success {
        let text = decode_utf8_lossy(stdout);
        match parse_nix_instantiate(text.as_str()) {
            Ok(v) => Ok(v),
            Err(e) => Err(InstantiationError::ParseError(e)),
        }
    } else {
        match decode_utf8(stderr) {
            Some(message) => Err(InstantiationError::EvaluationError(message)),
            None => Err(InstantiationError::UnparsableEvaluationError),
        }
    }
}

pub open spec fn eval_flag() -> Seq<char> {
    seq!['-', '-', 'e', 'v', 'a', 'l']
}

pub open spec fn attr_flag() -> Seq<char> {
    seq!['-', 'A']
}

pub open spec fn arg_flag() -> Seq<char> {
    seq!['-', '-', 'a', 'r', 'g']
}

/// `--arg name value` for each named argument, in order.
pub open spec fn named_arg_words(args: Seq<(Seq<char>, Seq<char>)>) -> Seq<Seq<char>>
    decreases args.len(),
{
    if args.len() == 0 {
        Seq::empty()
    } else {
        named_arg_words(args.drop_last()) + seq![arg_flag(), args.last().0, args.last().1]
    }
}

/// The evaluator's arguments: `--eval path`, then `-A attr` if an attribute
/// is selected, then the named arguments.
pub open spec fn evaluator_args(
    path: Seq<char>,
    attr: Option<Seq<char>>,
    args: Seq<(Seq<char>, Seq<char>)>,
) -> Seq<Seq<char>> {
    seq![eval_flag(), path] + match attr {
        Some(a) => seq![attr_flag(), a],
        None => Seq::empty(),
    } + named_arg_words(args)
}

pub open spec fn string_views(v: Seq<String>) -> Seq<Seq<char>> {
    v.map_values(|s: String| s@)
}

pub open spec fn pair_views(v: Seq<(String, String)>) -> Seq<(Seq<char>, Seq<char>)> {
    v.map_values(|p: (String, String)| (p.0@, p.1@))
}

/// The argument list for one run of the evaluator.
pub fn evaluation_args(path: &str, attr: Option<String>, args: &Vec<(String, String)>) -> (r: Vec<
    String,
>)
    ensures
        string_views(r@) == evaluator_args(
            path@,
            match attr {
                Some(a) => Some(a@),
                None => None,
            },
            pair_views(args@),
        ),
{
    let ghost attr_v = match &attr {
        Some(a) => Some(a@),
        None => None,
    };
    let eval = String::from_str("--eval");
    let attr_word = String::from_str("-A");
    proof {
        reveal_strlit("--eval");
        reveal_strlit("-A");
        assert(eval@ =~= eval_flag());
        assert(attr_word@ =~= attr_flag());
    }
    let mut words: Vec<String> = Vec::new();
    words.push(eval);
    words.push(String::from_str(path));
    match attr {
        Some(a) => {
            words.push(attr_word);
            words.push(a);
        },
        None => {},
    }
    let ghost head = string_views(words@);
    proof {
        assert(head =~= seq![eval_flag(), path@] + match attr_v {
            Some(a) => seq![attr_flag(), a],
            None => Seq::<Seq<char>>::empty(),
        });
        assert(pair_views(args@).take(0) =~= Seq::empty());
        assert(string_views(words@) =~= head + named_arg_words(pair_views(args@).take(0)));
    }
    let mut i: usize = 0;
    while i < args.len()
        invariant
            i <= args.len(),
            string_views(words@) == head + named_arg_words(pair_views(args@).take(i as int)),
        decreases args.len() - i,
    {
        let ghost before = string_views(words@);
        let flag = String::from_str("--arg");
        proof {
            reveal_strlit("--arg");
            assert(flag@ =~= arg_flag());
        }
        words.push(flag);
        words.push(args[i].0.clone());
        words.push(args[i].1.clone());
        proof {
            let p = pair_views(args@);
            assert(p.take(i + 1).drop_last() =~= p.take(i as int));
            assert(string_views(words@) =~= before + seq![arg_flag(), args@[i as int].0@, args@[i as int].1@]);
            assert(string_views(words@) =~= head + named_arg_words(p.take(i + 1)));
        }
        i = i + 1;
    }
    proof {
        assert(pair_views(args@).take(args.len() as int) =~= pair_views(args@));
    }
    words
}

} // verus!
