//! Store paths and the first, literal-only reading of evaluator output.

use vstd::prelude::*;
use crate::lexer::{chars_of, occurs_exec, null_word, true_word, false_word, code_marker, lambda_marker};
use crate::parse_nix_instantiate::{
    ValueV, Value, parse_text, views, entry_views, lemma_views, lemma_entry_views, value_eq,
    found_in, lemma_items_eq, lemma_entries_in, lemma_found_in,
    parse_nix_instantiate as parse_value_text,
};

verus! {

/// A path in the Nix store: its hash part and its name.
#[derive(Debug)]
pub struct StorePath {
    hash: String,
    name: String,
}

impl StorePath {
    pub closed spec fn hash_part(&self) -> Seq<char> {
        self.hash@
    }

    pub closed spec fn name_part(&self) -> Seq<char> {
        self.name@
    }

    pub fn new(hashpart: String, name: String) -> (r: Self)
        ensures
            r.hash_part() == hashpart@,
            r.name_part() == name@,
    {
        StorePath { hash: hashpart, name: name }
    }
}

/// The values that the literal-only reading can produce. Attribute sets
/// compare as mappings, whatever the order of their entries.
#[derive(Debug)]
pub enum ParsableNixValue {
    /// The singleton null value.
    Null,
    /// A function, which is not inspected further.
    Function,
    /// Code that the evaluator did not force.
    Unevaluated,
    /// A derivation, for now only by its path.
    Derivation(String),
    Bool(bool),
    Int(i64),
    String(String),
    List(Vec<ParsableNixValue>),
    /// Keys are unique; entries keep the order in which keys first came.
    AttrSet(Vec<(String, ParsableNixValue)>),
}

/// The model of a value, in the terms of the parser's values.
pub open spec fn pvalue_model(v: ParsableNixValue) -> ValueV
    decreases v,
{
    match v {
        ParsableNixValue::Null => ValueV::Null,
        ParsableNixValue::Function => ValueV::Function,
        ParsableNixValue::Unevaluated => ValueV::Unevaluated,
        ParsableNixValue::Derivation(d) => ValueV::Derivation(d@),
        ParsableNixValue::Bool(b) => ValueV::Bool(b),
        ParsableNixValue::Int(n) => ValueV::Number(n),
        ParsableNixValue::String(s) => ValueV::Str(s@),
        ParsableNixValue::List(items) => ValueV::List(pviews(items@)),
        ParsableNixValue::AttrSet(entries) => ValueV::AttrSet(pentry_views(entries@)),
    }
}

pub open spec fn pviews(s: Seq<ParsableNixValue>) -> Seq<ValueV>
    decreases s,
{
    if s.len() == 0 {
        Seq::empty()
    } else {
        pviews(s.subrange(0, s.len() - 1)).push(pvalue_model(s[s.len() - 1]))
    }
}

pub open spec fn pentry_views(s: Seq<(String, ParsableNixValue)>) -> Seq<(Seq<char>, ValueV)>
    decreases s,
{
    if s.len() == 0 {
        Seq::empty()
    } else {
        pentry_views(s.subrange(0, s.len() - 1)).push(
            (s[s.len() - 1].0@, pvalue_model(s[s.len() - 1].1)),
        )
    }
}

impl View for ParsableNixValue {
    type V = ValueV;

    open spec fn view(&self) -> ValueV {
        pvalue_model(*self)
    }
}

/// Whether a value holds no path anywhere; only those can be represented.
pub open spec fn path_free(v: ValueV) -> bool
    decreases v,
{
    match v {
        ValueV::Path(_) => false,
        ValueV::List(items) => items_path_free(items),
        ValueV::AttrSet(entries) => entries_path_free(entries),
        _ => true,
    }
}

pub open spec fn items_path_free(s: Seq<ValueV>) -> bool
    decreases s,
{
    if s.len() == 0 {
        true
    } else {
        items_path_free(s.subrange(0, s.len() - 1)) && path_free(s[s.len() - 1])
    }
}

pub open spec fn entries_path_free(s: Seq<(Seq<char>, ValueV)>) -> bool
    decreases s,
{
    if s.len() == 0 {
        true
    } else {
        entries_path_free(s.subrange(0, s.len() - 1)) && path_free(s[s.len() - 1].1)
    }
}

proof fn lemma_items_path_free(s: Seq<ValueV>)
    ensures
        items_path_free(s) == forall|i: int| 0 <= i < s.len() ==> path_free(#[trigger] s[i]),
    decreases s.len(),
{
    if s.len() > 0 {
        let p = s.subrange(0, s.len() - 1);
        lemma_items_path_free(p);
        assert forall|i: int| 0 <= i < p.len() implies p[i] == s[i] by {}
        if items_path_free(s) {
            assert forall|i: int| 0 <= i < s.len() implies path_free(#[trigger] s[i]) by {
                if i < p.len() {
                    assert(path_free(p[i]));
                }
            }
        }
    }
}

proof fn lemma_entries_path_free(s: Seq<(Seq<char>, ValueV)>)
    ensures
        entries_path_free(s) == forall|i: int| 0 <= i < s.len() ==> path_free(#[trigger] s[i].1),
    decreases s.len(),
{
    if s.len() > 0 {
        let p = s.subrange(0, s.len() - 1);
        lemma_entries_path_free(p);
        assert forall|i: int| 0 <= i < p.len() implies p[i] == s[i] by {}
        if entries_path_free(s) {
            assert forall|i: int| 0 <= i < s.len() implies path_free(#[trigger] s[i].1) by {
                if i < p.len() {
                    assert(path_free(p[i].1));
                }
            }
        }
    }
}


proof fn lemma_pviews(s: Seq<ParsableNixValue>)
    ensures
        pviews(s).len() == s.len(),
        forall|i: int| 0 <= i < s.len() ==> #[trigger] pviews(s)[i] == s[i]@,
    decreases s.len(),
{
    if s.len() > 0 {
        lemma_pviews(s.subrange(0, s.len() - 1));
    }
}

proof fn lemma_pentry_views(s: Seq<(String, ParsableNixValue)>)
    ensures
        pentry_views(s).len() == s.len(),
        forall|i: int| 0 <= i < s.len() ==> #[trigger] pentry_views(s)[i] == (s[i].0@, s[i].1@),
    decreases s.len(),
{
    if s.len() > 0 {
        lemma_pentry_views(s.subrange(0, s.len() - 1));
    }
}

/// The same value without paths, if it holds none.
fn to_parsable(v: &Value) -> (r: Option<ParsableNixValue>)
    ensures
        r.is_some() == path_free(v@),
        r.is_some() ==> r.unwrap()@ == v@,
    decreases v,
{
    match v {
        Value::Null => Some(ParsableNixValue::Null),
        Value::Function => Some(ParsableNixValue::Function),
        Value::Unevaluated => Some(ParsableNixValue::Unevaluated),
        Value::Derivation(d) => Some(ParsableNixValue::Derivation(d.clone())),
        Value::Bool(b) => Some(ParsableNixValue::Bool(*b)),
        Value::Number(n) => Some(ParsableNixValue::Int(*n)),
        Value::String(s) => Some(ParsableNixValue::String(s.clone())),
        Value::Path(_) => None,
        Value::List(items) => {
            let mut out: Vec<ParsableNixValue> = Vec::new();
            let mut i: usize = 0;
            while i < items.len()
                invariant
                    *v == Value::List(*items),
                    i <= items.len(),
                    out.len() == i,
                    forall|j: int| 0 <= j < i ==> #[trigger] out@[j]@ == items@[j]@,
                    forall|j: int| 0 <= j < i ==> path_free(#[trigger] items@[j]@),
                decreases items.len() - i,
            {
                proof {
                    assert(decreases_to!(*v => (*v)->List_0));
                }
                match to_parsable(&items[i]) {
                    Some(p) => {
                        out.push(p);
                    },
                    None => {
                        proof {
                            lemma_views(items@);
                            assert(!path_free(views(items@)[i as int]));
                            lemma_items_path_free(views(items@));
                        }
                        return None;
                    },
                }
                i = i + 1;
            }
            proof {
                lemma_views(items@);
                lemma_items_path_free(views(items@));
                lemma_pviews(out@);
                assert(pviews(out@) =~= views(items@));
            }
            Some(ParsableNixValue::List(out))
        },
        Value::AttrSet(entries) => {
            let mut out: Vec<(String, ParsableNixValue)> = Vec::new();
            let mut i: usize = 0;
            while i < entries.len()
                invariant
                    *v == Value::AttrSet(*entries),
                    i <= entries.len(),
                    out.len() == i,
                    forall|j: int|
                        0 <= j < i ==> (#[trigger] out@[j]).0@ == entries@[j].0@ && out@[j].1@
                            == entries@[j].1@,
                    forall|j: int| 0 <= j < i ==> path_free((#[trigger] entries@[j]).1@),
                decreases entries.len() - i,
            {
                proof {
                    assert(decreases_to!(*v => (*v)->AttrSet_0));
                }
                match to_parsable(&entries[i].1) {
                    Some(p) => {
                        out.push((entries[i].0.clone(), p));
                    },
                    None => {
                        proof {
                            lemma_entry_views(entries@);
                            assert(!path_free(entry_views(entries@)[i as int].1));
                            lemma_entries_path_free(entry_views(entries@));
                        }
                        return None;
                    },
                }
                i = i + 1;
            }
            proof {
                lemma_entry_views(entries@);
                lemma_entries_path_free(entry_views(entries@));
                lemma_pentry_views(out@);
                assert(pentry_views(out@) =~= entry_views(entries@));
            }
            Some(ParsableNixValue::AttrSet(out))
        },
    }
}

impl PartialEq for ParsableNixValue {
    fn eq(&self, other: &ParsableNixValue) -> (r: bool)
        ensures
            r == value_eq(self@, other@),
        decreases self,
    {
        match (self, other) {
            (ParsableNixValue::List(xs), ParsableNixValue::List(ys)) => {
                proof {
                    lemma_pviews(xs@);
                    lemma_pviews(ys@);
                    lemma_items_eq(pviews(xs@), pviews(ys@));
                }
                if xs.len() != ys.len() {
                    return false;
                }
                let mut i: usize = 0;
                while i < xs.len()
                    invariant
                        *self == ParsableNixValue::List(*xs),
                        *other == ParsableNixValue::List(*ys),
                        xs.len() == ys.len(),
                        i <= xs.len(),
                        pviews(xs@).len() == xs.len(),
                        pviews(ys@).len() == ys.len(),
                        forall|j: int| 0 <= j < xs.len() ==> #[trigger] pviews(xs@)[j] == xs@[j]@,
                        forall|j: int| 0 <= j < ys.len() ==> #[trigger] pviews(ys@)[j] == ys@[j]@,
                        forall|j: int| 0 <= j < i ==> value_eq(#[trigger] pviews(xs@)[j], pviews(ys@)[j]),
                    decreases xs.len() - i,
                {
                    proof {
                        assert(decreases_to!(*self => (*self)->List_0));
                    }
                    if !xs[i].eq(&ys[i]) {
                        proof {
                            lemma_items_eq(pviews(xs@), pviews(ys@));
                            assert(!value_eq(pviews(xs@)[i as int], pviews(ys@)[i as int]));
                        }
                        return false;
                    }
                    i = i + 1;
                }
                true
            },
            (ParsableNixValue::AttrSet(m1), ParsableNixValue::AttrSet(m2)) => {
                proof {
                    lemma_pentry_views(m1@);
                    lemma_pentry_views(m2@);
                    lemma_entries_in(pentry_views(m1@), pentry_views(m2@));
                }
                if m1.len() != m2.len() {
                    return false;
                }
                let mut i: usize = 0;
                while i < m1.len()
                    invariant
                        *self == ParsableNixValue::AttrSet(*m1),
                        *other == ParsableNixValue::AttrSet(*m2),
                        i <= m1.len(),
                        pentry_views(m1@).len() == m1.len(),
                        pentry_views(m2@).len() == m2.len(),
                        forall|j: int| 0 <= j < m1.len() ==> #[trigger] pentry_views(m1@)[j] == (m1@[j].0@, m1@[j].1@),
                        forall|j: int| 0 <= j < m2.len() ==> #[trigger] pentry_views(m2@)[j] == (m2@[j].0@, m2@[j].1@),
                        forall|j: int|
                            0 <= j < i ==> found_in(
                                #[trigger] pentry_views(m1@)[j].0,
                                pentry_views(m1@)[j].1,
                                pentry_views(m2@),
                            ),
                    decreases m1.len() - i,
                {
                    proof {
                        lemma_found_in(m1@[i as int].0@, m1@[i as int].1@, pentry_views(m2@));
                    }
                    let mut found = false;
                    let mut j: usize = 0;
                    while j < m2.len() && !found
                        invariant
                            *self == ParsableNixValue::AttrSet(*m1),
                            i < m1.len(),
                            j <= m2.len(),
                            pentry_views(m2@).len() == m2.len(),
                            forall|t: int| 0 <= t < m2.len() ==> #[trigger] pentry_views(m2@)[t] == (m2@[t].0@, m2@[t].1@),
                            found ==> found_in(m1@[i as int].0@, m1@[i as int].1@, pentry_views(m2@)),
                            !found ==> forall|t: int| 0 <= t < j ==> !(#[trigger] m2@[t].0@ == m1@[i as int].0@
                                && value_eq(m1@[i as int].1@, m2@[t].1@)),
                            found_in(m1@[i as int].0@, m1@[i as int].1@, pentry_views(m2@)) == exists|t: int|
                                0 <= t < m2.len() && #[trigger] pentry_views(m2@)[t].0 == m1@[i as int].0@
                                && value_eq(m1@[i as int].1@, pentry_views(m2@)[t].1),
                        decreases m2.len() - j,
                    {
                        proof {
                            assert(decreases_to!(*self => (*self)->AttrSet_0));
                            assert(decreases_to!(*m1 => m1@[i as int]));
                        }
                        if m1[i].0 == m2[j].0 && m1[i].1.eq(&m2[j].1) {
                            assert(pentry_views(m2@)[j as int].0 == m1@[i as int].0@);
                            found = true;
                        }
                        j = j + 1;
                    }
                    if !found {
                        proof {
                            if found_in(m1@[i as int].0@, m1@[i as int].1@, pentry_views(m2@)) {
                                let t = choose|t: int|
                                    0 <= t < m2.len() && #[trigger] pentry_views(m2@)[t].0 == m1@[i as int].0@
                                        && value_eq(m1@[i as int].1@, pentry_views(m2@)[t].1);
                                assert(m2@[t].0@ == m1@[i as int].0@);
                            }
                            lemma_entries_in(pentry_views(m1@), pentry_views(m2@));
                            assert(!found_in(
                                pentry_views(m1@)[i as int].0,
                                pentry_views(m1@)[i as int].1,
                                pentry_views(m2@),
                            ));
                        }
                        return false;
                    }
                    i = i + 1;
                }
                true
            },
            (ParsableNixValue::Null, ParsableNixValue::Null) => true,
            (ParsableNixValue::Function, ParsableNixValue::Function) => true,
            (ParsableNixValue::Unevaluated, ParsableNixValue::Unevaluated) => true,
            (ParsableNixValue::Derivation(a), ParsableNixValue::Derivation(b)) => *a == *b,
            (ParsableNixValue::Bool(a), ParsableNixValue::Bool(b)) => *a == *b,
            (ParsableNixValue::Int(a), ParsableNixValue::Int(b)) => *a == *b,
            (ParsableNixValue::String(a), ParsableNixValue::String(b)) => *a == *b,
            _ => false,
        }
    }
}

impl vstd::std_specs::cmp::PartialEqSpecImpl for ParsableNixValue {
    open spec fn obeys_eq_spec() -> bool {
        true
    }

    open spec fn eq_spec(&self, other: &ParsableNixValue) -> bool {
        value_eq(self@, other@)
    }
}

/// The message for output that this reading does not recognise.
pub open spec fn unrecognized(s: Seq<char>) -> Seq<char> {
    "Unrecognized output: "@ + s
}

fn unrecognized_message(s: &str) -> (r: String)
    ensures
        r@ == unrecognized(s@),
{
    String::from_str("Unrecognized output: ").concat(s)
}

/// Whether the text is bracketed like a list.
pub open spec fn bracketed(s: Seq<char>) -> bool {
    s.len() >= 1 && s[0] == '[' && s[s.len() - 1] == ']'
}

fn equals_word(cs: &Vec<char>, w: &Vec<char>) -> (r: bool)
    ensures
        r == (cs@ == w@),
{
    let r = cs.len() == w.len() && occurs_exec(cs, 0, w);
    proof {
        assert(cs@.subrange(0, cs@.len() as int) =~= cs@);
    }
    r
}

/// Parses text as a list of values; anything else, or a value that holds a
/// path, is unrecognised.
pub fn parse_nix_instantiate_list(list_string: String) -> (r: Result<ParsableNixValue, String>)
    ensures
        match parse_text(list_string@) {
            Ok(v) => if v is List && path_free(v) {
                r matches Ok(p) && p@ == v
            } else {
                r matches Err(m) && m@ == unrecognized(list_string@)
            },
            Err(_) => r matches Err(m) && m@ == unrecognized(list_string@),
        },
{
    match parse_value_text(list_string.as_str()) {
        Ok(v) => {
            if let Value::List(_) = &v {
                match to_parsable(&v) {
                    Some(p) => Ok(p),
                    None => Err(unrecognized_message(list_string.as_str())),
                }
            } else {
                Err(unrecognized_message(list_string.as_str()))
            }
        },
        Err(_) => Err(unrecognized_message(list_string.as_str())),
    }
}

/// Reads the output of `nix-instantiate --eval` when it is one of the
/// literals `null`, `true`, `false`, `<CODE>`, `<LAMBDA>`, or a list.
pub fn parse_nix_instantiate(output: &str) -> (r: Result<ParsableNixValue, String>)
    ensures
        output@ == null_word() ==> r matches Ok(ParsableNixValue::Null),
        output@ == true_word() ==> r matches Ok(ParsableNixValue::Bool(true)),
        output@ == false_word() ==> r matches Ok(ParsableNixValue::Bool(false)),
        output@ == code_marker() ==> r matches Ok(ParsableNixValue::Unevaluated),
        output@ == lambda_marker() ==> r matches Ok(ParsableNixValue::Function),
        output@ != null_word() && output@ != true_word() && output@ != false_word() && output@
            != code_marker() && output@ != lambda_marker() ==> if bracketed(output@) {
            match parse_text(output@) {
                Ok(v) => if v is List && path_free(v) {
                    r matches Ok(p) && p@ == v
                } else {
                    r matches Err(m) && m@ == unrecognized(output@)
                },
                Err(_) => r matches Err(m) && m@ == unrecognized(output@),
            }
        } else {
            r matches Err(m) && m@ == unrecognized(output@)
        },
{
    let cs = chars_of(output);
    let null_w = vec!['n', 'u', 'l', 'l'];
    let true_w = vec!['t', 'r', 'u', 'e'];
    let false_w = vec!['f', 'a', 'l', 's', 'e'];
    let code = vec!['<', 'C', 'O', 'D', 'E', '>'];
    let lambda = vec!['<', 'L', 'A', 'M', 'B', 'D', 'A', '>'];
    proof {
        assert(null_w@ =~= null_word());
        assert(true_w@ =~= true_word());
        assert(false_w@ =~= false_word());
        assert(code@ =~= code_marker());
        assert(lambda@ =~= lambda_marker());
    }
    if equals_word(&cs, &null_w) {
        Ok(ParsableNixValue::Null)
    } else if equals_word(&cs, &true_w) {
        Ok(ParsableNixValue::Bool(true))
    } else if equals_word(&cs, &false_w) {
        Ok(ParsableNixValue::Bool(false))
    } else if equals_word(&cs, &code) {
        Ok(ParsableNixValue::Unevaluated)
    } else if equals_word(&cs, &lambda) {
        Ok(ParsableNixValue::Function)
    } else if cs.len() >= 1 && cs[0] == '[' && cs[cs.len() - 1] == ']' {
        parse_nix_instantiate_list(String::from_str(output))
    } else {
        Err(unrecognized_message(output))
    }
}

} // verus!
