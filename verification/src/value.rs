//! The structured value that protocol payloads travel in: a tagged union
//! mirroring JSON. Strings are kept as their UTF-8 bytes and a number is
//! kept as its decimal text, so that re-serializing reproduces it exactly.

use vstd::prelude::*;

verus! {

broadcast use vstd::std_specs::vec::group_vec_axioms;

/// Executable protocol value.
#[derive(Debug, PartialEq, Eq)]
pub enum JsonValue {
    Null,
    Bool(bool),
    /// A number, held as its decimal text (see `valid_num`).
    Num(Vec<u8>),
    /// A string, held as its UTF-8 bytes (unescaped content).
    Str(Vec<u8>),
    Arr(Vec<JsonValue>),
    Obj(Vec<(Vec<u8>, JsonValue)>),
}

/// Mathematical model of a `JsonValue`.
pub enum JVal {
    Null,
    Bool(bool),
    Num(Seq<u8>),
    Str(Seq<u8>),
    Arr(Seq<JVal>),
    Obj(Seq<(Seq<u8>, JVal)>),
}

pub open spec fn jval_of(v: JsonValue) -> JVal
    decreases v,
{
    match v {
        JsonValue::Null => JVal::Null,
        JsonValue::Bool(b) => JVal::Bool(b),
        JsonValue::Num(l) => JVal::Num(l@),
        JsonValue::Str(s) => JVal::Str(s@),
        JsonValue::Arr(es) => JVal::Arr(jvals_of(es@)),
        JsonValue::Obj(ps) => JVal::Obj(jmembers_of(ps@)),
    }
}

pub open spec fn jvals_of(es: Seq<JsonValue>) -> Seq<JVal>
    decreases es,
{
    if es.len() == 0 {
        Seq::empty()
    } else {
        jvals_of(es.drop_last()).push(jval_of(es.last()))
    }
}

pub open spec fn jmembers_of(ps: Seq<(Vec<u8>, JsonValue)>) -> Seq<(Seq<u8>, JVal)>
    decreases ps,
{
    if ps.len() == 0 {
        Seq::empty()
    } else {
        jmembers_of(ps.drop_last()).push((ps.last().0@, jval_of(ps.last().1)))
    }
}

impl View for JsonValue {
    type V = JVal;

    open spec fn view(&self) -> JVal {
        jval_of(*self)
    }
}

pub proof fn lemma_jvals_of(es: Seq<JsonValue>)
    ensures
        jvals_of(es).len() == es.len(),
        forall|i: int| 0 <= i < es.len() ==> jvals_of(es)[i] == jval_of(es[i]),
    decreases es.len(),
{
    if es.len() > 0 {
        lemma_jvals_of(es.drop_last());
    }
}

pub proof fn lemma_jmembers_of(ps: Seq<(Vec<u8>, JsonValue)>)
    ensures
        jmembers_of(ps).len() == ps.len(),
        forall|i: int| 0 <= i < ps.len() ==> jmembers_of(ps)[i] == (ps[i].0@, jval_of(ps[i].1)),
    decreases ps.len(),
{
    if ps.len() > 0 {
        lemma_jmembers_of(ps.drop_last());
    }
}

pub open spec fn is_digit(b: u8) -> bool {
    48 <= b <= 57
}

pub open spec fn all_digits(s: Seq<u8>) -> bool {
    forall|i: int| 0 <= i < s.len() ==> is_digit(#[trigger] s[i])
}

/// The unsigned part of a number lexeme: digits, optionally a dot with
/// digits on both sides.
pub open spec fn valid_num_body(s: Seq<u8>) -> bool {
    ||| (s.len() > 0 && all_digits(s))
    ||| (exists|k: int|
        1 <= k < s.len() - 1 && s[k] == 46 && all_digits(#[trigger] s.subrange(0, k))
            && all_digits(s.subrange(k + 1, s.len() as int)))
}

/// A number lexeme: an optional minus sign, then digits with an optional
/// fractional part.
pub open spec fn valid_num(l: Seq<u8>) -> bool {
    if l.len() > 0 && l[0] == 45 {
        valid_num_body(l.drop_first())
    } else {
        valid_num_body(l)
    }
}

/// Well-formedness of a value: every number lexeme obeys the number grammar.
pub open spec fn valid_jval(v: JVal) -> bool
    decreases v,
{
    match v {
        JVal::Null => true,
        JVal::Bool(_) => true,
        JVal::Num(l) => valid_num(l),
        JVal::Str(_) => true,
        JVal::Arr(es) => valid_jlist(es),
        JVal::Obj(ps) => valid_jmembers(ps),
    }
}

pub open spec fn valid_jlist(es: Seq<JVal>) -> bool
    decreases es,
{
    if es.len() == 0 {
        true
    } else {
        valid_jlist(es.drop_last()) && valid_jval(es.last())
    }
}

pub open spec fn valid_jmembers(ps: Seq<(Seq<u8>, JVal)>) -> bool
    decreases ps,
{
    if ps.len() == 0 {
        true
    } else {
        valid_jmembers(ps.drop_last()) && valid_jval(ps.last().1)
    }
}

pub proof fn lemma_valid_jlist_push(es: Seq<JVal>, v: JVal)
    ensures
        valid_jlist(es.push(v)) == (valid_jlist(es) && valid_jval(v)),
{
    assert(es.push(v).drop_last() =~= es);
    assert(es.push(v).last() == v);
}

pub proof fn lemma_valid_jmembers_push(ps: Seq<(Seq<u8>, JVal)>, p: (Seq<u8>, JVal))
    ensures
        valid_jmembers(ps.push(p)) == (valid_jmembers(ps) && valid_jval(p.1)),
{
    assert(ps.push(p).drop_last() =~= ps);
    assert(ps.push(p).last() == p);
}

pub proof fn lemma_jvals_of_push(es: Seq<JsonValue>, e: JsonValue)
    ensures
        jvals_of(es.push(e)) == jvals_of(es).push(jval_of(e)),
{
    assert(es.push(e).drop_last() =~= es);
    assert(es.push(e).last() == e);
}

pub proof fn lemma_jmembers_of_push(ps: Seq<(Vec<u8>, JsonValue)>, p: (Vec<u8>, JsonValue))
    ensures
        jmembers_of(ps.push(p)) == jmembers_of(ps).push((p.0@, jval_of(p.1))),
{
    assert(ps.push(p).drop_last() =~= ps);
    assert(ps.push(p).last() == p);
}

pub proof fn lemma_arr_valid_elem(es: Seq<JVal>, k: int)
    requires
        valid_jlist(es),
        0 <= k < es.len(),
    ensures
        valid_jval(es[k]),
    decreases es.len(),
{
    if k < es.len() - 1 {
        lemma_arr_valid_elem(es.drop_last(), k);
    }
}

pub proof fn lemma_obj_valid_elem(ps: Seq<(Seq<u8>, JVal)>, k: int)
    requires
        valid_jmembers(ps),
        0 <= k < ps.len(),
    ensures
        valid_jval(ps[k].1),
    decreases ps.len(),
{
    if k < ps.len() - 1 {
        lemma_obj_valid_elem(ps.drop_last(), k);
    }
}

/// A copy of a byte string.
pub fn clone_bytes(v: &Vec<u8>) -> (r: Vec<u8>)
    ensures
        r@ == v@,
{
    let n = v.len();
    let mut r: Vec<u8> = Vec::new();
    let mut i: usize = 0;
    while i < n
        invariant
            n == v@.len(),
            0 <= i <= n,
            r@ == v@.take(i as int),
        decreases n - i,
    {
        r.push(v[i]);
        assert(r@ =~= v@.take(i + 1));
        i += 1;
    }
    assert(v@.take(n as int) =~= v@);
    r
}

/// A copy equal to `v` in its model.
pub fn clone_value(v: &JsonValue) -> (r: JsonValue)
    ensures
        r@ == v@,
    decreases *v,
{
    match v {
        JsonValue::Null => JsonValue::Null,
        JsonValue::Bool(b) => JsonValue::Bool(*b),
        JsonValue::Num(l) => JsonValue::Num(clone_bytes(l)),
        JsonValue::Str(s) => JsonValue::Str(clone_bytes(s)),
        JsonValue::Arr(es) => {
            let n = es.len();
            let mut out: Vec<JsonValue> = Vec::new();
            let mut i: usize = 0;
            while i < n
                invariant
                    *v == JsonValue::Arr(*es),
                    n == es@.len(),
                    0 <= i <= n,
                    out@.len() == i,
                    forall|k: int| 0 <= k < i ==> jval_of(#[trigger] out@[k]) == jval_of(es@[k]),
                decreases n - i,
            {
                proof {
                    assert(decreases_to!(*v => v->Arr_0));
                    assert(decreases_to!(*es => es[i as int]));
                }
                out.push(clone_value(&es[i]));
                i += 1;
            }
            proof {
                lemma_jvals_of(out@);
                lemma_jvals_of(es@);
                assert(jvals_of(out@) =~= jvals_of(es@));
            }
            JsonValue::Arr(out)
        },
        JsonValue::Obj(ps) => {
            let n = ps.len();
            let mut out: Vec<(Vec<u8>, JsonValue)> = Vec::new();
            let mut i: usize = 0;
            while i < n
                invariant
                    *v == JsonValue::Obj(*ps),
                    n == ps@.len(),
                    0 <= i <= n,
                    out@.len() == i,
                    forall|k: int|
                        0 <= k < i ==> (#[trigger] out@[k]).0@ == ps@[k].0@ && jval_of(
                            out@[k].1) == jval_of(ps@[k].1),
                decreases n - i,
            {
                proof {
                    assert(decreases_to!(*v => v->Obj_0));
                    assert(decreases_to!(*ps => ps[i as int]));
                    assert(decreases_to!(ps[i as int] => ps[i as int].1));
                }
                let key = clone_bytes(&ps[i].0);
                let val = clone_value(&ps[i].1);
                out.push((key, val));
                i += 1;
            }
            proof {
                lemma_jmembers_of(out@);
                lemma_jmembers_of(ps@);
                assert(jmembers_of(out@) =~= jmembers_of(ps@));
            }
            JsonValue::Obj(out)
        },
    }
}

} // verus!
