//! The persisted document: the whole navigable sequence as one JSON value,
//! read on every load and overwritten wholesale on every successful cursor
//! move. Reading is keyed lookup, tolerant of member order and of extra
//! members; writing emits the canonical serialized form.

use vstd::prelude::*;
use vstd::string::StrSliceExecFns;
use crate::value::{JVal, JsonValue, jval_of, jvals_of, jmembers_of, lemma_jvals_of, lemma_jmembers_of, is_digit, all_digits, clone_bytes};
use crate::codec::ser;
use crate::codec::serialize_value;
use crate::codec::{parse_value_line, parse_value_text, strip_ws_spec};
use crate::value::{valid_jval, valid_jlist, valid_jmembers, valid_num, valid_num_body};
use crate::session::{Question, QuestionV, Session, SessionV, AppState};
use crate::dispatch::{obj_lookup, lemma_obj_lookup_at, k_id, k_topic, k_difficulty, k_description};
use vstd::utf8::{encode_utf8, decode_utf8, valid_utf8};

verus! {

broadcast use vstd::std_specs::vec::group_vec_axioms;

pub open spec fn k_session_id() -> Seq<u8> {
    seq![115u8, 101u8, 115u8, 115u8, 105u8, 111u8, 110u8, 95u8, 105u8, 100u8]
}

fn kv_session_id() -> (r: Vec<u8>)
    ensures
        r@ == k_session_id(),
{
    let r: Vec<u8> = vec![115u8, 101u8, 115u8, 115u8, 105u8, 111u8, 110u8, 95u8, 105u8, 100u8];
    assert(r@ =~= k_session_id());
    r
}

pub open spec fn k_questions_per_session() -> Seq<u8> {
    seq![113u8, 117u8, 101u8, 115u8, 116u8, 105u8, 111u8, 110u8, 115u8, 95u8, 112u8, 101u8, 114u8, 95u8, 115u8, 101u8, 115u8, 115u8, 105u8, 111u8, 110u8]
}

fn kv_questions_per_session() -> (r: Vec<u8>)
    ensures
        r@ == k_questions_per_session(),
{
    let r: Vec<u8> = vec![113u8, 117u8, 101u8, 115u8, 116u8, 105u8, 111u8, 110u8, 115u8, 95u8, 112u8, 101u8, 114u8, 95u8, 115u8, 101u8, 115u8, 115u8, 105u8, 111u8, 110u8];
    assert(r@ =~= k_questions_per_session());
    r
}

pub open spec fn k_current_question_index() -> Seq<u8> {
    seq![99u8, 117u8, 114u8, 114u8, 101u8, 110u8, 116u8, 95u8, 113u8, 117u8, 101u8, 115u8, 116u8, 105u8, 111u8, 110u8, 95u8, 105u8, 110u8, 100u8, 101u8, 120u8]
}

fn kv_current_question_index() -> (r: Vec<u8>)
    ensures
        r@ == k_current_question_index(),
{
    let r: Vec<u8> = vec![99u8, 117u8, 114u8, 114u8, 101u8, 110u8, 116u8, 95u8, 113u8, 117u8, 101u8, 115u8, 116u8, 105u8, 111u8, 110u8, 95u8, 105u8, 110u8, 100u8, 101u8, 120u8];
    assert(r@ =~= k_current_question_index());
    r
}

pub open spec fn k_questions() -> Seq<u8> {
    seq![113u8, 117u8, 101u8, 115u8, 116u8, 105u8, 111u8, 110u8, 115u8]
}

fn kv_questions() -> (r: Vec<u8>)
    ensures
        r@ == k_questions(),
{
    let r: Vec<u8> = vec![113u8, 117u8, 101u8, 115u8, 116u8, 105u8, 111u8, 110u8, 115u8];
    assert(r@ =~= k_questions());
    r
}

pub open spec fn k_start_time() -> Seq<u8> {
    seq![115u8, 116u8, 97u8, 114u8, 116u8, 95u8, 116u8, 105u8, 109u8, 101u8]
}

fn kv_start_time() -> (r: Vec<u8>)
    ensures
        r@ == k_start_time(),
{
    let r: Vec<u8> = vec![115u8, 116u8, 97u8, 114u8, 116u8, 95u8, 116u8, 105u8, 109u8, 101u8];
    assert(r@ =~= k_start_time());
    r
}

pub open spec fn k_scores() -> Seq<u8> {
    seq![115u8, 99u8, 111u8, 114u8, 101u8, 115u8]
}

fn kv_scores() -> (r: Vec<u8>)
    ensures
        r@ == k_scores(),
{
    let r: Vec<u8> = vec![115u8, 99u8, 111u8, 114u8, 101u8, 115u8];
    assert(r@ =~= k_scores());
    r
}

pub open spec fn k_title() -> Seq<u8> {
    seq![116u8, 105u8, 116u8, 108u8, 101u8]
}

fn kv_title() -> (r: Vec<u8>)
    ensures
        r@ == k_title(),
{
    let r: Vec<u8> = vec![116u8, 105u8, 116u8, 108u8, 101u8];
    assert(r@ =~= k_title());
    r
}

pub open spec fn k_requirements() -> Seq<u8> {
    seq![114u8, 101u8, 113u8, 117u8, 105u8, 114u8, 101u8, 109u8, 101u8, 110u8, 116u8, 115u8]
}

fn kv_requirements() -> (r: Vec<u8>)
    ensures
        r@ == k_requirements(),
{
    let r: Vec<u8> = vec![114u8, 101u8, 113u8, 117u8, 105u8, 114u8, 101u8, 109u8, 101u8, 110u8, 116u8, 115u8];
    assert(r@ =~= k_requirements());
    r
}

pub open spec fn k_examples() -> Seq<u8> {
    seq![101u8, 120u8, 97u8, 109u8, 112u8, 108u8, 101u8, 115u8]
}

fn kv_examples() -> (r: Vec<u8>)
    ensures
        r@ == k_examples(),
{
    let r: Vec<u8> = vec![101u8, 120u8, 97u8, 109u8, 112u8, 108u8, 101u8, 115u8];
    assert(r@ =~= k_examples());
    r
}

pub open spec fn k_starter_code() -> Seq<u8> {
    seq![115u8, 116u8, 97u8, 114u8, 116u8, 101u8, 114u8, 95u8, 99u8, 111u8, 100u8, 101u8]
}

fn kv_starter_code() -> (r: Vec<u8>)
    ensures
        r@ == k_starter_code(),
{
    let r: Vec<u8> = vec![115u8, 116u8, 97u8, 114u8, 116u8, 101u8, 114u8, 95u8, 99u8, 111u8, 100u8, 101u8];
    assert(r@ =~= k_starter_code());
    r
}

fn kv_q_id() -> (r: Vec<u8>)
    ensures
        r@ == k_id(),
{
    let r: Vec<u8> = vec![105u8, 100u8];
    assert(r@ =~= k_id());
    r
}

fn kv_q_topic() -> (r: Vec<u8>)
    ensures
        r@ == k_topic(),
{
    let r: Vec<u8> = vec![116u8, 111u8, 112u8, 105u8, 99u8];
    assert(r@ =~= k_topic());
    r
}

fn kv_q_difficulty() -> (r: Vec<u8>)
    ensures
        r@ == k_difficulty(),
{
    let r: Vec<u8> = vec![100u8, 105u8, 102u8, 102u8, 105u8, 99u8, 117u8, 108u8, 116u8, 121u8];
    assert(r@ =~= k_difficulty());
    r
}

fn kv_q_description() -> (r: Vec<u8>)
    ensures
        r@ == k_description(),
{
    let r: Vec<u8> = vec![100u8, 101u8, 115u8, 99u8, 114u8, 105u8, 112u8, 116u8, 105u8, 111u8, 110u8];
    assert(r@ =~= k_description());
    r
}

// ---------------------------------------------------------------------------
// Decimal text for the two counters.
// ---------------------------------------------------------------------------

/// The decimal text of a non-negative integer.
pub open spec fn dec_of(n: int) -> Seq<u8>
    decreases n,
{
    if n < 10 {
        seq![(48 + n) as u8]
    } else {
        dec_of(n / 10).push((48 + n % 10) as u8)
    }
}

/// The value of a digit string.
pub open spec fn num_val(s: Seq<u8>) -> int
    decreases s.len(),
{
    if s.len() == 0 {
        0
    } else {
        num_val(s.drop_last()) * 10 + (s.last() - 48)
    }
}

proof fn lemma_num_val_nonneg(s: Seq<u8>)
    requires
        all_digits(s),
    ensures
        num_val(s) >= 0,
    decreases s.len(),
{
    if s.len() > 0 {
        assert(forall|j: int| 0 <= j < s.len() - 1 ==> s.drop_last()[j] == s[j]);
        lemma_num_val_nonneg(s.drop_last());
    }
}

proof fn lemma_num_val_mono(s: Seq<u8>, j: int)
    requires
        all_digits(s),
        0 <= j <= s.len(),
    ensures
        num_val(s) >= num_val(s.take(j)),
    decreases s.len() - j,
{
    if j < s.len() {
        lemma_num_val_mono(s, j + 1);
        assert(s.take(j + 1).drop_last() =~= s.take(j));
        assert(forall|x: int| 0 <= x < j + 1 ==> s.take(j + 1)[x] == s[x]);
        assert(all_digits(s.take(j))) by {
            assert(forall|x: int| 0 <= x < j ==> s.take(j)[x] == s[x]);
        }
        lemma_num_val_nonneg(s.take(j));
        assert(num_val(s.take(j + 1)) == num_val(s.take(j)) * 10 + (s[j] - 48));
        assert(num_val(s.take(j)) * 10 >= num_val(s.take(j))) by {
            lemma_num_val_nonneg(s.take(j));
        }
    } else {
        assert(s.take(j) =~= s);
    }
}

fn usize_to_dec(n: usize) -> (r: Vec<u8>)
    ensures
        r@ == dec_of(n as int),
    decreases n,
{
    if n < 10 {
        let r: Vec<u8> = vec![48 + n as u8];
        assert(r@ =~= dec_of(n as int));
        r
    } else {
        let mut r = usize_to_dec(n / 10);
        r.push(48 + (n % 10) as u8);
        assert(r@ =~= dec_of(n as int));
        r
    }
}

/// Reads a plain digit string as a count; fails on anything else or on a
/// value that does not fit.
fn parse_dec(l: &[u8]) -> (r: Option<usize>)
    ensures
        r matches Some(n) ==> l@.len() > 0 && all_digits(l@) && num_val(l@) == n,
        r is None ==> !(l@.len() > 0 && all_digits(l@) && num_val(l@) <= usize::MAX),
{
    let n = l.len();
    if n == 0 {
        return None;
    }
    let mut acc: usize = 0;
    let mut i: usize = 0;
    while i < n
        invariant
            n == l@.len(),
            0 <= i <= n,
            forall|j: int| 0 <= j < i ==> is_digit(#[trigger] l@[j]),
            acc == num_val(l@.take(i as int)),
        decreases n - i,
    {
        let b = l[i];
        if b < 48 || b > 57 {
            return None;
        }
        let d = (b - 48) as usize;
        let next = match acc.checked_mul(10) {
            Some(m) => match m.checked_add(d) {
                Some(v) => v,
                None => {
                    proof {
                        overflow_reasoning(l@, i as int, acc as int, d as int);
                    }
                    return None;
                },
            },
            None => {
                proof {
                    overflow_reasoning(l@, i as int, acc as int, d as int);
                }
                return None;
            },
        };
        proof {
            assert(l@.take(i + 1).drop_last() =~= l@.take(i as int));
        }
        acc = next;
        i += 1;
    }
    proof {
        assert(l@.take(n as int) =~= l@);
    }
    Some(acc)
}

/// When one step of the accumulation exceeds the machine bound, the whole
/// digit string's value does.
proof fn overflow_reasoning(l: Seq<u8>, i: int, acc: int, d: int)
    requires
        0 <= i < l.len(),
        forall|j: int| 0 <= j < i ==> is_digit(#[trigger] l[j]),
        is_digit(l[i]),
        acc == num_val(l.take(i)),
        d == l[i] - 48,
        acc * 10 + d > usize::MAX,
    ensures
        !(all_digits(l) && num_val(l) <= usize::MAX),
{
    if all_digits(l) {
        assert(l.take(i + 1).drop_last() =~= l.take(i));
        assert(num_val(l.take(i + 1)) == acc * 10 + d);
        lemma_num_val_mono(l, i + 1);
    }
}

// ---------------------------------------------------------------------------
// Shape of the document, and the session it holds.
// ---------------------------------------------------------------------------

pub open spec fn str_jval(s: Seq<char>) -> JVal {
    JVal::Str(encode_utf8(s))
}

pub open spec fn str_field(ps: Seq<(Seq<u8>, JVal)>, k: Seq<u8>) -> bool {
    &&& obj_lookup(ps, k) is Some
    &&& obj_lookup(ps, k)->Some_0 is Str
    &&& valid_utf8(obj_lookup(ps, k)->Some_0->Str_0)
}

pub open spec fn str_field_val(ps: Seq<(Seq<u8>, JVal)>, k: Seq<u8>) -> Seq<char> {
    decode_utf8(obj_lookup(ps, k)->Some_0->Str_0)
}

pub open spec fn num_field(ps: Seq<(Seq<u8>, JVal)>, k: Seq<u8>) -> bool {
    &&& obj_lookup(ps, k) is Some
    &&& obj_lookup(ps, k)->Some_0 is Num
    &&& obj_lookup(ps, k)->Some_0->Num_0.len() > 0
    &&& all_digits(obj_lookup(ps, k)->Some_0->Num_0)
    &&& num_val(obj_lookup(ps, k)->Some_0->Num_0) <= usize::MAX
}

pub open spec fn num_field_val(ps: Seq<(Seq<u8>, JVal)>, k: Seq<u8>) -> int {
    num_val(obj_lookup(ps, k)->Some_0->Num_0)
}

pub open spec fn str_item(v: JVal) -> bool {
    v is Str && valid_utf8(v->Str_0)
}

pub open spec fn str_items(es: Seq<JVal>) -> bool
    decreases es.len(),
{
    if es.len() == 0 {
        true
    } else {
        str_items(es.drop_last()) && str_item(es.last())
    }
}

pub proof fn lemma_str_items_push(es: Seq<JVal>, v: JVal)
    ensures
        str_items(es.push(v)) == (str_items(es) && str_item(v)),
{
    assert(es.push(v).drop_last() =~= es);
    assert(es.push(v).last() == v);
}

pub proof fn lemma_str_items_elem(es: Seq<JVal>, k: int)
    requires
        str_items(es),
        0 <= k < es.len(),
    ensures
        str_item(es[k]),
    decreases es.len(),
{
    if k < es.len() - 1 {
        lemma_str_items_elem(es.drop_last(), k);
    }
}

pub open spec fn str_items_val(es: Seq<JVal>) -> Seq<Seq<char>> {
    es.map_values(|e: JVal| decode_utf8(e->Str_0))
}

/// A value that reads as one question.
pub open spec fn question_shape(v: JVal) -> bool {
    &&& v is Obj
    &&& str_field(v->Obj_0, k_id())
    &&& str_field(v->Obj_0, k_title())
    &&& str_field(v->Obj_0, k_description())
    &&& obj_lookup(v->Obj_0, k_requirements()) is Some
    &&& obj_lookup(v->Obj_0, k_requirements())->Some_0 is Arr
    &&& str_items(obj_lookup(v->Obj_0, k_requirements())->Some_0->Arr_0)
    &&& str_field(v->Obj_0, k_examples())
    &&& str_field(v->Obj_0, k_starter_code())
    &&& str_field(v->Obj_0, k_difficulty())
    &&& str_field(v->Obj_0, k_topic())
}

pub open spec fn question_of(v: JVal) -> QuestionV {
    QuestionV {
        id: str_field_val(v->Obj_0, k_id()),
        title: str_field_val(v->Obj_0, k_title()),
        description: str_field_val(v->Obj_0, k_description()),
        requirements: str_items_val(obj_lookup(v->Obj_0, k_requirements())->Some_0->Arr_0),
        examples: str_field_val(v->Obj_0, k_examples()),
        starter_code: str_field_val(v->Obj_0, k_starter_code()),
        difficulty: str_field_val(v->Obj_0, k_difficulty()),
        topic: str_field_val(v->Obj_0, k_topic()),
    }
}

pub open spec fn num_items(es: Seq<JVal>) -> bool
    decreases es.len(),
{
    if es.len() == 0 {
        true
    } else {
        num_items(es.drop_last()) && es.last() is Num
    }
}

pub proof fn lemma_num_items_push(es: Seq<JVal>, v: JVal)
    ensures
        num_items(es.push(v)) == (num_items(es) && v is Num),
{
    assert(es.push(v).drop_last() =~= es);
    assert(es.push(v).last() == v);
}

pub proof fn lemma_num_items_elem(es: Seq<JVal>, k: int)
    requires
        num_items(es),
        0 <= k < es.len(),
    ensures
        es[k] is Num,
    decreases es.len(),
{
    if k < es.len() - 1 {
        lemma_num_items_elem(es.drop_last(), k);
    }
}

pub open spec fn questions_shape(qs: Seq<JVal>) -> bool
    decreases qs.len(),
{
    if qs.len() == 0 {
        true
    } else {
        questions_shape(qs.drop_last()) && question_shape(qs.last())
    }
}

pub proof fn lemma_questions_shape_push(qs: Seq<JVal>, v: JVal)
    ensures
        questions_shape(qs.push(v)) == (questions_shape(qs) && question_shape(v)),
{
    assert(qs.push(v).drop_last() =~= qs);
    assert(qs.push(v).last() == v);
}

pub proof fn lemma_questions_shape_elem(qs: Seq<JVal>, k: int)
    requires
        questions_shape(qs),
        0 <= k < qs.len(),
    ensures
        question_shape(qs[k]),
    decreases qs.len(),
{
    if k < qs.len() - 1 {
        lemma_questions_shape_elem(qs.drop_last(), k);
    }
}

/// A value that reads as the whole persisted document.
pub open spec fn session_shape(v: JVal) -> bool {
    &&& v is Obj
    &&& str_field(v->Obj_0, k_session_id())
    &&& str_field(v->Obj_0, k_topic())
    &&& str_field(v->Obj_0, k_difficulty())
    &&& num_field(v->Obj_0, k_questions_per_session())
    &&& num_field(v->Obj_0, k_current_question_index())
    &&& obj_lookup(v->Obj_0, k_questions()) is Some
    &&& obj_lookup(v->Obj_0, k_questions())->Some_0 is Arr
    &&& questions_shape(obj_lookup(v->Obj_0, k_questions())->Some_0->Arr_0)
    &&& str_field(v->Obj_0, k_start_time())
    &&& obj_lookup(v->Obj_0, k_scores()) is Some
    &&& obj_lookup(v->Obj_0, k_scores())->Some_0 is Arr
    &&& num_items(obj_lookup(v->Obj_0, k_scores())->Some_0->Arr_0)
}

pub open spec fn session_of(v: JVal) -> SessionV {
    SessionV {
        session_id: str_field_val(v->Obj_0, k_session_id()),
        topic: str_field_val(v->Obj_0, k_topic()),
        difficulty: str_field_val(v->Obj_0, k_difficulty()),
        questions_per_session: num_field_val(v->Obj_0, k_questions_per_session()),
        current_question_index: num_field_val(v->Obj_0, k_current_question_index()),
        questions: obj_lookup(v->Obj_0, k_questions())->Some_0->Arr_0.map_values(
            |q: JVal| question_of(q),
        ),
        start_time: str_field_val(v->Obj_0, k_start_time()),
        scores: obj_lookup(v->Obj_0, k_scores())->Some_0->Arr_0.map_values(
            |e: JVal| e->Num_0,
        ),
    }
}

// ---------------------------------------------------------------------------
// Reading a parsed value as a session.
// ---------------------------------------------------------------------------

/// Relies on String::from_utf8: succeeds exactly on valid UTF-8 and
/// returns the text those bytes encode.
#[verifier::external_body]
fn string_from_utf8(b: Vec<u8>) -> (r: Option<String>)
    ensures
        r matches Some(s) ==> valid_utf8(b@) && s@ == decode_utf8(b@),
        r is None ==> !valid_utf8(b@),
{
    String::from_utf8(b).ok()
}

/// Looks up a string member and decodes it.
fn get_str_field(ps: &Vec<(Vec<u8>, JsonValue)>, key: Vec<u8>) -> (r: Option<String>)
    ensures
        r matches Some(s) ==> str_field(jmembers_of(ps@), key@) && s@ == str_field_val(
            jmembers_of(ps@),
            key@,
        ),
        r is None ==> !str_field(jmembers_of(ps@), key@),
{
    match crate::dispatch::obj_get(ps, key.as_slice()) {
        Some(v) => match v {
            JsonValue::Str(b) => string_from_utf8(b),
            _ => None,
        },
        None => None,
    }
}

/// Looks up a counter member and reads its digits.
fn get_num_field(ps: &Vec<(Vec<u8>, JsonValue)>, key: Vec<u8>) -> (r: Option<usize>)
    ensures
        r matches Some(n) ==> num_field(jmembers_of(ps@), key@) && n == num_field_val(
            jmembers_of(ps@),
            key@,
        ),
        r is None ==> !num_field(jmembers_of(ps@), key@),
{
    match crate::dispatch::obj_get(ps, key.as_slice()) {
        Some(v) => match v {
            JsonValue::Num(l) => parse_dec(l.as_slice()),
            _ => None,
        },
        None => None,
    }
}

/// Reads one value as a question.
pub fn parse_question(v: &JsonValue) -> (r: Option<Question>)
    ensures
        r matches Some(q) ==> question_shape(v@) && q@ == question_of(v@),
        r is None ==> !question_shape(v@),
{
    let ps = match v {
        JsonValue::Obj(ps) => ps,
        _ => {
            return None;
        },
    };
    let id = match get_str_field(ps, kv_q_id()) {
        Some(s) => s,
        None => {
            return None;
        },
    };
    let title = match get_str_field(ps, kv_title()) {
        Some(s) => s,
        None => {
            return None;
        },
    };
    let description = match get_str_field(ps, kv_q_description()) {
        Some(s) => s,
        None => {
            return None;
        },
    };
    let reqs_v = match crate::dispatch::obj_get(ps, kv_requirements().as_slice()) {
        Some(rv) => match rv {
            JsonValue::Arr(es) => es,
            _ => {
                return None;
            },
        },
        None => {
            return None;
        },
    };
    let ghost ges = jvals_of(reqs_v@);
    proof {
        lemma_jvals_of(reqs_v@);
    }
    assert(obj_lookup(jmembers_of(ps@), k_requirements()) == Some(JVal::Arr(ges)));
    let mut requirements: Vec<String> = Vec::new();
    let rn = reqs_v.len();
    let mut i: usize = 0;
    while i < rn
        invariant
            *v == JsonValue::Obj(*ps),
            obj_lookup(jmembers_of(ps@), k_requirements()) == Some(JVal::Arr(ges)),
            rn == reqs_v@.len(),
            ges == jvals_of(reqs_v@),
            ges.len() == rn,
            forall|k: int| 0 <= k < rn ==> ges[k] == jval_of(reqs_v@[k]),
            0 <= i <= rn,
            requirements@.len() == i,
            str_items(ges.take(i as int)),
            forall|k: int| 0 <= k < i ==> (#[trigger] requirements@[k])@ == decode_utf8(
                ges[k]->Str_0),
        decreases rn - i,
    {
        let item = match &reqs_v[i] {
            JsonValue::Str(b) => match string_from_utf8(clone_bytes(b)) {
                Some(s) => s,
                None => {
                    proof {
                        assert(ges[i as int] == jval_of(reqs_v@[i as int]));
                        assert(!str_item(ges[i as int]));
                        assert(!str_items(ges)) by {
                            if str_items(ges) {
                                lemma_str_items_elem(ges, i as int);
                            }
                        }
                        assert(v@ == JVal::Obj(jmembers_of(ps@)));
                        assert(!question_shape(v@));
                    }
                    return None;
                },
            },
            _ => {
                proof {
                    assert(ges[i as int] == jval_of(reqs_v@[i as int]));
                    assert(!str_item(ges[i as int]));
                    assert(!str_items(ges)) by {
                        if str_items(ges) {
                            lemma_str_items_elem(ges, i as int);
                        }
                    }
                    assert(v@ == JVal::Obj(jmembers_of(ps@)));
                    assert(!question_shape(v@));
                }
                return None;
            },
        };
        requirements.push(item);
        proof {
            assert(ges.take(i + 1) =~= ges.take(i as int).push(ges[i as int]));
            lemma_str_items_push(ges.take(i as int), ges[i as int]);
        }
        i += 1;
    }
    assert(ges.take(rn as int) =~= ges);
    assert(str_items(ges));
    assert(requirements.deep_view() =~~= str_items_val(ges));
    let examples = match get_str_field(ps, kv_examples()) {
        Some(s) => s,
        None => {
            return None;
        },
    };
    let starter_code = match get_str_field(ps, kv_starter_code()) {
        Some(s) => s,
        None => {
            return None;
        },
    };
    let difficulty = match get_str_field(ps, kv_q_difficulty()) {
        Some(s) => s,
        None => {
            return None;
        },
    };
    let topic = match get_str_field(ps, kv_q_topic()) {
        Some(s) => s,
        None => {
            return None;
        },
    };
    let q = Question {
        id,
        title,
        description,
        requirements,
        examples,
        starter_code,
        difficulty,
        topic,
    };
    assert(q@ == question_of(v@));
    Some(q)
}

/// Reads a parsed value as the whole document.
pub fn parse_session_value(v: &JsonValue) -> (r: Option<Session>)
    ensures
        r matches Some(sess) ==> session_shape(v@) && sess@ == session_of(v@),
        r is None ==> !session_shape(v@),
{
    let ps = match v {
        JsonValue::Obj(ps) => ps,
        _ => {
            return None;
        },
    };
    let session_id = match get_str_field(ps, kv_session_id()) {
        Some(s) => s,
        None => {
            return None;
        },
    };
    let topic = match get_str_field(ps, kv_q_topic()) {
        Some(s) => s,
        None => {
            return None;
        },
    };
    let difficulty = match get_str_field(ps, kv_q_difficulty()) {
        Some(s) => s,
        None => {
            return None;
        },
    };
    let questions_per_session = match get_num_field(ps, kv_questions_per_session()) {
        Some(n) => n,
        None => {
            return None;
        },
    };
    let current_question_index = match get_num_field(ps, kv_current_question_index()) {
        Some(n) => n,
        None => {
            return None;
        },
    };
    let qs_v = match crate::dispatch::obj_get(ps, kv_questions().as_slice()) {
        Some(qv) => match qv {
            JsonValue::Arr(es) => es,
            _ => {
                return None;
            },
        },
        None => {
            return None;
        },
    };
    let ghost gqs = jvals_of(qs_v@);
    proof {
        lemma_jvals_of(qs_v@);
    }
    assert(obj_lookup(jmembers_of(ps@), k_questions()) == Some(JVal::Arr(gqs)));
    let mut questions: Vec<Question> = Vec::new();
    let qn = qs_v.len();
    let mut i: usize = 0;
    while i < qn
        invariant
            *v == JsonValue::Obj(*ps),
            obj_lookup(jmembers_of(ps@), k_questions()) == Some(JVal::Arr(gqs)),
            qn == qs_v@.len(),
            gqs == jvals_of(qs_v@),
            gqs.len() == qn,
            forall|k: int| 0 <= k < qn ==> gqs[k] == jval_of(qs_v@[k]),
            0 <= i <= qn,
            questions@.len() == i,
            questions_shape(gqs.take(i as int)),
            forall|k: int| 0 <= k < i ==> (#[trigger] questions@[k])@ == question_of(gqs[k]),
        decreases qn - i,
    {
        match parse_question(&qs_v[i]) {
            Some(q) => {
                questions.push(q);
            },
            None => {
                proof {
                    assert(!question_shape(gqs[i as int]));
                    assert(v@ == JVal::Obj(jmembers_of(ps@)));
                    assert(!session_shape(v@)) by {
                        if session_shape(v@) {
                            assert(obj_lookup(jmembers_of(ps@), k_questions())
                                == Some(JVal::Arr(gqs)));
                            lemma_questions_shape_elem(gqs, i as int);
                        }
                    }
                }
                return None;
            },
        }
        proof {
            assert(gqs.take(i + 1) =~= gqs.take(i as int).push(gqs[i as int]));
            lemma_questions_shape_push(gqs.take(i as int), gqs[i as int]);
        }
        i += 1;
    }
    assert(gqs.take(qn as int) =~= gqs);
    assert(questions_shape(gqs));
    let start_time = match get_str_field(ps, kv_start_time()) {
        Some(s) => s,
        None => {
            return None;
        },
    };
    let ss_v = match crate::dispatch::obj_get(ps, kv_scores().as_slice()) {
        Some(sv) => match sv {
            JsonValue::Arr(es) => es,
            _ => {
                return None;
            },
        },
        None => {
            return None;
        },
    };
    let ghost gss = jvals_of(ss_v@);
    proof {
        lemma_jvals_of(ss_v@);
    }
    assert(obj_lookup(jmembers_of(ps@), k_scores()) == Some(JVal::Arr(gss)));
    let mut scores: Vec<Vec<u8>> = Vec::new();
    let sn = ss_v.len();
    let mut j: usize = 0;
    while j < sn
        invariant
            *v == JsonValue::Obj(*ps),
            obj_lookup(jmembers_of(ps@), k_scores()) == Some(JVal::Arr(gss)),
            sn == ss_v@.len(),
            gss == jvals_of(ss_v@),
            gss.len() == sn,
            forall|k: int| 0 <= k < sn ==> gss[k] == jval_of(ss_v@[k]),
            0 <= j <= sn,
            scores@.len() == j,
            num_items(gss.take(j as int)),
            forall|k: int| 0 <= k < j ==> (#[trigger] scores@[k])@ == gss[k]->Num_0,
        decreases sn - j,
    {
        match &ss_v[j] {
            JsonValue::Num(l) => {
                scores.push(clone_bytes(l));
            },
            _ => {
                proof {
                    assert(gss[j as int] == jval_of(ss_v@[j as int]));
                    assert(!(gss[j as int] is Num));
                    assert(!num_items(gss)) by {
                        if num_items(gss) {
                            lemma_num_items_elem(gss, j as int);
                        }
                    }
                    assert(v@ == JVal::Obj(jmembers_of(ps@)));
                    assert(!session_shape(v@));
                }
                return None;
            },
        }
        proof {
            assert(gss.take(j + 1) =~= gss.take(j as int).push(gss[j as int]));
            lemma_num_items_push(gss.take(j as int), gss[j as int]);
        }
        j += 1;
    }
    assert(gss.take(sn as int) =~= gss);
    assert(num_items(gss));
    let sess = Session {
        session_id,
        topic,
        difficulty,
        questions_per_session,
        current_question_index,
        questions,
        start_time,
        scores,
    };
    proof {
        assert(crate::session::questions_view(questions@) =~= gqs.map_values(
            |q: JVal| question_of(q)));
        assert(scores.deep_view() =~~= gss.map_values(|e: JVal| e->Num_0));
    }
    assert(sess@ == session_of(v@));
    Some(sess)
}

// ---------------------------------------------------------------------------
// Writing the document.
// ---------------------------------------------------------------------------

/// The document value written for one question.
pub open spec fn question_jval(q: QuestionV) -> JVal {
    JVal::Obj(
        seq![
            (k_id(), str_jval(q.id)),
            (k_title(), str_jval(q.title)),
            (k_description(), str_jval(q.description)),
            (k_requirements(), JVal::Arr(q.requirements.map_values(|s: Seq<char>| str_jval(s)))),
            (k_examples(), str_jval(q.examples)),
            (k_starter_code(), str_jval(q.starter_code)),
            (k_difficulty(), str_jval(q.difficulty)),
            (k_topic(), str_jval(q.topic)),
        ],
    )
}

/// The document value written for the whole session.
pub open spec fn session_jval(s: SessionV) -> JVal {
    JVal::Obj(
        seq![
            (k_session_id(), str_jval(s.session_id)),
            (k_topic(), str_jval(s.topic)),
            (k_difficulty(), str_jval(s.difficulty)),
            (k_questions_per_session(), JVal::Num(dec_of(s.questions_per_session))),
            (k_current_question_index(), JVal::Num(dec_of(s.current_question_index))),
            (k_questions(), JVal::Arr(s.questions.map_values(|q: QuestionV| question_jval(q)))),
            (k_start_time(), str_jval(s.start_time)),
            (k_scores(), JVal::Arr(s.scores.map_values(|l: Seq<u8>| JVal::Num(l)))),
        ],
    )
}

fn string_to_value(s: &String) -> (r: JsonValue)
    ensures
        r@ == str_jval(s@),
{
    JsonValue::Str(s.as_str().as_bytes_vec())
}

/// Builds the document value for one question.
pub fn question_to_value(q: &Question) -> (r: JsonValue)
    ensures
        r@ == question_jval(q@),
{
    let mut reqs: Vec<JsonValue> = Vec::new();
    let rn = q.requirements.len();
    let mut i: usize = 0;
    while i < rn
        invariant
            rn == q.requirements@.len(),
            0 <= i <= rn,
            reqs@.len() == i,
            forall|k: int| 0 <= k < i ==> jval_of(#[trigger] reqs@[k]) == str_jval(
                q.requirements@[k]@),
        decreases rn - i,
    {
        reqs.push(string_to_value(&q.requirements[i]));
        i += 1;
    }
    proof {
        lemma_jvals_of(reqs@);
        assert(jvals_of(reqs@) =~= q@.requirements.map_values(|s: Seq<char>| str_jval(s)));
    }
    let mut ps: Vec<(Vec<u8>, JsonValue)> = Vec::new();
    ps.push((kv_q_id(), string_to_value(&q.id)));
    ps.push((kv_title(), string_to_value(&q.title)));
    ps.push((kv_q_description(), string_to_value(&q.description)));
    ps.push((kv_requirements(), JsonValue::Arr(reqs)));
    ps.push((kv_examples(), string_to_value(&q.examples)));
    ps.push((kv_starter_code(), string_to_value(&q.starter_code)));
    ps.push((kv_q_difficulty(), string_to_value(&q.difficulty)));
    ps.push((kv_q_topic(), string_to_value(&q.topic)));
    proof {
        lemma_jmembers_of(ps@);
        assert(jmembers_of(ps@) =~= question_jval(q@)->Obj_0);
    }
    JsonValue::Obj(ps)
}

fn questions_to_values(qs: &Vec<Question>) -> (r: Vec<JsonValue>)
    ensures
        jvals_of(r@) == crate::session::questions_view(qs@).map_values(
            |q: QuestionV| question_jval(q),
        ),
{
    let mut out: Vec<JsonValue> = Vec::new();
    let qn = qs.len();
    let mut i: usize = 0;
    while i < qn
        invariant
            qn == qs@.len(),
            0 <= i <= qn,
            out@.len() == i,
            forall|k: int| 0 <= k < i ==> jval_of(#[trigger] out@[k]) == question_jval(
                qs@[k]@),
        decreases qn - i,
    {
        out.push(question_to_value(&qs[i]));
        i += 1;
    }
    proof {
        lemma_jvals_of(out@);
        assert(jvals_of(out@) =~= crate::session::questions_view(qs@).map_values(
            |q: QuestionV| question_jval(q)));
    }
    out
}

fn scores_to_values(sc: &Vec<Vec<u8>>) -> (r: Vec<JsonValue>)
    ensures
        jvals_of(r@) == sc.deep_view().map_values(|l: Seq<u8>| JVal::Num(l)),
{
    let mut out: Vec<JsonValue> = Vec::new();
    let sn = sc.len();
    let mut j: usize = 0;
    while j < sn
        invariant
            sn == sc@.len(),
            0 <= j <= sn,
            out@.len() == j,
            forall|k: int| 0 <= k < j ==> jval_of(#[trigger] out@[k]) == JVal::Num(
                sc@[k]@),
        decreases sn - j,
    {
        out.push(JsonValue::Num(clone_bytes(&sc[j])));
        j += 1;
    }
    proof {
        lemma_jvals_of(out@);
        assert(forall|k: int| 0 <= k < sc@.len() ==> (#[trigger] sc@[k].deep_view())
            =~= sc@[k]@);
        assert(jvals_of(out@) =~= sc.deep_view().map_values(|l: Seq<u8>| JVal::Num(l)));
    }
    out
}

/// Builds the whole document value.
pub fn session_to_value(s: &Session) -> (r: JsonValue)
    ensures
        r@ == session_jval(s@),
{
    let qs = questions_to_values(&s.questions);
    let ss = scores_to_values(&s.scores);
    let ghost gq = jvals_of(qs@);
    let ghost gs = jvals_of(ss@);
    let mut ps: Vec<(Vec<u8>, JsonValue)> = Vec::new();
    ps.push((kv_session_id(), string_to_value(&s.session_id)));
    ps.push((kv_q_topic(), string_to_value(&s.topic)));
    ps.push((kv_q_difficulty(), string_to_value(&s.difficulty)));
    ps.push((kv_questions_per_session(), JsonValue::Num(usize_to_dec(s.questions_per_session))));
    ps.push((kv_current_question_index(), JsonValue::Num(usize_to_dec(
        s.current_question_index))));
    ps.push((kv_questions(), JsonValue::Arr(qs)));
    ps.push((kv_start_time(), string_to_value(&s.start_time)));
    ps.push((kv_scores(), JsonValue::Arr(ss)));
    proof {
        lemma_jmembers_of(ps@);
        assert(jmembers_of(ps@) =~= session_jval(s@)->Obj_0);
    }
    JsonValue::Obj(ps)
}

/// One line of text holding the whole document.
pub fn serialize_session(s: &Session) -> (r: Vec<u8>)
    ensures
        r@ == ser(session_jval(s@)),
{
    let v = session_to_value(s);
    serialize_value(&v)
}

impl Session {
    /// A copy equal to this session in every field.
    pub fn duplicate(&self) -> (r: Session)
        ensures
            r@ == self@,
    {
        let mut questions: Vec<Question> = Vec::new();
        let qn = self.questions.len();
        let mut i: usize = 0;
        while i < qn
            invariant
                qn == self.questions@.len(),
                0 <= i <= qn,
                questions@.len() == i,
                forall|k: int| 0 <= k < i ==> (#[trigger] questions@[k])@
                    == self.questions@[k]@,
            decreases qn - i,
        {
            questions.push(self.questions[i].duplicate());
            i += 1;
        }
        let mut scores: Vec<Vec<u8>> = Vec::new();
        let sn = self.scores.len();
        let mut j: usize = 0;
        while j < sn
            invariant
                sn == self.scores@.len(),
                0 <= j <= sn,
                scores@.len() == j,
                forall|k: int| 0 <= k < j ==> (#[trigger] scores@[k])@ == self.scores@[k]@,
            decreases sn - j,
        {
            scores.push(clone_bytes(&self.scores[j]));
            j += 1;
        }
        let r = Session {
            session_id: self.session_id.clone(),
            topic: self.topic.clone(),
            difficulty: self.difficulty.clone(),
            questions_per_session: self.questions_per_session,
            current_question_index: self.current_question_index,
            questions,
            start_time: self.start_time.clone(),
            scores,
        };
        proof {
            assert(crate::session::questions_view(r.questions@) =~= crate::session::questions_view(
                self.questions@));
            assert(r.scores.deep_view() =~~= self.scores.deep_view());
        }
        assert(r@ == self@);
        r
    }
}

/// A canonical, well-formed document: the exact serialized form of a
/// session-shaped value.
pub open spec fn doc_at(doc: Seq<u8>, v: JVal) -> bool {
    &&& valid_jval(v)
    &&& session_shape(v)
    &&& ser(v) == doc
}

impl<S> AppState<S> {
    /// Reads the document text and replaces the in-memory sequence
    /// wholesale with the session it holds; the loaded session also comes
    /// back to the caller. Insignificant whitespace in the text (a
    /// pretty-printed document) is ignored, and loading a canonical
    /// session document always succeeds. The ghost part carries the
    /// document value. A malformed document is rejected and nothing
    /// changes.
    pub fn load_session(&mut self, doc: &[u8]) -> (r: (
        Result<Session, &'static str>,
        Ghost<JVal>,
    ))
        ensures
            final(self).pending_requests == old(self).pending_requests,
            r.0 matches Ok(sess) ==> {
                &&& ser(r.1@) == doc@ || ser(r.1@) == strip_ws_spec(doc@, false, false)
                &&& session_shape(r.1@)
                &&& sess@ == session_of(r.1@)
                &&& final(self).session matches Some(s2) && s2@ == sess@
            },
            r.0 is Err ==> final(self).session == old(self).session,
            r.0 matches Err(m) ==> m@ == "Failed to parse session JSON"@,
            forall|v: JVal| #[trigger] doc_at(doc@, v) ==> (r.0 matches Ok(sess) && sess@
                == session_of(v)),
    {
        let w = match parse_value_line(doc) {
            Some(w) => w,
            None => {
                proof {
                    assert forall|v: JVal| #[trigger] doc_at(doc@, v) implies false by {
                        assert(doc@ == ser(v));
                    }
                }
                match parse_value_text(doc) {
                    Some(w) => w,
                    None => {
                        return (Err("Failed to parse session JSON"), Ghost(JVal::Null));
                    },
                }
            },
        };
        proof {
            assert forall|v: JVal| #[trigger] doc_at(doc@, v) implies w@ == v by {
                assert(doc@ == ser(v));
            }
        }
        let sess = match parse_session_value(&w) {
            Some(s) => s,
            None => {
                proof {
                    assert forall|v: JVal| #[trigger] doc_at(doc@, v) implies false by {
                        assert(w@ == v);
                        assert(session_shape(w@));
                    }
                }
                return (Err("Failed to parse session JSON"), Ghost(JVal::Null));
            },
        };
        let copy = sess.duplicate();
        self.session = Some(sess);
        (Ok(copy), Ghost(w@))
    }

    /// The document text for the loaded session, to be persisted after a
    /// cursor move; nothing when no session is loaded.
    pub fn session_document(&self) -> (r: Option<Vec<u8>>)
        ensures
            match self.session {
                Some(s) => r matches Some(out) && out@ == ser(session_jval(s@)),
                None => r is None,
            },
    {
        match &self.session {
            Some(s) => Some(serialize_session(s)),
            None => None,
        }
    }
}

// ---------------------------------------------------------------------------
// Persist-then-read identity: the document written for a session reads
// back as the very same session value.
// ---------------------------------------------------------------------------

proof fn lemma_dec_of(n: int)
    requires
        0 <= n,
    ensures
        dec_of(n).len() > 0,
        all_digits(dec_of(n)),
        num_val(dec_of(n)) == n,
    decreases n,
{
    if n < 10 {
        reveal_with_fuel(num_val, 2);
        reveal_with_fuel(dec_of, 2);
        assert(dec_of(n) =~= seq![(48 + n) as u8]);
        assert(dec_of(n).drop_last() =~= Seq::<u8>::empty());
        assert(num_val(dec_of(n)) == n);
    } else {
        lemma_dec_of(n / 10);
        assert(dec_of(n) == dec_of(n / 10).push((48 + n % 10) as u8));
        assert(dec_of(n).drop_last() =~= dec_of(n / 10));
        assert(all_digits(dec_of(n))) by {
            assert(forall|j: int|
                0 <= j < dec_of(n / 10).len() ==> dec_of(n)[j] == dec_of(n / 10)[j]);
            assert(dec_of(n).last() == (48 + n % 10) as u8);
        }
        assert(num_val(dec_of(n)) == (n / 10) * 10 + n % 10);
    }
}

proof fn lemma_str_round_trip(x: Seq<char>)
    ensures
        str_jval(x) is Str,
        valid_utf8(str_jval(x)->Str_0),
        decode_utf8(str_jval(x)->Str_0) == x,
{
    vstd::utf8::encode_utf8_valid_utf8(x);
    vstd::utf8::encode_utf8_decode_utf8(x);
}

proof fn lemma_reqs_round_trip(rs: Seq<Seq<char>>)
    ensures
        str_items(rs.map_values(|t: Seq<char>| str_jval(t))),
        str_items_val(rs.map_values(|t: Seq<char>| str_jval(t))) == rs,
    decreases rs.len(),
{
    let m = rs.map_values(|t: Seq<char>| str_jval(t));
    if rs.len() == 0 {
        assert(str_items_val(m) =~= rs);
    } else {
        lemma_reqs_round_trip(rs.drop_last());
        assert(m.drop_last() =~= rs.drop_last().map_values(|t: Seq<char>| str_jval(t)));
        assert(m.last() == str_jval(rs.last()));
        lemma_str_round_trip(rs.last());
        assert(str_item(m.last()));
        assert(str_items(m));
        assert(str_items_val(m) =~= rs) by {
            assert(forall|j: int| 0 <= j < rs.len() ==> m[j] == str_jval(rs[j]));
            assert(forall|j: int|
                0 <= j < rs.len() ==> #[trigger] str_items_val(m)[j] == decode_utf8(
                    str_jval(rs[j])->Str_0));
            assert(forall|j: int| 0 <= j < rs.len() ==> decode_utf8(
                #[trigger] str_jval(rs[j])->Str_0) == rs[j]) by {
                assert forall|j: int| 0 <= j < rs.len() implies decode_utf8(
                    #[trigger] str_jval(rs[j])->Str_0) == rs[j] by {
                    lemma_str_round_trip(rs[j]);
                }
            }
        }
    }
}

proof fn lemma_scores_round_trip(sc: Seq<Seq<u8>>)
    ensures
        num_items(sc.map_values(|l: Seq<u8>| JVal::Num(l))),
        sc.map_values(|l: Seq<u8>| JVal::Num(l)).map_values(|e: JVal| e->Num_0) == sc,
    decreases sc.len(),
{
    let m = sc.map_values(|l: Seq<u8>| JVal::Num(l));
    if sc.len() == 0 {
        assert(m.map_values(|e: JVal| e->Num_0) =~= sc);
    } else {
        lemma_scores_round_trip(sc.drop_last());
        assert(m.drop_last() =~= sc.drop_last().map_values(|l: Seq<u8>| JVal::Num(l)));
        assert(m.last() == JVal::Num(sc.last()));
        assert(num_items(m));
        assert(m.map_values(|e: JVal| e->Num_0) =~= sc);
    }
}

/// The value written for a question is question-shaped and reads back as
/// the same question.
pub proof fn lemma_question_round_trip(q: QuestionV)
    ensures
        question_shape(question_jval(q)),
        question_of(question_jval(q)) == q,
{
    let ms = question_jval(q)->Obj_0;
    assert(k_id().len() == 2);
    assert(k_title().len() == 5);
    assert(k_description().len() == 11);
    assert(k_requirements().len() == 12);
    assert(k_examples().len() == 8);
    assert(k_starter_code().len() == 12);
    assert(k_difficulty().len() == 10);
    assert(k_topic().len() == 5);
    assert(k_id() != k_title());
    assert(k_title() != k_topic()) by {
        assert(k_title()[1] == 105);
        assert(k_topic()[1] == 111);
    }
    assert(k_requirements() != k_starter_code()) by {
        assert(k_requirements()[0] == 114);
        assert(k_starter_code()[0] == 115);
    }
    lemma_obj_lookup_at(ms, k_id(), 0);
    lemma_obj_lookup_at(ms, k_title(), 1);
    lemma_obj_lookup_at(ms, k_description(), 2);
    lemma_obj_lookup_at(ms, k_requirements(), 3);
    lemma_obj_lookup_at(ms, k_examples(), 4);
    lemma_obj_lookup_at(ms, k_starter_code(), 5);
    lemma_obj_lookup_at(ms, k_difficulty(), 6);
    lemma_obj_lookup_at(ms, k_topic(), 7);
    lemma_str_round_trip(q.id);
    lemma_str_round_trip(q.title);
    lemma_str_round_trip(q.description);
    lemma_str_round_trip(q.examples);
    lemma_str_round_trip(q.starter_code);
    lemma_str_round_trip(q.difficulty);
    lemma_str_round_trip(q.topic);
    lemma_reqs_round_trip(q.requirements);
}

proof fn lemma_questions_round_trip(qs: Seq<QuestionV>)
    ensures
        questions_shape(qs.map_values(|q: QuestionV| question_jval(q))),
        qs.map_values(|q: QuestionV| question_jval(q)).map_values(|v: JVal| question_of(v))
            == qs,
    decreases qs.len(),
{
    let m = qs.map_values(|q: QuestionV| question_jval(q));
    if qs.len() == 0 {
        assert(m.map_values(|v: JVal| question_of(v)) =~= qs);
    } else {
        lemma_questions_round_trip(qs.drop_last());
        assert(m.drop_last() =~= qs.drop_last().map_values(|q: QuestionV| question_jval(q)));
        assert(m.last() == question_jval(qs.last()));
        lemma_question_round_trip(qs.last());
        assert(questions_shape(m));
        let back = m.map_values(|v: JVal| question_of(v));
        assert forall|j: int| 0 <= j < qs.len() implies #[trigger] back[j] == qs[j] by {
            assert(m[j] == question_jval(qs[j]));
            lemma_question_round_trip(qs[j]);
        }
        assert(back =~= qs);
    }
}

/// Persist-then-read identity: the document value written for a session is
/// session-shaped, and reading it back yields the same session value. With
/// `session_document` and `load_session` this says a document persisted
/// after a cursor move is read back unchanged by a later load.
pub proof fn lemma_session_round_trip(s: SessionV)
    requires
        0 <= s.questions_per_session <= usize::MAX,
        0 <= s.current_question_index <= usize::MAX,
    ensures
        session_shape(session_jval(s)),
        session_of(session_jval(s)) == s,
{
    let ms = session_jval(s)->Obj_0;
    assert(k_session_id().len() == 10);
    assert(k_topic().len() == 5);
    assert(k_difficulty().len() == 10);
    assert(k_questions_per_session().len() == 21);
    assert(k_current_question_index().len() == 22);
    assert(k_questions().len() == 9);
    assert(k_start_time().len() == 10);
    assert(k_scores().len() == 6);
    assert(k_session_id() != k_difficulty()) by {
        assert(k_session_id()[0] == 115);
        assert(k_difficulty()[0] == 100);
    }
    assert(k_session_id() != k_start_time()) by {
        assert(k_session_id()[1] == 101);
        assert(k_start_time()[1] == 116);
    }
    assert(k_difficulty() != k_start_time()) by {
        assert(k_difficulty()[0] == 100);
        assert(k_start_time()[0] == 115);
    }
    lemma_obj_lookup_at(ms, k_session_id(), 0);
    lemma_obj_lookup_at(ms, k_topic(), 1);
    lemma_obj_lookup_at(ms, k_difficulty(), 2);
    lemma_obj_lookup_at(ms, k_questions_per_session(), 3);
    lemma_obj_lookup_at(ms, k_current_question_index(), 4);
    lemma_obj_lookup_at(ms, k_questions(), 5);
    lemma_obj_lookup_at(ms, k_start_time(), 6);
    lemma_obj_lookup_at(ms, k_scores(), 7);
    lemma_str_round_trip(s.session_id);
    lemma_str_round_trip(s.topic);
    lemma_str_round_trip(s.difficulty);
    lemma_str_round_trip(s.start_time);
    lemma_dec_of(s.questions_per_session);
    lemma_dec_of(s.current_question_index);
    lemma_questions_round_trip(s.questions);
    lemma_scores_round_trip(s.scores);
}

// ---------------------------------------------------------------------------
// The written document is well formed, so persist-then-load composes.
// ---------------------------------------------------------------------------

proof fn lemma_members_all_valid(ms: Seq<(Seq<u8>, JVal)>)
    requires
        forall|k: int| 0 <= k < ms.len() ==> valid_jval((#[trigger] ms[k]).1),
    ensures
        valid_jmembers(ms),
    decreases ms.len(),
{
    if ms.len() > 0 {
        assert(forall|k: int| 0 <= k < ms.len() - 1 ==> ms.drop_last()[k] == ms[k]);
        lemma_members_all_valid(ms.drop_last());
        assert(valid_jval(ms.last().1));
    }
}

proof fn lemma_list_all_valid(es: Seq<JVal>)
    requires
        forall|k: int| 0 <= k < es.len() ==> valid_jval(#[trigger] es[k]),
    ensures
        valid_jlist(es),
    decreases es.len(),
{
    if es.len() > 0 {
        assert(forall|k: int| 0 <= k < es.len() - 1 ==> es.drop_last()[k] == es[k]);
        lemma_list_all_valid(es.drop_last());
        assert(valid_jval(es.last()));
    }
}

proof fn lemma_dec_of_valid_num(n: int)
    requires
        0 <= n,
    ensures
        valid_num(dec_of(n)),
{
    lemma_dec_of(n);
    assert(is_digit(dec_of(n)[0]));
    assert(dec_of(n)[0] != 45);
    assert(valid_num_body(dec_of(n)));
}

proof fn lemma_question_jval_valid(q: QuestionV)
    ensures
        valid_jval(question_jval(q)),
{
    let rm = q.requirements.map_values(|t: Seq<char>| str_jval(t));
    assert forall|k: int| 0 <= k < rm.len() implies valid_jval(#[trigger] rm[k]) by {
        assert(rm[k] == str_jval(q.requirements[k]));
    }
    lemma_list_all_valid(rm);
    let ms = question_jval(q)->Obj_0;
    assert forall|k: int| 0 <= k < ms.len() implies valid_jval((#[trigger] ms[k]).1) by {
        if k == 3 {
            assert(ms[3].1 == JVal::Arr(rm));
        }
    }
    lemma_members_all_valid(ms);
}

/// The document value written for a session is well formed, provided each
/// score is a number lexeme.
pub proof fn lemma_session_jval_valid(s: SessionV)
    requires
        0 <= s.questions_per_session,
        0 <= s.current_question_index,
        forall|k: int| 0 <= k < s.scores.len() ==> valid_num(#[trigger] s.scores[k]),
    ensures
        valid_jval(session_jval(s)),
{
    let qm = s.questions.map_values(|q: QuestionV| question_jval(q));
    assert forall|k: int| 0 <= k < qm.len() implies valid_jval(#[trigger] qm[k]) by {
        assert(qm[k] == question_jval(s.questions[k]));
        lemma_question_jval_valid(s.questions[k]);
    }
    lemma_list_all_valid(qm);
    let sm = s.scores.map_values(|l: Seq<u8>| JVal::Num(l));
    assert forall|k: int| 0 <= k < sm.len() implies valid_jval(#[trigger] sm[k]) by {
        assert(sm[k] == JVal::Num(s.scores[k]));
    }
    lemma_list_all_valid(sm);
    lemma_dec_of_valid_num(s.questions_per_session);
    lemma_dec_of_valid_num(s.current_question_index);
    let ms = session_jval(s)->Obj_0;
    assert forall|k: int| 0 <= k < ms.len() implies valid_jval((#[trigger] ms[k]).1) by {
        if k == 5 {
            assert(ms[5].1 == JVal::Arr(qm));
        }
        if k == 7 {
            assert(ms[7].1 == JVal::Arr(sm));
        }
    }
    lemma_members_all_valid(ms);
}

/// Persist-then-load, whole: the bytes written for a session form a
/// canonical well-formed document, and the session value they read back
/// as is the very session they were written for. With `session_document`
/// and `load_session`'s contracts this fixes that a document persisted
/// after a cursor move is loaded back unchanged.
pub proof fn lemma_persist_then_load(s: SessionV)
    requires
        0 <= s.questions_per_session <= usize::MAX,
        0 <= s.current_question_index <= usize::MAX,
        forall|k: int| 0 <= k < s.scores.len() ==> valid_num(#[trigger] s.scores[k]),
    ensures
        doc_at(ser(session_jval(s)), session_jval(s)),
        session_of(session_jval(s)) == s,
{
    lemma_session_round_trip(s);
    lemma_session_jval_valid(s);
}

} // verus!
