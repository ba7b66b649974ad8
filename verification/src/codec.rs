//! Envelope codec: serializes a structured value to one line of JSON text
//! and parses such a line back. The transport is line-delimited, so the
//! serializer's output never holds a newline. The parser reads the
//! serializer's canonical form, with insignificant whitespace between
//! tokens ignored: an accepted value re-serializes to the very bytes it
//! was read from, whitespace removed, and every canonical line parses
//! back to exactly the value it serializes.

use vstd::prelude::*;
use crate::value::{JVal, JsonValue, jval_of, jvals_of, jmembers_of, lemma_jvals_of, lemma_jmembers_of, lemma_jvals_of_push, lemma_jmembers_of_push, lemma_arr_valid_elem, lemma_obj_valid_elem, is_digit, all_digits, valid_num, valid_num_body, valid_jval, valid_jlist, valid_jmembers, lemma_valid_jlist_push, lemma_valid_jmembers_push};

verus! {

broadcast use vstd::std_specs::vec::group_vec_axioms;

/// Lower-case hex digit for a nibble.
pub open spec fn hex_digit(n: u8) -> u8 {
    if n < 10 {
        (48 + n) as u8
    } else {
        (87 + n) as u8
    }
}

/// How one content byte appears inside a serialized string.
pub open spec fn esc_byte(b: u8) -> Seq<u8> {
    if b == 34 {
        seq![92u8, 34u8]
    } else if b == 92 {
        seq![92u8, 92u8]
    } else if b == 10 {
        seq![92u8, 110u8]
    } else if b == 13 {
        seq![92u8, 114u8]
    } else if b == 9 {
        seq![92u8, 116u8]
    } else if b < 32 {
        seq![92u8, 117u8, 48u8, 48u8, hex_digit(b / 16), hex_digit(b % 16)]
    } else {
        seq![b]
    }
}

pub open spec fn esc(s: Seq<u8>) -> Seq<u8>
    decreases s.len(),
{
    if s.len() == 0 {
        Seq::empty()
    } else {
        esc_byte(s[0]) + esc(s.drop_first())
    }
}

pub proof fn lemma_esc_push(s: Seq<u8>, b: u8)
    ensures
        esc(s.push(b)) == esc(s) + esc_byte(b),
    decreases s.len(),
{
    if s.len() == 0 {
        reveal_with_fuel(esc, 2);
        assert(s.push(b).drop_first() =~= Seq::<u8>::empty());
        assert(s.push(b)[0] == b);
        assert(esc(s.push(b)) =~= esc_byte(b));
        assert(esc(s) + esc_byte(b) =~= esc_byte(b));
    } else {
        assert(s.push(b).drop_first() =~= s.drop_first().push(b));
        lemma_esc_push(s.drop_first(), b);
        assert(esc(s.push(b)) =~= esc(s) + esc_byte(b));
    }
}

/// The canonical serialized form of a value.
pub open spec fn ser(v: JVal) -> Seq<u8>
    decreases v,
{
    match v {
        JVal::Null => seq![110u8, 117u8, 108u8, 108u8],
        JVal::Bool(b) => if b {
            seq![116u8, 114u8, 117u8, 101u8]
        } else {
            seq![102u8, 97u8, 108u8, 115u8, 101u8]
        },
        JVal::Num(l) => l,
        JVal::Str(s) => seq![34u8] + esc(s) + seq![34u8],
        JVal::Arr(es) => seq![91u8] + ser_elems(es) + seq![93u8],
        JVal::Obj(ps) => seq![123u8] + ser_members(ps) + seq![125u8],
    }
}

pub open spec fn ser_elems(es: Seq<JVal>) -> Seq<u8>
    decreases es,
{
    if es.len() == 0 {
        Seq::empty()
    } else if es.len() == 1 {
        ser(es[0])
    } else {
        ser(es[0]) + seq![44u8] + ser_elems(es.drop_first())
    }
}

pub open spec fn ser_member(p: (Seq<u8>, JVal)) -> Seq<u8>
    decreases p,
{
    seq![34u8] + esc(p.0) + seq![34u8, 58u8] + ser(p.1)
}

pub open spec fn ser_members(ps: Seq<(Seq<u8>, JVal)>) -> Seq<u8>
    decreases ps,
{
    if ps.len() == 0 {
        Seq::empty()
    } else if ps.len() == 1 {
        ser_member(ps[0])
    } else {
        ser_member(ps[0]) + seq![44u8] + ser_members(ps.drop_first())
    }
}

pub proof fn lemma_ser_elems_push(es: Seq<JVal>, v: JVal)
    ensures
        ser_elems(es.push(v)) == if es.len() == 0 {
            ser(v)
        } else {
            ser_elems(es) + seq![44u8] + ser(v)
        },
    decreases es.len(),
{
    if es.len() == 0 {
        assert(es.push(v).len() == 1);
        assert(es.push(v)[0] == v);
    } else {
        assert(es.push(v).drop_first() =~= es.drop_first().push(v));
        lemma_ser_elems_push(es.drop_first(), v);
        if es.len() == 1 {
            assert(ser_elems(es.push(v)) =~= ser_elems(es) + seq![44u8] + ser(v));
        } else {
            assert(ser_elems(es.push(v)) =~= ser_elems(es) + seq![44u8] + ser(v));
        }
    }
}

pub proof fn lemma_ser_members_push(ps: Seq<(Seq<u8>, JVal)>, p: (Seq<u8>, JVal))
    ensures
        ser_members(ps.push(p)) == if ps.len() == 0 {
            ser_member(p)
        } else {
            ser_members(ps) + seq![44u8] + ser_member(p)
        },
    decreases ps.len(),
{
    if ps.len() == 0 {
        assert(ps.push(p)[0] == p);
    } else {
        assert(ps.push(p).drop_first() =~= ps.drop_first().push(p));
        lemma_ser_members_push(ps.drop_first(), p);
        assert(ser_members(ps.push(p)) =~= ser_members(ps) + seq![44u8] + ser_member(p));
    }
}

fn hex_digit_exec(n: u8) -> (r: u8)
    requires
        n < 16,
    ensures
        r == hex_digit(n),
{
    if n < 10 {
        48 + n
    } else {
        87 + n
    }
}

/// Appends the escaped form of a string body.
fn write_escaped(s: &[u8], out: &mut Vec<u8>)
    ensures
        final(out)@ == old(out)@ + esc(s@),
{
    let n = s.len();
    let mut i: usize = 0;
    assert(out@ =~= old(out)@ + esc(s@.take(0)));
    while i < n
        invariant
            n == s@.len(),
            0 <= i <= n,
            out@ == old(out)@ + esc(s@.take(i as int)),
        decreases n - i,
    {
        let b = s[i];
        if b == 34 {
            out.push(92);
            out.push(34);
        } else if b == 92 {
            out.push(92);
            out.push(92);
        } else if b == 10 {
            out.push(92);
            out.push(110);
        } else if b == 13 {
            out.push(92);
            out.push(114);
        } else if b == 9 {
            out.push(92);
            out.push(116);
        } else if b < 32 {
            out.push(92);
            out.push(117);
            out.push(48);
            out.push(48);
            out.push(hex_digit_exec(b / 16));
            out.push(hex_digit_exec(b % 16));
        } else {
            out.push(b);
        }
        proof {
            assert(s@.take(i + 1) =~= s@.take(i as int).push(s@[i as int]));
            lemma_esc_push(s@.take(i as int), s@[i as int]);
            assert(out@ =~= old(out)@ + esc(s@.take(i + 1)));
        }
        i += 1;
    }
    assert(s@.take(n as int) =~= s@);
}

/// Appends the canonical serialized form of `v`.
pub fn write_value(v: &JsonValue, out: &mut Vec<u8>)
    ensures
        final(out)@ == old(out)@ + ser(v@),
    decreases *v,
{
    match v {
        JsonValue::Null => {
            out.push(110);
            out.push(117);
            out.push(108);
            out.push(108);
            assert(out@ =~= old(out)@ + ser(v@));
        },
        JsonValue::Bool(b) => {
            if *b {
                out.push(116);
                out.push(114);
                out.push(117);
                out.push(101);
            } else {
                out.push(102);
                out.push(97);
                out.push(108);
                out.push(115);
                out.push(101);
            }
            assert(out@ =~= old(out)@ + ser(v@));
        },
        JsonValue::Num(l) => {
            let n = l.len();
            let mut i: usize = 0;
            assert(out@ =~= old(out)@ + l@.take(0));
            while i < n
                invariant
                    n == l@.len(),
                    0 <= i <= n,
                    out@ == old(out)@ + l@.take(i as int),
                decreases n - i,
            {
                out.push(l[i]);
                assert(out@ =~= old(out)@ + l@.take(i + 1));
                i += 1;
            }
            assert(l@.take(n as int) =~= l@);
        },
        JsonValue::Str(s) => {
            out.push(34);
            write_escaped(s.as_slice(), out);
            out.push(34);
            assert(out@ =~= old(out)@ + ser(v@));
        },
        JsonValue::Arr(es) => {
            out.push(91);
            let ghost base = out@;
            let n = es.len();
            let mut i: usize = 0;
            proof {
                lemma_jvals_of(es@);
            }
            assert(jvals_of(es@).take(0) =~= Seq::<JVal>::empty());
            while i < n
                invariant
                    *v == JsonValue::Arr(*es),
                    n == es@.len(),
                    0 <= i <= n,
                    jvals_of(es@).len() == n,
                    forall|k: int| 0 <= k < n ==> jvals_of(es@)[k] == jval_of(es@[k]),
                    out@ == base + ser_elems(jvals_of(es@).take(i as int)),
                decreases n - i,
            {
                if i > 0 {
                    out.push(44);
                }
                proof {
                    assert(decreases_to!(*v => v->Arr_0));
                    assert(decreases_to!(*es => es[i as int]));
                }
                write_value(&es[i], out);
                proof {
                    let vs = jvals_of(es@);
                    assert(vs.take(i + 1) =~= vs.take(i as int).push(vs[i as int]));
                    lemma_ser_elems_push(vs.take(i as int), vs[i as int]);
                }
                i += 1;
            }
            out.push(93);
            proof {
                assert(jvals_of(es@).take(n as int) =~= jvals_of(es@));
                assert(out@ =~= old(out)@ + ser(v@));
            }
        },
        JsonValue::Obj(ps) => {
            out.push(123);
            let ghost base = out@;
            let n = ps.len();
            let mut i: usize = 0;
            proof {
                lemma_jmembers_of(ps@);
            }
            assert(jmembers_of(ps@).take(0) =~= Seq::<(Seq<u8>, JVal)>::empty());
            while i < n
                invariant
                    *v == JsonValue::Obj(*ps),
                    n == ps@.len(),
                    0 <= i <= n,
                    jmembers_of(ps@).len() == n,
                    forall|k: int| 0 <= k < n
                        ==> jmembers_of(ps@)[k] == (ps@[k].0@, jval_of(ps@[k].1)),
                    out@ == base + ser_members(jmembers_of(ps@).take(i as int)),
                decreases n - i,
            {
                if i > 0 {
                    out.push(44);
                }
                out.push(34);
                write_escaped(ps[i].0.as_slice(), out);
                out.push(34);
                out.push(58);
                proof {
                    assert(decreases_to!(*v => v->Obj_0));
                    assert(decreases_to!(*ps => ps[i as int]));
                    assert(decreases_to!(ps[i as int] => ps[i as int].1));
                }
                write_value(&ps[i].1, out);
                proof {
                    let ms = jmembers_of(ps@);
                    assert(ms.take(i + 1) =~= ms.take(i as int).push(ms[i as int]));
                    lemma_ser_members_push(ms.take(i as int), ms[i as int]);
                    assert(out@ =~= base + ser_members(ms.take(i + 1)));
                }
                i += 1;
            }
            out.push(125);
            proof {
                assert(jmembers_of(ps@).take(n as int) =~= jmembers_of(ps@));
                assert(out@ =~= old(out)@ + ser(v@));
            }
        },
    }
}

/// One line of text for `v`: its canonical serialized form.
pub fn serialize_value(v: &JsonValue) -> (r: Vec<u8>)
    ensures
        r@ == ser(v@),
{
    let mut out: Vec<u8> = Vec::new();
    write_value(v, &mut out);
    out
}

/// Value of a lower-case hex digit.
fn hex_val(c: u8) -> (r: Option<u8>)
    ensures
        r matches Some(n) ==> n < 16 && hex_digit(n) == c,
        r is None ==> forall|m: u8| m < 16 ==> hex_digit(m) != c,
{
    if 48 <= c && c <= 57 {
        Some(c - 48)
    } else if 97 <= c && c <= 102 {
        Some(c - 87)
    } else {
        None
    }
}

/// Parses a string, from its opening quote. Returns the unescaped content
/// and the index just past the closing quote.
/// The collected content is a prefix of the target content.
pub open spec fn cs_prefix(c: Seq<u8>, cs: Seq<u8>) -> bool {
    c.len() <= cs.len() && c == cs.take(c.len() as int)
}

/// First and second bytes of one escape tile.
proof fn lemma_esc_byte_first(x: u8)
    ensures
        esc_byte(x).len() >= 1,
        (x == 34 || x == 92 || x == 10 || x == 13 || x == 9 || x < 32) ==> (esc_byte(x)[0]
            == 92 && esc_byte(x).len() >= 2),
        !(x == 34 || x == 92 || x == 10 || x == 13 || x == 9 || x < 32) ==> esc_byte(x)
            == seq![x],
        esc_byte(x)[0] != 34,
        x == 34 ==> esc_byte(x)[1] == 34,
        x == 92 ==> esc_byte(x)[1] == 92,
        x == 10 ==> esc_byte(x)[1] == 110,
        x == 13 ==> esc_byte(x)[1] == 114,
        x == 9 ==> esc_byte(x)[1] == 116,
        (x < 32 && x != 10 && x != 13 && x != 9) ==> esc_byte(x) == seq![
            92u8,
            117u8,
            48u8,
            48u8,
            hex_digit(x / 16),
            hex_digit(x % 16),
        ],
{
}

/// Where the parser stands against a string target: either the content is
/// done and the closing quote is next, or the next bytes are the escape
/// tile of the next target byte.
proof fn lemma_str_target_step(s: Seq<u8>, i: int, pos: int, c: Seq<u8>, cs: Seq<u8>)
    requires
        str_at(s, i, cs),
        cs_prefix(c, cs),
        pos == i + 1 + esc(c).len(),
    ensures
        c.len() == cs.len() ==> (pos == i + 1 + esc(cs).len() && s[pos] == 34),
        c.len() < cs.len() ==> {
            let x = cs[c.len() as int];
            &&& esc(cs) == esc(c) + esc_byte(x) + esc(cs.skip(c.len() as int + 1))
            &&& pos + esc_byte(x).len() <= i + 1 + esc(cs).len()
            &&& forall|t: int| 0 <= t < esc_byte(x).len() ==> s[pos + t] == esc_byte(x)[t]
        },
{
    let k = c.len() as int;
    lemma_esc_cat(cs, k);
    if k == cs.len() {
        assert(cs.take(k) =~= cs);
        assert(esc(c).len() == esc(cs).len());
    } else {
        let x = cs[k];
        assert(cs.skip(k)[0] == x);
        assert(cs.skip(k).drop_first() =~= cs.skip(k + 1));
        assert(esc(cs.skip(k)) == esc_byte(x) + esc(cs.skip(k + 1)));
        assert(esc(cs) =~= esc(c) + (esc_byte(x) + esc(cs.skip(k + 1))));
        assert(esc(cs).len() == esc(c).len() + esc_byte(x).len() + esc(cs.skip(
            k + 1,
        )).len());
        assert forall|t: int| 0 <= t < esc_byte(x).len() implies s[pos + t] == esc_byte(
            x,
        )[t] by {
            assert(s.subrange(i + 1, i + 1 + esc(cs).len())[esc(c).len() + t] == s[pos
                + t]);
            assert(esc(cs)[esc(c).len() + t] == esc_byte(x)[t]);
        }
    }
}

/// Parses a string, from its opening quote. Returns the unescaped content
/// and the index just past the closing quote. Every canonical string
/// literal is accepted and yields exactly its content.
#[verifier::rlimit(100)]
fn parse_string(s: &[u8], i: usize) -> (r: Option<(Vec<u8>, usize)>)
    requires
        i < s@.len(),
        s@[i as int] == 34,
    ensures
        r matches Some((c, j)) ==> {
            &&& i < j <= s@.len()
            &&& s@.subrange(i as int, j as int) == seq![34u8] + esc(c@) + seq![34u8]
        },
        forall|cs: Seq<u8>| #[trigger] str_at(s@, i as int, cs) ==> (r matches Some((c, j))
            && c@ == cs && j == i + 2 + esc(cs).len()),
{
    let n = s.len();
    let mut pos: usize = i + 1;
    let mut content: Vec<u8> = Vec::new();
    assert(s@.subrange(i + 1, i + 1) =~= esc(content@));
    assert forall|cs: Seq<u8>| #[trigger] str_at(s@, i as int, cs) implies cs_prefix(
        content@,
        cs,
    ) by {
        assert(cs.take(0) =~= Seq::<u8>::empty());
    }
    loop
        invariant
            n == s@.len(),
            i < s@.len(),
            s@[i as int] == 34,
            i + 1 <= pos <= n,
            s@.subrange(i + 1, pos as int) == esc(content@),
            forall|cs: Seq<u8>| #[trigger] str_at(s@, i as int, cs) ==> cs_prefix(
                content@,
                cs,
            ),
        decreases n - pos,
    {
        proof {
            assert forall|cs: Seq<u8>| #[trigger] str_at(s@, i as int, cs) implies (
            content@.len() == cs.len() ==> (pos == i + 1 + esc(cs).len() && s@[pos as int]
                == 34)) && (content@.len() < cs.len() ==> {
                let x = cs[content@.len() as int];
                &&& pos + esc_byte(x).len() <= i + 1 + esc(cs).len()
                &&& forall|t: int| 0 <= t < esc_byte(x).len() ==> s@[pos + t] == esc_byte(
                    x,
                )[t]
            }) by {
                lemma_str_target_step(s@, i as int, pos as int, content@, cs);
            }
        }
        if pos >= n {
            proof {
                assert forall|cs: Seq<u8>| #[trigger] str_at(s@, i as int, cs) implies
                    false by {
                    lemma_esc_byte_first(cs[content@.len() as int]);
                }
            }
            return None;
        }
        let b = s[pos];
        if b == 34 {
            let j = pos + 1;
            assert(s@.subrange(i as int, j as int) =~= seq![34u8] + esc(content@) + seq![34u8]);
            proof {
                assert forall|cs: Seq<u8>| #[trigger] str_at(s@, i as int, cs) implies (
                content@ == cs && j == i + 2 + esc(cs).len()) by {
                    lemma_esc_byte_first(cs[content@.len() as int]);
                    if content@.len() < cs.len() {
                        assert(s@[pos as int] == esc_byte(cs[content@.len() as int])[0]);
                        assert(false);
                    }
                    assert(cs.take(cs.len() as int) =~= cs);
                }
            }
            return Some((content, j));
        } else if b == 92 {
            proof {
                assert forall|cs: Seq<u8>| #[trigger] str_at(s@, i as int, cs) implies (
                content@.len() < cs.len() && {
                    let x = cs[content@.len() as int];
                    (x == 34 || x == 92 || x == 10 || x == 13 || x == 9 || x < 32)
                        && esc_byte(x)[1] == s@[pos + 1] && pos + esc_byte(x).len() <= i + 1
                        + esc(cs).len() && i + 2 + esc(cs).len() <= n
                }) by {
                    lemma_esc_byte_first(cs[content@.len() as int]);
                    if content@.len() == cs.len() {
                        assert(false);
                    }
                }
            }
            if pos + 1 >= n {
                proof {
                    assert forall|cs: Seq<u8>| #[trigger] str_at(s@, i as int, cs) implies
                        false by {
                        lemma_esc_byte_first(cs[content@.len() as int]);
                    }
                }
                return None;
            }
            let e = s[pos + 1];
            let ghost old_content = content@;
            if e == 34 || e == 92 {
                content.push(e);
                proof {
                    lemma_esc_push(old_content, e);
                    assert(s@.subrange(i + 1, pos + 2) =~= esc(old_content) + esc_byte(e));
                    assert forall|cs: Seq<u8>| #[trigger] str_at(s@, i as int, cs) implies
                        cs_prefix(content@, cs) by {
                        let x = cs[old_content.len() as int];
                        lemma_esc_byte_first(x);
                        assert(x == e);
                        assert(cs.take(old_content.len() as int + 1) =~= cs.take(
                            old_content.len() as int).push(x));
                    }
                }
                pos = pos + 2;
            } else if e == 110 {
                content.push(10);
                proof {
                    lemma_esc_push(old_content, 10);
                    assert(s@.subrange(i + 1, pos + 2) =~= esc(old_content) + esc_byte(10));
                    assert forall|cs: Seq<u8>| #[trigger] str_at(s@, i as int, cs) implies
                        cs_prefix(content@, cs) by {
                        let x = cs[old_content.len() as int];
                        lemma_esc_byte_first(x);
                        assert(x == 10);
                        assert(cs.take(old_content.len() as int + 1) =~= cs.take(
                            old_content.len() as int).push(x));
                    }
                }
                pos = pos + 2;
            } else if e == 114 {
                content.push(13);
                proof {
                    lemma_esc_push(old_content, 13);
                    assert(s@.subrange(i + 1, pos + 2) =~= esc(old_content) + esc_byte(13));
                    assert forall|cs: Seq<u8>| #[trigger] str_at(s@, i as int, cs) implies
                        cs_prefix(content@, cs) by {
                        let x = cs[old_content.len() as int];
                        lemma_esc_byte_first(x);
                        assert(x == 13);
                        assert(cs.take(old_content.len() as int + 1) =~= cs.take(
                            old_content.len() as int).push(x));
                    }
                }
                pos = pos + 2;
            } else if e == 116 {
                content.push(9);
                proof {
                    lemma_esc_push(old_content, 9);
                    assert(s@.subrange(i + 1, pos + 2) =~= esc(old_content) + esc_byte(9));
                    assert forall|cs: Seq<u8>| #[trigger] str_at(s@, i as int, cs) implies
                        cs_prefix(content@, cs) by {
                        let x = cs[old_content.len() as int];
                        lemma_esc_byte_first(x);
                        assert(x == 9);
                        assert(cs.take(old_content.len() as int + 1) =~= cs.take(
                            old_content.len() as int).push(x));
                    }
                }
                pos = pos + 2;
            } else if e == 117 {
                proof {
                    assert forall|cs: Seq<u8>| #[trigger] str_at(s@, i as int, cs) implies {
                        let x = cs[content@.len() as int];
                        x < 32 && x != 10 && x != 13 && x != 9 && s@[pos + 2] == 48 && s@[
                            pos + 3] == 48 && s@[pos + 4] == hex_digit(x / 16) && s@[pos + 5]
                            == hex_digit(x % 16) && pos + 6 <= n
                    } by {
                        let x = cs[content@.len() as int];
                        lemma_esc_byte_first(x);
                    }
                }
                if n - pos < 6 {
                    proof {
                        assert forall|cs: Seq<u8>| #[trigger] str_at(s@, i as int, cs)
                            implies false by {
                            lemma_esc_byte_first(cs[content@.len() as int]);
                        }
                    }
                    return None;
                }
                if s[pos + 2] != 48 || s[pos + 3] != 48 {
                    return None;
                }
                let hi = s[pos + 4];
                if hi != 48 && hi != 49 {
                    proof {
                        assert forall|cs: Seq<u8>| #[trigger] str_at(s@, i as int, cs)
                            implies false by {
                            let x = cs[content@.len() as int];
                            assert(hex_digit(x / 16) == 48 || hex_digit(x / 16) == 49);
                        }
                    }
                    return None;
                }
                let x: u8 = if hi == 48 { 0 } else { 1 };
                let y = match hex_val(s[pos + 5]) {
                    Some(y) => y,
                    None => {
                        proof {
                            assert forall|cs: Seq<u8>| #[trigger] str_at(s@, i as int, cs)
                                implies false by {
                                let xc = cs[content@.len() as int];
                                assert(xc % 16 < 16);
                                assert(hex_digit(xc % 16) == s@[pos + 5]);
                            }
                        }
                        return None;
                    },
                };
                let val = x * 16 + y;
                if val >= 32 || val == 9 || val == 10 || val == 13 {
                    proof {
                        assert forall|cs: Seq<u8>| #[trigger] str_at(s@, i as int, cs)
                            implies false by {
                            let xc = cs[content@.len() as int];
                            assert(hex_digit(xc / 16) == hi);
                            assert(x == xc / 16) by {
                                if xc / 16 < 10 {
                                } else {
                                }
                            }
                            assert(hex_digit(xc % 16) == hex_digit(y));
                            assert(y == xc % 16);
                            assert(val == xc);
                        }
                    }
                    return None;
                }
                assert(val / 16 == x && val % 16 == y);
                assert(esc_byte(val) =~= seq![92u8, 117u8, 48u8, 48u8, hi, s@[pos + 5]]) by {
                    assert(hex_digit(x) == hi);
                }
                content.push(val);
                proof {
                    lemma_esc_push(old_content, val);
                    assert(s@.subrange(i + 1, pos + 6) =~= esc(old_content) + esc_byte(val));
                    assert forall|cs: Seq<u8>| #[trigger] str_at(s@, i as int, cs) implies
                        cs_prefix(content@, cs) by {
                        let xc = cs[old_content.len() as int];
                        lemma_esc_byte_first(xc);
                        assert(hex_digit(xc / 16) == hi);
                        assert(x == xc / 16);
                        assert(hex_digit(xc % 16) == hex_digit(y));
                        assert(y == xc % 16);
                        assert(val == xc);
                        assert(cs.take(old_content.len() as int + 1) =~= cs.take(
                            old_content.len() as int).push(xc));
                    }
                }
                pos = pos + 6;
            } else {
                proof {
                    assert forall|cs: Seq<u8>| #[trigger] str_at(s@, i as int, cs) implies
                        false by {
                        lemma_esc_byte_first(cs[content@.len() as int]);
                    }
                }
                return None;
            }
        } else if b < 32 {
            proof {
                assert forall|cs: Seq<u8>| #[trigger] str_at(s@, i as int, cs) implies
                    false by {
                    lemma_esc_byte_first(cs[content@.len() as int]);
                    if content@.len() == cs.len() {
                        assert(s@[pos as int] == 34);
                    } else {
                        assert(s@[pos as int] == esc_byte(cs[content@.len() as int])[0]);
                    }
                }
            }
            return None;
        } else {
            let ghost old_content = content@;
            content.push(b);
            proof {
                lemma_esc_push(old_content, b);
                assert(s@.subrange(i + 1, pos + 1) =~= esc(old_content) + esc_byte(b));
                assert forall|cs: Seq<u8>| #[trigger] str_at(s@, i as int, cs) implies
                    cs_prefix(content@, cs) by {
                    let x = cs[old_content.len() as int];
                    lemma_esc_byte_first(x);
                    if old_content.len() == cs.len() {
                        assert(false);
                    }
                    assert(esc_byte(x)[0] == b);
                    assert(x == b);
                    assert(cs.take(old_content.len() as int + 1) =~= cs.take(
                        old_content.len() as int).push(x));
                }
            }
            pos = pos + 1;
        }
    }
}

/// The sign width of a number lexeme.
pub open spec fn num_sign(l: Seq<u8>) -> int {
    if l.len() > 0 && l[0] == 45 {
        1
    } else {
        0
    }
}

/// The lexeme without its sign.
pub open spec fn num_body_of(l: Seq<u8>) -> Seq<u8> {
    if l.len() > 0 && l[0] == 45 {
        l.drop_first()
    } else {
        l
    }
}

/// Whether the lexeme has a fractional part.
pub open spec fn num_has_dot(l: Seq<u8>) -> bool {
    exists|k: int| 0 <= k < num_body_of(l).len() && num_body_of(l)[k] == 46
}

/// The digit count before the dot (the whole body when there is none).
pub open spec fn num_intlen(l: Seq<u8>) -> int {
    if num_has_dot(l) {
        choose|k: int| 0 <= k < num_body_of(l).len() && num_body_of(l)[k] == 46
    } else {
        num_body_of(l).len() as int
    }
}

/// What a well-formed lexeme looks like around its parts.
proof fn lemma_num_decompose(l: Seq<u8>)
    requires
        valid_num(l),
    ensures
        num_body_of(l).len() >= 1,
        l.len() == num_sign(l) + num_body_of(l).len(),
        1 <= num_intlen(l) <= num_body_of(l).len(),
        forall|t: int| 0 <= t < num_intlen(l) ==> is_digit(#[trigger] l[num_sign(l) + t]),
        num_has_dot(l) ==> {
            &&& num_intlen(l) < num_body_of(l).len() - 1
            &&& l[num_sign(l) + num_intlen(l)] == 46
            &&& forall|t: int|
                num_sign(l) + num_intlen(l) + 1 <= t < l.len() ==> is_digit(#[trigger] l[t])
        },
        !num_has_dot(l) ==> num_intlen(l) == num_body_of(l).len(),
{
    let body = num_body_of(l);
    let sg = num_sign(l);
    assert(valid_num_body(body));
    assert forall|t: int| 0 <= t < body.len() implies #[trigger] body[t] == l[sg + t] by {
    }
    if body.len() > 0 && all_digits(body) {
        assert(!num_has_dot(l)) by {
            if num_has_dot(l) {
                let k = choose|k: int| 0 <= k < num_body_of(l).len() && num_body_of(l)[k]
                    == 46;
                assert(is_digit(body[k]));
            }
        }
        assert forall|t: int| 0 <= t < num_intlen(l) implies is_digit(#[trigger] l[sg
            + t]) by {
            assert(body[t] == l[sg + t]);
            assert(is_digit(body[t]));
        }
    } else {
        let dk = choose|k: int|
            1 <= k < body.len() - 1 && body[k] == 46 && all_digits(
                #[trigger] body.subrange(0, k),
            ) && all_digits(body.subrange(k + 1, body.len() as int));
        assert(num_has_dot(l)) by {
            assert(0 <= dk < num_body_of(l).len() && num_body_of(l)[dk] == 46);
        }
        let m = num_intlen(l);
        assert(0 <= m < num_body_of(l).len() && num_body_of(l)[m] == 46) by {
            assert(exists|k: int|
                0 <= k < num_body_of(l).len() && #[trigger] num_body_of(l)[k] == 46);
        }
        assert(m == dk) by {
            if m < dk {
                assert(body.subrange(0, dk)[m] == body[m]);
                assert(is_digit(body.subrange(0, dk)[m]));
            }
            if m > dk {
                assert(body.subrange(dk + 1, body.len() as int)[m - dk - 1] == body[m]);
                assert(is_digit(body.subrange(dk + 1, body.len() as int)[m - dk - 1]));
            }
        }
        assert forall|t: int| 0 <= t < num_intlen(l) implies is_digit(#[trigger] l[sg
            + t]) by {
            assert(body.subrange(0, dk)[t] == body[t]);
            assert(is_digit(body.subrange(0, dk)[t]));
            assert(body[t] == l[sg + t]);
        }
        assert(l[sg + m] == 46);
        assert forall|t: int| sg + m + 1 <= t < l.len() implies is_digit(
            #[trigger] l[t]) by {
            let bt = t - sg;
            assert(body.subrange(dk + 1, body.len() as int)[bt - dk - 1] == body[bt]);
            assert(is_digit(body.subrange(dk + 1, body.len() as int)[bt - dk - 1]));
            assert(body[bt] == l[t]);
        }
    }
}

/// For a number target at `i`: its bytes stand in the input.
proof fn lemma_num_target_bytes(s: Seq<u8>, i: int, l: Seq<u8>)
    requires
        num_at(s, i, l),
    ensures
        forall|t: int| 0 <= t < l.len() ==> l[t] == #[trigger] s[i + t],
{
    assert forall|t: int| 0 <= t < l.len() implies l[t] == #[trigger] s[i + t] by {
        assert(s.subrange(i, i + l.len())[t] == s[i + t]);
    }
}

/// Parses a number lexeme: an optional minus sign, digits, and an optional
/// fractional part. Every canonical lexeme followed by a delimiter is
/// accepted whole.
#[verifier::rlimit(100)]
fn parse_number(s: &[u8], i: usize) -> (r: Option<(Vec<u8>, usize)>)
    requires
        i < s@.len(),
    ensures
        r matches Some((l, j)) ==> {
            &&& i < j <= s@.len()
            &&& s@.subrange(i as int, j as int) == l@
            &&& valid_num(l@)
        },
        forall|l: Seq<u8>| #[trigger] num_at(s@, i as int, l) ==> (r matches Some((lex, j))
            && lex@ == l && j == i + l.len()),
{
    let n = s.len();
    let mut pos: usize = i;
    if s[pos] == 45 {
        pos = pos + 1;
    }
    let ds = pos;
    proof {
        assert forall|l: Seq<u8>| #[trigger] num_at(s@, i as int, l) implies (ds == i
            + num_sign(l) && num_body_of(l).len() > 0) by {
            lemma_num_target_bytes(s@, i as int, l);
            assert(s@[i as int] == l[0]);
        }
    }
    while pos < n && 48 <= s[pos] && s[pos] <= 57
        invariant
            n == s@.len(),
            ds <= pos <= n,
            forall|k: int| ds <= k < pos ==> is_digit(#[trigger] s@[k]),
        decreases n - pos,
    {
        pos = pos + 1;
    }
    proof {
        assert forall|l: Seq<u8>| #[trigger] num_at(s@, i as int, l) implies pos == ds
            + num_intlen(l) by {
            lemma_num_target_bytes(s@, i as int, l);
            lemma_num_decompose(l);
            let sg = num_sign(l);
            let m = num_intlen(l);
            assert(ds == i + sg);
            assert forall|t: int| 0 <= t < m implies is_digit(#[trigger] s@[ds + t]) by {
                assert(is_digit(l[sg + t]));
                assert(l[sg + t] == s@[i + (sg + t)]);
            }
            if pos < ds + m {
                assert(is_digit(s@[ds + (pos - ds)]));
            }
            if pos > ds + m {
                assert(is_digit(s@[ds + m])) by {
                    assert(ds + m < pos);
                }
                if num_has_dot(l) {
                    assert(l[sg + m] == 46);
                    assert(s@[ds + m] == l[sg + m]);
                } else {
                    assert(ds + m == i + l.len());
                    assert(ds + m < pos <= n);
                    assert(!is_digit(s@[i + l.len()]));
                }
            }
        }
    }
    if pos == ds {
        proof {
            assert forall|l: Seq<u8>| #[trigger] num_at(s@, i as int, l) implies false by {
                lemma_num_decompose(l);
            }
        }
        return None;
    }
    let mut end = pos;
    let ghost mut frac_seen: bool = false;
    if pos < n && s[pos] == 46 {
        let fs = pos + 1;
        let mut p2 = fs;
        while p2 < n && 48 <= s[p2] && s[p2] <= 57
            invariant
                n == s@.len(),
                fs <= p2 <= n,
                forall|k: int| fs <= k < p2 ==> is_digit(#[trigger] s@[k]),
            decreases n - p2,
        {
            p2 = p2 + 1;
        }
        proof {
            assert forall|l: Seq<u8>| #[trigger] num_at(s@, i as int, l) implies (
            num_has_dot(l) && p2 == i + l.len()) by {
                lemma_num_target_bytes(s@, i as int, l);
                lemma_num_decompose(l);
                let sg = num_sign(l);
                let m = num_intlen(l);
                if !num_has_dot(l) {
                    assert(pos == i + l.len());
                    assert(s@[pos as int] == 46);
                    assert(false);
                }
                assert(s@[pos as int] == l[sg + m]);
                assert(forall|t: int|
                    sg + m + 1 <= t < l.len() ==> is_digit(#[trigger] s@[i + t]));
                if p2 < i + l.len() {
                    assert(is_digit(s@[i + (p2 - i)]));
                }
                if p2 > i + l.len() {
                    assert(is_digit(s@[i + l.len()]));
                }
            }
        }
        if p2 == fs {
            proof {
                assert forall|l: Seq<u8>| #[trigger] num_at(s@, i as int, l) implies
                    false by {
                    lemma_num_decompose(l);
                }
            }
            return None;
        }
        end = p2;
        proof {
            frac_seen = true;
        }
        assert(s@[pos as int] == 46);
        assert(forall|k: int| fs <= k < end ==> is_digit(#[trigger] s@[k]));
    }
    proof {
        assert forall|l: Seq<u8>| #[trigger] num_at(s@, i as int, l) implies end == i
            + l.len() by {
            lemma_num_target_bytes(s@, i as int, l);
            lemma_num_decompose(l);
            if !frac_seen {
                if num_has_dot(l) {
                    assert(pos == ds + num_intlen(l));
                    assert(s@[pos as int] == l[num_sign(l) + num_intlen(l)]);
                    assert(s@[pos as int] == 46);
                    assert(pos < n);
                    assert(false);
                }
                assert(pos == i + l.len());
            }
        }
    }
    let mut lex: Vec<u8> = Vec::new();
    let mut k: usize = i;
    while k < end
        invariant
            n == s@.len(),
            i <= k <= end <= n,
            lex@ == s@.subrange(i as int, k as int),
        decreases end - k,
    {
        lex.push(s[k]);
        assert(s@.subrange(i as int, k + 1) =~= s@.subrange(i as int, k as int).push(s@[k as int]));
        k = k + 1;
    }
    proof {
        let l = lex@;
        let body = if l[0] == 45 { l.drop_first() } else { l };
        let bstart = if l[0] == 45 { i + 1 } else { i as int };
        assert(body =~= s@.subrange(bstart, end as int));
        if frac_seen {
            let dk = pos - bstart;
            assert(body[dk as int] == 46);
            assert(body.subrange(0, dk as int) =~= s@.subrange(bstart, pos as int));
            assert(body.subrange(dk + 1, body.len() as int) =~= s@.subrange(pos + 1, end as int));
            assert(valid_num_body(body));
        } else {
            assert(body =~= s@.subrange(ds as int, pos as int));
            assert(valid_num_body(body));
        }
        assert forall|l2: Seq<u8>| #[trigger] num_at(s@, i as int, l2) implies lex@ == l2 by {
            lemma_num_target_bytes(s@, i as int, l2);
            assert(end == i + l2.len());
            assert(lex@ =~= l2);
        }
    }
    Some((lex, end))
}

/// Parses one value starting at `i` in canonical form; returns it with the
/// index just past it. An accepted value is well formed and re-serializes
/// to exactly the consumed bytes.
/// For a value target at `i`: its bytes stand in the input.
proof fn lemma_val_target_bytes(s: Seq<u8>, i: int, u: JVal)
    requires
        val_at(s, i, u),
    ensures
        forall|t: int| 0 <= t < ser(u).len() ==> #[trigger] ser(u)[t] == s[i + t],
{
    assert forall|t: int| 0 <= t < ser(u).len() implies #[trigger] ser(u)[t] == s[i + t] by {
        assert(s.subrange(i, i + ser(u).len())[t] == s[i + t]);
    }
}

/// The input's first byte names the target's variant.
proof fn lemma_val_target_variant(s: Seq<u8>, i: int, u: JVal)
    requires
        val_at(s, i, u),
    ensures
        i < s.len(),
        ser(u).len() > 0,
        s[i] == ser(u)[0],
        s[i] == 110 ==> u == JVal::Null,
        s[i] == 116 ==> u == JVal::Bool(true),
        s[i] == 102 ==> u == JVal::Bool(false),
        s[i] == 34 ==> u is Str,
        (s[i] == 45 || is_digit(s[i])) ==> u is Num,
        s[i] == 91 ==> u is Arr,
        s[i] == 123 ==> u is Obj,
{
    lemma_ser_first(u);
    lemma_val_target_bytes(s, i, u);
    assert(ser(u)[0] == s[i + 0]);
}

/// Where the element loop stands against an array target: either all
/// elements are in and the closing bracket is next, or a comma and the
/// next element follow.
proof fn lemma_arr_target_step(s: Seq<u8>, i: int, pos: int, ev: Seq<JVal>, u: JVal)
    requires
        val_at(s, i, u),
        u is Arr,
        1 <= ev.len() <= u->Arr_0.len(),
        ev == u->Arr_0.take(ev.len() as int),
        pos == i + 1 + ser_elems(ev).len(),
    ensures
        pos < s.len(),
        ev.len() == u->Arr_0.len() ==> (s[pos] == 93 && pos + 1 == i + ser(u).len()),
        ev.len() < u->Arr_0.len() ==> {
            let fs = u->Arr_0;
            let k = ev.len() as int;
            &&& s[pos] == 44
            &&& val_at(s, pos + 1, fs[k])
            &&& pos + 1 + ser(fs[k]).len() == i + 1 + ser_elems(fs.take(k + 1)).len()
        },
{
    let fs = u->Arr_0;
    let k = ev.len() as int;
    lemma_val_target_bytes(s, i, u);
    assert(ser(u) == seq![91u8] + ser_elems(fs) + seq![93u8]);
    lemma_ser_elems_split(fs, k);
    assert(ser_elems(ev) == ser_elems(fs.take(k)));
    if k == fs.len() {
        assert(fs.take(k) =~= fs);
        assert(ser(u)[1 + ser_elems(fs).len() as int] == 93);
        assert(s[pos] == 93);
        assert(pos + 1 == i + ser(u).len());
    } else {
        assert(ser_elems(fs) == ser_elems(fs.take(k)) + (seq![44u8] + ser_elems(
            fs.skip(k))));
        assert(ser(u)[1 + ser_elems(fs.take(k)).len() as int] == 44);
        assert(s[pos] == 44);
        assert(fs.take(k + 1) =~= fs.take(k).push(fs[k]));
        lemma_ser_elems_push(fs.take(k), fs[k]);
        assert(ser_elems(fs.take(k + 1)) == ser_elems(fs.take(k)) + seq![44u8] + ser(
            fs[k]));
        lemma_ser_elems_split(fs, k + 1);
        let off = 1 + ser_elems(fs.take(k)).len() + 1;
        assert forall|t: int| 0 <= t < ser(fs[k]).len() implies s[pos + 1 + t] == ser(
            fs[k],
        )[t] by {
            assert(ser(u)[off + t] == ser(fs[k])[t]);
        }
        let after = pos + 1 + ser(fs[k]).len();
        assert(after == i + 1 + ser_elems(fs.take(k + 1)).len());
        if k + 1 < fs.len() {
            assert(ser_elems(fs) == ser_elems(fs.take(k + 1)) + (seq![44u8] + ser_elems(
                fs.skip(k + 1))));
            assert(ser(u)[1 + ser_elems(fs.take(k + 1)).len() as int] == 44);
            assert(s[after] == 44);
        } else {
            assert(fs.take(k + 1) =~= fs);
            assert(ser(u)[1 + ser_elems(fs).len() as int] == 93);
            assert(s[after] == 93);
        }
        assert(valid_jlist(fs));
        lemma_arr_valid_elem(fs, k);
        assert(s.subrange(pos + 1, pos + 1 + ser(fs[k]).len()) =~= ser(fs[k]));
        assert(val_at(s, pos + 1, fs[k]));
    }
}

/// The first element of a non-empty array target, or the empty close.
proof fn lemma_arr_target_start(s: Seq<u8>, i: int, u: JVal)
    requires
        val_at(s, i, u),
        u is Arr,
    ensures
        i + 2 <= s.len(),
        u->Arr_0.len() == 0 ==> (s[i + 1] == 93 && i + 2 == i + ser(u).len()),
        u->Arr_0.len() > 0 ==> {
            let fs = u->Arr_0;
            &&& s[i + 1] != 93
            &&& val_at(s, i + 1, fs[0])
            &&& i + 2 + ser(fs[0]).len() - 1 == i + 1 + ser_elems(fs.take(1)).len()
        },
{
    let fs = u->Arr_0;
    lemma_val_target_bytes(s, i, u);
    assert(ser(u) == seq![91u8] + ser_elems(fs) + seq![93u8]);
    if fs.len() == 0 {
        assert(ser_elems(fs) =~= Seq::<u8>::empty());
        assert(ser(u)[1] == 93);
        assert(s[i + 1] == 93);
    } else {
        assert(valid_jlist(fs));
        lemma_arr_valid_elem(fs, 0);
        lemma_ser_first(fs[0]);
        lemma_ser_elems_split(fs, 1);
        assert(fs.take(1)[0] == fs[0]);
        assert(fs.take(1).len() == 1);
        assert(ser_elems(fs.take(1)) == ser(fs[0]));
        assert forall|t: int| 0 <= t < ser(fs[0]).len() implies s[i + 1 + t] == ser(
            fs[0],
        )[t] by {
            assert(ser(u)[1 + t] == ser(fs[0])[t]);
        }
        assert(s[i + 1] == ser(fs[0])[0]);
        let after = i + 1 + ser(fs[0]).len();
        if fs.len() > 1 {
            assert(ser_elems(fs) == ser_elems(fs.take(1)) + (seq![44u8] + ser_elems(
                fs.skip(1))));
            assert(ser(u)[1 + ser(fs[0]).len() as int] == 44);
            assert(s[after] == 44);
        } else {
            assert(fs.take(1) =~= fs);
            assert(ser(u)[1 + ser_elems(fs).len() as int] == 93);
            assert(s[after] == 93);
        }
        assert(s.subrange(i + 1, i + 1 + ser(fs[0]).len()) =~= ser(fs[0]));
        assert(val_at(s, i + 1, fs[0]));
    }
}

/// One member of an object target laid out in the input: its key literal,
/// the colon, and its value with a delimiter after.
proof fn lemma_obj_member_at(s: Seq<u8>, i: int, u: JVal, mb: int, k: int)
    requires
        val_at(s, i, u),
        u is Obj,
        0 <= k < u->Obj_0.len(),
        mb == i + 1 + ser_members(u->Obj_0.take(k)).len() + (if k > 0 {
            1int
        } else {
            0int
        }),
    ensures
        ({
            let ms = u->Obj_0;
            let key = ms[k].0;
            let kj = mb + 2 + esc(key).len();
            &&& str_at(s, mb, key)
            &&& kj < s.len()
            &&& s[kj] == 58
            &&& val_at(s, kj + 1, ms[k].1)
            &&& kj + 1 + ser(ms[k].1).len() == i + 1 + ser_members(ms.take(k + 1)).len()
        }),
{
    let ms = u->Obj_0;
    let key = ms[k].0;
    lemma_val_target_bytes(s, i, u);
    assert(ser(u) == seq![123u8] + ser_members(ms) + seq![125u8]);
    assert(ms.take(k + 1) =~= ms.take(k).push(ms[k]));
    lemma_ser_members_push(ms.take(k), ms[k]);
    lemma_ser_members_split(ms, k + 1);
    let moff = mb - i;
    assert(ser_member(ms[k]) == seq![34u8] + esc(key) + seq![34u8, 58u8] + ser(ms[k].1));
    assert forall|t: int| 0 <= t < ser_member(ms[k]).len() implies s[mb + t] == ser_member(
        ms[k],
    )[t] by {
        if k > 0 {
            assert(ser_members(ms.take(k + 1)) == ser_members(ms.take(k)) + seq![44u8]
                + ser_member(ms[k]));
            assert(ser(u)[moff + t] == ser_member(ms[k])[t]);
        } else {
            assert(ms.take(0) =~= Seq::<(Seq<u8>, JVal)>::empty());
            assert(ser_members(ms.take(1)) == ser_member(ms[0]));
            assert(ser(u)[moff + t] == ser_member(ms[k])[t]);
        }
    }
    let kj = mb + 2 + esc(key).len();
    assert(ser_member(ms[k])[0] == 34);
    assert(s[mb] == 34);
    assert forall|t: int| 0 <= t < esc(key).len() implies s[mb + 1 + t] == esc(key)[t] by {
        assert(ser_member(ms[k])[1 + t] == esc(key)[t]);
    }
    assert(ser_member(ms[k])[1 + esc(key).len() as int] == 34);
    assert(ser_member(ms[k])[2 + esc(key).len() as int] == 58);
    assert(s[kj - 1] == 34);
    assert(s[kj] == 58);
    assert forall|t: int| 0 <= t < ser(ms[k].1).len() implies s[kj + 1 + t] == ser(
        ms[k].1,
    )[t] by {
        assert(ser_member(ms[k])[3 + esc(key).len() + t] == ser(ms[k].1)[t]);
    }
    let after = kj + 1 + ser(ms[k].1).len();
    assert(after == mb + ser_member(ms[k]).len());
    assert(after == i + 1 + ser_members(ms.take(k + 1)).len());
    if k + 1 < ms.len() {
        assert(ser_members(ms) == ser_members(ms.take(k + 1)) + (seq![44u8] + ser_members(
            ms.skip(k + 1))));
        assert(ser(u)[1 + ser_members(ms.take(k + 1)).len() as int] == 44);
        assert(s[after] == 44);
    } else {
        assert(ms.take(k + 1) =~= ms);
        assert(ser(u)[1 + ser_members(ms).len() as int] == 125);
        assert(s[after] == 125);
    }
    assert(s.subrange(mb + 1, mb + 1 + esc(key).len()) =~= esc(key));
    assert(str_at(s, mb, key));
    assert(valid_jmembers(ms));
    lemma_obj_valid_elem(ms, k);
    assert(s.subrange(kj + 1, kj + 1 + ser(ms[k].1).len()) =~= ser(ms[k].1));
    assert(val_at(s, kj + 1, ms[k].1));
}

/// Where the member loop stands against an object target.
proof fn lemma_obj_target_step(s: Seq<u8>, i: int, pos: int, mv: Seq<(Seq<u8>, JVal)>, u: JVal)
    requires
        val_at(s, i, u),
        u is Obj,
        1 <= mv.len() <= u->Obj_0.len(),
        mv == u->Obj_0.take(mv.len() as int),
        pos == i + 1 + ser_members(mv).len(),
    ensures
        pos < s.len(),
        mv.len() == u->Obj_0.len() ==> (s[pos] == 125 && pos + 1 == i + ser(u).len()),
        mv.len() < u->Obj_0.len() ==> s[pos] == 44,
{
    let ms = u->Obj_0;
    let k = mv.len() as int;
    lemma_val_target_bytes(s, i, u);
    assert(ser(u) == seq![123u8] + ser_members(ms) + seq![125u8]);
    lemma_ser_members_split(ms, k);
    assert(ser_members(mv) == ser_members(ms.take(k)));
    if k == ms.len() {
        assert(ms.take(k) =~= ms);
        assert(ser(u)[1 + ser_members(ms).len() as int] == 125);
        assert(s[pos] == 125);
        assert(pos + 1 == i + ser(u).len());
    } else {
        assert(ser_members(ms) == ser_members(ms.take(k)) + (seq![44u8] + ser_members(
            ms.skip(k))));
        assert(ser(u)[1 + ser_members(ms.take(k)).len() as int] == 44);
        assert(s[pos] == 44);
    }
}

/// The first member of a non-empty object target, or the empty close.
proof fn lemma_obj_target_start(s: Seq<u8>, i: int, u: JVal)
    requires
        val_at(s, i, u),
        u is Obj,
    ensures
        i + 2 <= s.len(),
        u->Obj_0.len() == 0 ==> (s[i + 1] == 125 && i + 2 == i + ser(u).len()),
        u->Obj_0.len() > 0 ==> s[i + 1] == 34,
{
    let ms = u->Obj_0;
    lemma_val_target_bytes(s, i, u);
    assert(ser(u) == seq![123u8] + ser_members(ms) + seq![125u8]);
    if ms.len() == 0 {
        assert(ser_members(ms) =~= Seq::<u8>::empty());
        assert(ser(u)[1] == 125);
        assert(s[i + 1] == 125);
    } else {
        lemma_obj_member_at(s, i, u, i + 1, 0);
    }
}

/// Parses one value starting at `i` in canonical form; returns it with the
/// index just past it. An accepted value is well formed and re-serializes
/// to exactly the consumed bytes; conversely, every canonical form
/// followed by a delimiter or the end of the input is accepted whole.
#[verifier::rlimit(100)]
pub fn parse_value(s: &[u8], i: usize) -> (r: Option<(JsonValue, usize)>)
    requires
        i <= s@.len(),
    ensures
        r matches Some((v, j)) ==> {
            &&& i < j <= s@.len()
            &&& valid_jval(v@)
            &&& s@.subrange(i as int, j as int) == ser(v@)
        },
        forall|u: JVal| #[trigger] val_at(s@, i as int, u) ==> (r matches Some((v, j))
            && v@ == u && j == i + ser(u).len()),
    decreases s@.len() - i,
{
    let n = s.len();
    if i >= n {
        proof {
            assert forall|u: JVal| #[trigger] val_at(s@, i as int, u) implies false by {
                lemma_val_target_variant(s@, i as int, u);
            }
        }
        return None;
    }
    let c = s[i];
    if c == 110 {
        proof {
            assert forall|u: JVal| #[trigger] val_at(s@, i as int, u) implies (u
                == JVal::Null && i + 4 <= n && s@[i + 1] == 117 && s@[i + 2] == 108 && s@[i
                + 3] == 108 && ser(u).len() == 4) by {
                lemma_val_target_variant(s@, i as int, u);
                lemma_val_target_bytes(s@, i as int, u);
                assert(ser(u)[1] == 117 && ser(u)[2] == 108 && ser(u)[3] == 108);
            }
        }
        if n - i < 4 {
            return None;
        }
        if s[i + 1] == 117 && s[i + 2] == 108 && s[i + 3] == 108 {
            assert(s@.subrange(i as int, i + 4) =~= ser(JVal::Null));
            Some((JsonValue::Null, i + 4))
        } else {
            None
        }
    } else if c == 116 {
        proof {
            assert forall|u: JVal| #[trigger] val_at(s@, i as int, u) implies (u
                == JVal::Bool(true) && i + 4 <= n && s@[i + 1] == 114 && s@[i + 2] == 117
                && s@[i + 3] == 101 && ser(u).len() == 4) by {
                lemma_val_target_variant(s@, i as int, u);
                lemma_val_target_bytes(s@, i as int, u);
                assert(ser(u)[1] == 114 && ser(u)[2] == 117 && ser(u)[3] == 101);
            }
        }
        if n - i < 4 {
            return None;
        }
        if s[i + 1] == 114 && s[i + 2] == 117 && s[i + 3] == 101 {
            assert(s@.subrange(i as int, i + 4) =~= ser(JVal::Bool(true)));
            Some((JsonValue::Bool(true), i + 4))
        } else {
            None
        }
    } else if c == 102 {
        proof {
            assert forall|u: JVal| #[trigger] val_at(s@, i as int, u) implies (u
                == JVal::Bool(false) && i + 5 <= n && s@[i + 1] == 97 && s@[i + 2] == 108
                && s@[i + 3] == 115 && s@[i + 4] == 101 && ser(u).len() == 5) by {
                lemma_val_target_variant(s@, i as int, u);
                lemma_val_target_bytes(s@, i as int, u);
                assert(ser(u)[1] == 97 && ser(u)[2] == 108 && ser(u)[3] == 115 && ser(
                    u)[4] == 101);
            }
        }
        if n - i < 5 {
            return None;
        }
        if s[i + 1] == 97 && s[i + 2] == 108 && s[i + 3] == 115 && s[i + 4] == 101 {
            assert(s@.subrange(i as int, i + 5) =~= ser(JVal::Bool(false)));
            Some((JsonValue::Bool(false), i + 5))
        } else {
            None
        }
    } else if c == 34 {
        proof {
            assert forall|u: JVal| #[trigger] val_at(s@, i as int, u) implies (u is Str
                && str_at(s@, i as int, u->Str_0) && ser(u).len() == 2 + esc(
                u->Str_0).len()) by {
                lemma_val_target_variant(s@, i as int, u);
                lemma_val_target_bytes(s@, i as int, u);
                assert(ser(u) == seq![34u8] + esc(u->Str_0) + seq![34u8]);
                assert forall|t: int| 0 <= t < esc(u->Str_0).len() implies s@[i + 1 + t]
                    == esc(u->Str_0)[t] by {
                    assert(ser(u)[1 + t] == esc(u->Str_0)[t]);
                }
                assert(s@.subrange(i + 1, i + 1 + esc(u->Str_0).len() as int) =~= esc(
                    u->Str_0));
                assert(ser(u)[1 + esc(u->Str_0).len() as int] == 34);
                assert(str_at(s@, i as int, u->Str_0));
            }
        }
        match parse_string(s, i) {
            Some((content, j)) => {
                let v = JsonValue::Str(content);
                assert(s@.subrange(i as int, j as int) == ser(v@));
                Some((v, j))
            },
            None => None,
        }
    } else if c == 45 || (48 <= c && c <= 57) {
        proof {
            assert forall|u: JVal| #[trigger] val_at(s@, i as int, u) implies (u is Num
                && num_at(s@, i as int, u->Num_0) && ser(u) == u->Num_0) by {
                lemma_val_target_variant(s@, i as int, u);
                assert(valid_num(u->Num_0));
            }
        }
        match parse_number(s, i) {
            Some((lex, j)) => {
                let v = JsonValue::Num(lex);
                assert(s@.subrange(i as int, j as int) == ser(v@));
                Some((v, j))
            },
            None => None,
        }
    } else if c == 91 {
        proof {
            assert forall|u: JVal| #[trigger] val_at(s@, i as int, u) implies (u is Arr
                && i + 2 <= n) by {
                lemma_val_target_variant(s@, i as int, u);
                lemma_arr_target_start(s@, i as int, u);
            }
        }
        if n - i < 2 {
            return None;
        }
        if s[i + 1] == 93 {
            let v = JsonValue::Arr(Vec::new());
            proof {
                assert(v->Arr_0@ =~= Seq::<JsonValue>::empty());
                assert(s@.subrange(i as int, i + 2) =~= ser(v@));
                assert forall|u: JVal| #[trigger] val_at(s@, i as int, u) implies (u
                    == jval_of(v) && i + 2 == i + ser(u).len()) by {
                    lemma_arr_target_start(s@, i as int, u);
                    if u->Arr_0.len() > 0 {
                        assert(false);
                    }
                    assert(u->Arr_0 =~= Seq::<JVal>::empty());
                    assert(u == JVal::Arr(u->Arr_0));
                }
            }
            return Some((v, i + 2));
        }
        proof {
            assert forall|u: JVal| #[trigger] val_at(s@, i as int, u) implies (
            u->Arr_0.len() > 0 && val_at(s@, i + 1, u->Arr_0[0]) && i + 2 + ser(
                u->Arr_0[0]).len() - 1 == i + 1 + ser_elems(u->Arr_0.take(1)).len()) by {
                lemma_arr_target_start(s@, i as int, u);
                if u->Arr_0.len() == 0 {
                    assert(s@[i + 1] == 93);
                }
            }
        }
        let mut elems: Vec<JsonValue> = Vec::new();
        let mut pos: usize;
        match parse_value(s, i + 1) {
            Some((v0, j0)) => {
                proof {
                    reveal_with_fuel(jvals_of, 3);
                    assert(jvals_of(Seq::<JsonValue>::empty().push(v0))
                        =~= Seq::<JVal>::empty().push(jval_of(v0)));
                }
                elems.push(v0);
                pos = j0;
                assert(elems@ =~= Seq::<JsonValue>::empty().push(v0));
                assert(ser_elems(jvals_of(elems@)) == ser(jval_of(v0)));
                assert(s@.subrange(i + 1, pos as int) == ser_elems(jvals_of(elems@)));
                proof {
                    lemma_valid_jlist_push(Seq::<JVal>::empty(), jval_of(v0));
                    assert(valid_jlist(jvals_of(elems@)));
                    assert forall|u: JVal| #[trigger] val_at(s@, i as int, u) implies (u
                        is Arr && 1 <= elems@.len() <= u->Arr_0.len() && jvals_of(elems@)
                        == u->Arr_0.take(elems@.len() as int)) by {
                        assert(val_at(s@, i + 1, u->Arr_0[0]));
                        assert(jval_of(v0) == u->Arr_0[0]);
                        assert(jvals_of(elems@) =~= u->Arr_0.take(1));
                    }
                }
            },
            None => {
                proof {
                    assert forall|u: JVal| #[trigger] val_at(s@, i as int, u) implies
                        false by {
                        assert(val_at(s@, i + 1, u->Arr_0[0]));
                    }
                }
                return None;
            },
        }
        loop
            invariant
                n == s@.len(),
                i + 1 < pos <= n,
                s@[i as int] == 91,
                elems@.len() >= 1,
                s@.subrange(i + 1, pos as int) == ser_elems(jvals_of(elems@)),
                valid_jlist(jvals_of(elems@)),
                forall|u: JVal| #[trigger] val_at(s@, i as int, u) ==> (u is Arr && 1
                    <= elems@.len() <= u->Arr_0.len() && jvals_of(elems@)
                    == u->Arr_0.take(elems@.len() as int)),
            decreases n - pos,
        {
            proof {
                assert forall|u: JVal| #[trigger] val_at(s@, i as int, u) implies (pos < n
                    && (elems@.len() == u->Arr_0.len() ==> (s@[pos as int] == 93 && pos + 1
                    == i + ser(u).len())) && (elems@.len() < u->Arr_0.len() ==> (s@[
                pos as int] == 44 && val_at(s@, pos + 1, u->Arr_0[elems@.len() as int])
                    && pos + 1 + ser(u->Arr_0[elems@.len() as int]).len() == i + 1
                    + ser_elems(u->Arr_0.take(elems@.len() as int + 1)).len()))) by {
                    assert(pos - (i + 1) == ser_elems(jvals_of(elems@)).len());
                    lemma_arr_target_step(s@, i as int, pos as int, jvals_of(elems@), u);
                }
            }
            if pos >= n {
                return None;
            }
            let t = s[pos];
            if t == 93 {
                let ghost vs = jvals_of(elems@);
                let v = JsonValue::Arr(elems);
                proof {
                    assert(s@.subrange(i as int, pos + 1) =~= seq![91u8] + ser_elems(vs)
                        + seq![93u8]);
                    assert forall|u: JVal| #[trigger] val_at(s@, i as int, u) implies (
                    jval_of(v) == u && pos + 1 == i + ser(u).len()) by {
                        if vs.len() < u->Arr_0.len() {
                            assert(s@[pos as int] == 44);
                        }
                        assert(vs =~= u->Arr_0);
                        assert(u == JVal::Arr(u->Arr_0));
                    }
                }
                return Some((v, pos + 1));
            } else if t == 44 {
                match parse_value(s, pos + 1) {
                    Some((v2, j2)) => {
                        let ghost old_elems = elems@;
                        proof {
                            lemma_jvals_of_push(old_elems, v2);
                            lemma_ser_elems_push(jvals_of(old_elems), jval_of(v2));
                            lemma_jvals_of(old_elems);
                        }
                        elems.push(v2);
                        proof {
                            assert(s@.subrange(i + 1, j2 as int) =~= ser_elems(
                                jvals_of(old_elems)) + seq![44u8] + ser(jval_of(v2)));
                            lemma_jvals_of(elems@);
                            let nvs = jvals_of(elems@);
                            assert(nvs == jvals_of(old_elems).push(jval_of(v2)));
                            lemma_valid_jlist_push(jvals_of(old_elems), jval_of(v2));
                            assert(valid_jlist(nvs));
                            assert forall|u: JVal| #[trigger] val_at(s@, i as int, u)
                                implies (u is Arr && 1 <= elems@.len() <= u->Arr_0.len()
                                && jvals_of(elems@) == u->Arr_0.take(
                                elems@.len() as int)) by {
                                if old_elems.len() == u->Arr_0.len() {
                                    assert(s@[pos as int] == 93);
                                }
                                assert(val_at(s@, pos + 1, u->Arr_0[
                                old_elems.len() as int]));
                                assert(jval_of(v2) == u->Arr_0[old_elems.len() as int]);
                                assert(nvs =~= u->Arr_0.take(old_elems.len() as int + 1));
                            }
                        }
                        pos = j2;
                    },
                    None => {
                        proof {
                            assert forall|u: JVal| #[trigger] val_at(s@, i as int, u)
                                implies false by {
                                if elems@.len() == u->Arr_0.len() {
                                    assert(s@[pos as int] == 93);
                                }
                                assert(val_at(s@, pos + 1, u->Arr_0[
                                elems@.len() as int]));
                            }
                        }
                        return None;
                    },
                }
            } else {
                return None;
            }
        }
    } else if c == 123 {
        proof {
            assert forall|u: JVal| #[trigger] val_at(s@, i as int, u) implies (u is Obj
                && i + 2 <= n) by {
                lemma_val_target_variant(s@, i as int, u);
                lemma_obj_target_start(s@, i as int, u);
            }
        }
        if n - i < 2 {
            return None;
        }
        if s[i + 1] == 125 {
            let v = JsonValue::Obj(Vec::new());
            proof {
                assert(v->Obj_0@ =~= Seq::<(Vec<u8>, JsonValue)>::empty());
                assert(s@.subrange(i as int, i + 2) =~= ser(v@));
                assert forall|u: JVal| #[trigger] val_at(s@, i as int, u) implies (u
                    == jval_of(v) && i + 2 == i + ser(u).len()) by {
                    lemma_obj_target_start(s@, i as int, u);
                    if u->Obj_0.len() > 0 {
                        assert(s@[i + 1] == 34);
                    }
                    assert(u->Obj_0 =~= Seq::<(Seq<u8>, JVal)>::empty());
                    assert(u == JVal::Obj(u->Obj_0));
                }
            }
            return Some((v, i + 2));
        }
        proof {
            assert forall|u: JVal| #[trigger] val_at(s@, i as int, u) implies (
            u->Obj_0.len() > 0 && str_at(s@, i + 1, u->Obj_0[0].0) && s@[i + 1] == 34) by {
                lemma_obj_target_start(s@, i as int, u);
                if u->Obj_0.len() == 0 {
                    assert(s@[i + 1] == 125);
                }
                lemma_obj_member_at(s@, i as int, u, i + 1, 0);
                assert(s@[i + 1] == 34);
            }
        }
        if s[i + 1] != 34 {
            return None;
        }
        let mut pairs: Vec<(Vec<u8>, JsonValue)> = Vec::new();
        let mut pos: usize;
        match parse_string(s, i + 1) {
            Some((key0, kj)) => {
                proof {
                    assert forall|u: JVal| #[trigger] val_at(s@, i as int, u) implies (
                    key0@ == u->Obj_0[0].0 && kj == i + 3 + esc(u->Obj_0[0].0).len() && kj
                        < n && s@[kj as int] == 58 && val_at(s@, kj + 1, u->Obj_0[0].1)
                        && kj + 1 + ser(u->Obj_0[0].1).len() == i + 1 + ser_members(
                        u->Obj_0.take(1)).len()) by {
                        lemma_obj_member_at(s@, i as int, u, i + 1, 0);
                    }
                }
                if kj >= n || s[kj] != 58 {
                    return None;
                }
                match parse_value(s, kj + 1) {
                    Some((v0, j0)) => {
                        proof {
                            reveal_with_fuel(jmembers_of, 3);
                            assert(jmembers_of(Seq::<(Vec<u8>, JsonValue)>::empty().push(
                                (key0, v0))) =~= Seq::<(Seq<u8>, JVal)>::empty().push(
                                (key0@, jval_of(v0))));
                        }
                        let ghost gk = key0@;
                        let ghost kje: int = kj as int;
                        pairs.push((key0, v0));
                        pos = j0;
                        proof {
                            assert(pairs@ =~= Seq::<(Vec<u8>, JsonValue)>::empty().push(
                                pairs@[0]));
                            assert(ser_members(jmembers_of(pairs@)) == ser_member(
                                (gk, jval_of(v0))));
                            assert(s@.subrange(i + 1, kje) == seq![34u8] + esc(gk)
                                + seq![34u8]);
                            assert(s@.subrange(kje + 1, pos as int) == ser(jval_of(v0)));
                            assert(s@.subrange(i + 1, pos as int) =~= s@.subrange(
                                i + 1, kje) + seq![58u8] + s@.subrange(kje + 1, pos as int));
                            assert(s@.subrange(i + 1, pos as int) =~= ser_member(
                                (gk, jval_of(v0))));
                            lemma_valid_jmembers_push(Seq::<(Seq<u8>, JVal)>::empty(),
                                (gk, jval_of(v0)));
                            assert(valid_jmembers(jmembers_of(pairs@)));
                            assert forall|u: JVal| #[trigger] val_at(s@, i as int, u)
                                implies (u is Obj && 1 <= pairs@.len() <= u->Obj_0.len()
                                && jmembers_of(pairs@) == u->Obj_0.take(
                                pairs@.len() as int)) by {
                                assert(jval_of(v0) == u->Obj_0[0].1);
                                assert(gk == u->Obj_0[0].0);
                                assert(jmembers_of(pairs@)[0] == u->Obj_0[0]);
                                assert(jmembers_of(pairs@) =~= u->Obj_0.take(1));
                            }
                        }
                    },
                    None => {
                        proof {
                            assert forall|u: JVal| #[trigger] val_at(s@, i as int, u)
                                implies false by {
                                assert(val_at(s@, kj + 1, u->Obj_0[0].1));
                            }
                        }
                        return None;
                    },
                }
            },
            None => {
                proof {
                    assert forall|u: JVal| #[trigger] val_at(s@, i as int, u) implies
                        false by {
                        assert(str_at(s@, i + 1, u->Obj_0[0].0));
                    }
                }
                return None;
            },
        }
        loop
            invariant
                n == s@.len(),
                i + 1 < pos <= n,
                s@[i as int] == 123,
                pairs@.len() >= 1,
                s@.subrange(i + 1, pos as int) == ser_members(jmembers_of(pairs@)),
                valid_jmembers(jmembers_of(pairs@)),
                forall|u: JVal| #[trigger] val_at(s@, i as int, u) ==> (u is Obj && 1
                    <= pairs@.len() <= u->Obj_0.len() && jmembers_of(pairs@)
                    == u->Obj_0.take(pairs@.len() as int)),
            decreases n - pos,
        {
            proof {
                assert forall|u: JVal| #[trigger] val_at(s@, i as int, u) implies (pos < n
                    && (pairs@.len() == u->Obj_0.len() ==> (s@[pos as int] == 125 && pos
                    + 1 == i + ser(u).len())) && (pairs@.len() < u->Obj_0.len() ==> s@[
                pos as int] == 44)) by {
                    assert(pos - (i + 1) == ser_members(jmembers_of(pairs@)).len());
                    lemma_obj_target_step(s@, i as int, pos as int, jmembers_of(pairs@), u);
                }
            }
            if pos >= n {
                return None;
            }
            let t = s[pos];
            if t == 125 {
                let ghost ms = jmembers_of(pairs@);
                let v = JsonValue::Obj(pairs);
                proof {
                    assert(s@.subrange(i as int, pos + 1) =~= seq![123u8] + ser_members(ms)
                        + seq![125u8]);
                    assert forall|u: JVal| #[trigger] val_at(s@, i as int, u) implies (
                    jval_of(v) == u && pos + 1 == i + ser(u).len()) by {
                        if ms.len() < u->Obj_0.len() {
                            assert(s@[pos as int] == 44);
                        }
                        assert(ms =~= u->Obj_0);
                        assert(u == JVal::Obj(u->Obj_0));
                    }
                }
                return Some((v, pos + 1));
            } else if t == 44 {
                proof {
                    assert forall|u: JVal| #[trigger] val_at(s@, i as int, u) implies (
                    pairs@.len() < u->Obj_0.len() && str_at(s@, pos + 1, u->Obj_0[
                    pairs@.len() as int].0) && s@[pos + 1] == 34 && pos + 1 < n) by {
                        if pairs@.len() == u->Obj_0.len() {
                            assert(s@[pos as int] == 125);
                        }
                        assert(pos - (i + 1) == ser_members(jmembers_of(pairs@)).len());
                        lemma_obj_member_at(s@, i as int, u, pos + 1,
                            pairs@.len() as int);
                    }
                }
                if pos + 1 >= n || s[pos + 1] != 34 {
                    return None;
                }
                match parse_string(s, pos + 1) {
                    Some((key2, kj2)) => {
                        proof {
                            assert forall|u: JVal| #[trigger] val_at(s@, i as int, u)
                                implies ({
                                let k = pairs@.len() as int;
                                &&& key2@ == u->Obj_0[k].0
                                &&& kj2 == pos + 3 + esc(u->Obj_0[k].0).len()
                                &&& kj2 < n
                                &&& s@[kj2 as int] == 58
                                &&& val_at(s@, kj2 + 1, u->Obj_0[k].1)
                                &&& kj2 + 1 + ser(u->Obj_0[k].1).len() == i + 1
                                    + ser_members(u->Obj_0.take(k + 1)).len()
                            }) by {
                                assert(pos - (i + 1) == ser_members(
                                    jmembers_of(pairs@)).len());
                                lemma_obj_member_at(s@, i as int, u, pos + 1,
                                    pairs@.len() as int);
                            }
                        }
                        if kj2 >= n || s[kj2] != 58 {
                            return None;
                        }
                        match parse_value(s, kj2 + 1) {
                            Some((v2, j2)) => {
                                let ghost old_pairs = pairs@;
                                let ghost gk2 = key2@;
                                proof {
                                    lemma_jmembers_of_push(old_pairs, (key2, v2));
                                    lemma_ser_members_push(jmembers_of(old_pairs),
                                        (gk2, jval_of(v2)));
                                    lemma_jmembers_of(old_pairs);
                                }
                                pairs.push((key2, v2));
                                proof {
                                    let kje2: int = kj2 as int;
                                    assert(s@.subrange(pos + 1, kje2) == seq![34u8]
                                        + esc(gk2) + seq![34u8]);
                                    assert(s@.subrange(kje2 + 1, j2 as int) == ser(
                                        jval_of(v2)));
                                    assert(s@.subrange(pos + 1, j2 as int) =~= s@.subrange(
                                        pos + 1, kje2) + seq![58u8] + s@.subrange(
                                        kje2 + 1, j2 as int));
                                    assert(s@.subrange(pos + 1, j2 as int) =~= ser_member(
                                        (gk2, jval_of(v2))));
                                    assert(s@.subrange(i + 1, j2 as int) =~= ser_members(
                                        jmembers_of(old_pairs)) + seq![44u8] + ser_member(
                                        (gk2, jval_of(v2))));
                                    lemma_jmembers_of(pairs@);
                                    let nms = jmembers_of(pairs@);
                                    assert(nms == jmembers_of(old_pairs).push(
                                        (gk2, jval_of(v2))));
                                    lemma_valid_jmembers_push(jmembers_of(old_pairs),
                                        (gk2, jval_of(v2)));
                                    assert(valid_jmembers(nms));
                                    assert forall|u: JVal| #[trigger] val_at(
                                        s@,
                                        i as int,
                                        u,
                                    ) implies (u is Obj && 1 <= pairs@.len()
                                        <= u->Obj_0.len() && jmembers_of(pairs@)
                                        == u->Obj_0.take(pairs@.len() as int)) by {
                                        let k = old_pairs.len() as int;
                                        assert(jval_of(v2) == u->Obj_0[k].1);
                                        assert(gk2 == u->Obj_0[k].0);
                                        assert(nms[k] == u->Obj_0[k]);
                                        assert(nms =~= u->Obj_0.take(k + 1));
                                    }
                                }
                                pos = j2;
                            },
                            None => {
                                proof {
                                    assert forall|u: JVal| #[trigger] val_at(
                                        s@,
                                        i as int,
                                        u,
                                    ) implies false by {
                                        assert(val_at(s@, kj2 + 1, u->Obj_0[
                                        pairs@.len() as int].1));
                                    }
                                }
                                return None;
                            },
                        }
                    },
                    None => {
                        proof {
                            assert forall|u: JVal| #[trigger] val_at(s@, i as int, u)
                                implies false by {
                                assert(str_at(s@, pos + 1, u->Obj_0[
                                pairs@.len() as int].0));
                            }
                        }
                        return None;
                    },
                }
            } else {
                return None;
            }
        }
    } else {
        proof {
            assert forall|u: JVal| #[trigger] val_at(s@, i as int, u) implies false by {
                lemma_val_target_variant(s@, i as int, u);
                lemma_ser_first(u);
            }
        }
        None
    }
}

/// Parses one full line as a value; the whole line must be consumed.
/// Every canonical line is accepted and yields exactly its value.
pub fn parse_value_line(s: &[u8]) -> (r: Option<JsonValue>)
    ensures
        r matches Some(v) ==> valid_jval(v@) && s@ == ser(v@),
        forall|u: JVal| valid_jval(u) && s@ == ser(u) ==> (r matches Some(v) && v@ == u),
{
    proof {
        assert forall|u: JVal| valid_jval(u) && s@ == ser(u) implies val_at(
            s@,
            0,
            u,
        ) by {
            assert(s@.subrange(0, ser(u).len() as int) =~= ser(u));
        }
    }
    match parse_value(s, 0) {
        Some((v, j)) => {
            if j == s.len() {
                assert(s@.subrange(0, s@.len() as int) =~= s@);
                Some(v)
            } else {
                None
            }
        },
        None => None,
    }
}

// ---------------------------------------------------------------------------
// The transport is line-delimited, so this is load-bearing: a serialized
// well-formed value never holds a newline or carriage return.
// ---------------------------------------------------------------------------

pub open spec fn single_line(s: Seq<u8>) -> bool {
    forall|k: int| 0 <= k < s.len() ==> (#[trigger] s[k]) != 10 && s[k] != 13
}

proof fn lemma_esc_byte_single_line(b: u8)
    ensures
        single_line(esc_byte(b)),
{
}

proof fn lemma_esc_single_line(s: Seq<u8>)
    ensures
        single_line(esc(s)),
    decreases s.len(),
{
    if s.len() > 0 {
        lemma_esc_byte_single_line(s[0]);
        lemma_esc_single_line(s.drop_first());
        assert forall|k: int| 0 <= k < esc(s).len() implies (#[trigger] esc(s)[k]) != 10
            && esc(s)[k] != 13 by {
            if k < esc_byte(s[0]).len() {
                assert(esc(s)[k] == esc_byte(s[0])[k]);
            } else {
                assert(esc(s)[k] == esc(s.drop_first())[k - esc_byte(s[0]).len()]);
            }
        }
    }
}

proof fn lemma_valid_num_single_line(l: Seq<u8>)
    requires
        valid_num(l),
    ensures
        single_line(l),
{
    let body = if l.len() > 0 && l[0] == 45 {
        l.drop_first()
    } else {
        l
    };
    assert(valid_num_body(body));
    assert forall|k: int| 0 <= k < body.len() implies (#[trigger] body[k]) != 10 && body[k]
        != 13 by {
        if body.len() > 0 && all_digits(body) {
            assert(is_digit(body[k]));
        } else {
            let d = choose|d: int|
                1 <= d < body.len() - 1 && body[d] == 46 && all_digits(
                    #[trigger] body.subrange(0, d),
                ) && all_digits(body.subrange(d + 1, body.len() as int));
            if k < d {
                assert(body.subrange(0, d)[k] == body[k]);
                assert(is_digit(body.subrange(0, d)[k]));
            } else if k == d {
            } else {
                assert(body.subrange(d + 1, body.len() as int)[k - d - 1] == body[k]);
                assert(is_digit(body.subrange(d + 1, body.len() as int)[k - d - 1]));
            }
        }
    }
    assert forall|k: int| 0 <= k < l.len() implies (#[trigger] l[k]) != 10 && l[k] != 13 by {
        if l.len() > 0 && l[0] == 45 {
            if k > 0 {
                assert(body[k - 1] == l[k]);
            }
        } else {
            assert(body[k] == l[k]);
        }
    }
}

proof fn lemma_concat_single_line(a: Seq<u8>, b: Seq<u8>)
    requires
        single_line(a),
        single_line(b),
    ensures
        single_line(a + b),
{
    assert forall|k: int| 0 <= k < (a + b).len() implies (#[trigger] (a + b)[k]) != 10
        && (a + b)[k] != 13 by {
        if k < a.len() {
            assert((a + b)[k] == a[k]);
        } else {
            assert((a + b)[k] == b[k - a.len()]);
        }
    }
}

/// A well-formed value serializes to a single line: no newline and no
/// carriage return stands anywhere in its canonical form.
pub proof fn lemma_ser_single_line(v: JVal)
    requires
        valid_jval(v),
    ensures
        single_line(ser(v)),
    decreases v,
{
    match v {
        JVal::Null => {},
        JVal::Bool(b) => {},
        JVal::Num(l) => {
            lemma_valid_num_single_line(l);
        },
        JVal::Str(s) => {
            lemma_esc_single_line(s);
            lemma_concat_single_line(seq![34u8], esc(s));
            lemma_concat_single_line(seq![34u8] + esc(s), seq![34u8]);
        },
        JVal::Arr(es) => {
            lemma_ser_elems_single_line(es);
            lemma_concat_single_line(seq![91u8], ser_elems(es));
            lemma_concat_single_line(seq![91u8] + ser_elems(es), seq![93u8]);
        },
        JVal::Obj(ps) => {
            lemma_ser_members_single_line(ps);
            lemma_concat_single_line(seq![123u8], ser_members(ps));
            lemma_concat_single_line(seq![123u8] + ser_members(ps), seq![125u8]);
        },
    }
}

proof fn lemma_ser_elems_single_line(es: Seq<JVal>)
    requires
        valid_jlist(es),
    ensures
        single_line(ser_elems(es)),
    decreases es, 1int,
{
    if es.len() == 0 {
    } else if es.len() == 1 {
        crate::value::lemma_arr_valid_elem(es, 0);
        lemma_ser_single_line(es[0]);
    } else {
        crate::value::lemma_arr_valid_elem(es, 0);
        lemma_ser_single_line(es[0]);
        assert(valid_jlist(es.drop_first())) by {
            lemma_valid_jlist_drop_first(es);
        }
        lemma_ser_elems_single_line(es.drop_first());
        lemma_concat_single_line(ser(es[0]), seq![44u8]);
        lemma_concat_single_line(ser(es[0]) + seq![44u8], ser_elems(es.drop_first()));
    }
}

proof fn lemma_ser_members_single_line(ps: Seq<(Seq<u8>, JVal)>)
    requires
        valid_jmembers(ps),
    ensures
        single_line(ser_members(ps)),
    decreases ps, 1int,
{
    if ps.len() == 0 {
    } else {
        crate::value::lemma_obj_valid_elem(ps, 0);
        lemma_ser_single_line(ps[0].1);
        lemma_esc_single_line(ps[0].0);
        lemma_concat_single_line(seq![34u8], esc(ps[0].0));
        lemma_concat_single_line(seq![34u8] + esc(ps[0].0), seq![34u8, 58u8]);
        lemma_concat_single_line(seq![34u8] + esc(ps[0].0) + seq![34u8, 58u8], ser(ps[0].1));
        assert(ser_member(ps[0]) == seq![34u8] + esc(ps[0].0) + seq![34u8, 58u8] + ser(
            ps[0].1));
        if ps.len() > 1 {
            assert(valid_jmembers(ps.drop_first())) by {
                lemma_valid_jmembers_drop_first(ps);
            }
            lemma_ser_members_single_line(ps.drop_first());
            lemma_concat_single_line(ser_member(ps[0]), seq![44u8]);
            lemma_concat_single_line(ser_member(ps[0]) + seq![44u8], ser_members(
                ps.drop_first()));
        }
    }
}

pub proof fn lemma_valid_jlist_drop_first(es: Seq<JVal>)
    requires
        valid_jlist(es),
        es.len() > 0,
    ensures
        valid_jlist(es.drop_first()),
    decreases es.len(),
{
    if es.len() > 1 {
        assert(es.drop_last().len() > 0);
        lemma_valid_jlist_drop_first(es.drop_last());
        assert(es.drop_last().drop_first() =~= es.drop_first().drop_last());
        assert(es.drop_first().last() == es.last());
    }
}

pub proof fn lemma_valid_jmembers_drop_first(ps: Seq<(Seq<u8>, JVal)>)
    requires
        valid_jmembers(ps),
        ps.len() > 0,
    ensures
        valid_jmembers(ps.drop_first()),
    decreases ps.len(),
{
    if ps.len() > 1 {
        lemma_valid_jmembers_drop_first(ps.drop_last());
        assert(ps.drop_last().drop_first() =~= ps.drop_first().drop_last());
        assert(ps.drop_first().last() == ps.last());
    }
}

// ---------------------------------------------------------------------------
// Insignificant whitespace. A line may carry spaces, tabs and line breaks
// between tokens; removing them outside string literals yields the
// canonical form that the parser reads.
// ---------------------------------------------------------------------------

pub open spec fn insignificant(b: u8) -> bool {
    b == 32 || b == 9 || b == 10 || b == 13
}

/// The text with insignificant whitespace removed: bytes outside string
/// literals that are whitespace are dropped, everything inside a string
/// literal (escapes included) is kept.
pub open spec fn strip_ws_spec(s: Seq<u8>, in_str: bool, escaped: bool) -> Seq<u8>
    decreases s.len(),
{
    if s.len() == 0 {
        Seq::empty()
    } else {
        let b = s[0];
        let rest = s.drop_first();
        if in_str {
            if escaped {
                seq![b] + strip_ws_spec(rest, true, false)
            } else if b == 92 {
                seq![b] + strip_ws_spec(rest, true, true)
            } else if b == 34 {
                seq![b] + strip_ws_spec(rest, false, false)
            } else {
                seq![b] + strip_ws_spec(rest, true, false)
            }
        } else {
            if insignificant(b) {
                strip_ws_spec(rest, false, false)
            } else if b == 34 {
                seq![b] + strip_ws_spec(rest, true, false)
            } else {
                seq![b] + strip_ws_spec(rest, false, false)
            }
        }
    }
}

/// Removes insignificant whitespace, leaving string literals intact.
pub fn strip_ws(s: &[u8]) -> (r: Vec<u8>)
    ensures
        r@ == strip_ws_spec(s@, false, false),
{
    let n = s.len();
    let mut out: Vec<u8> = Vec::new();
    let mut in_str = false;
    let mut escaped = false;
    let mut i: usize = 0;
    assert(s@.skip(0) =~= s@);
    while i < n
        invariant
            n == s@.len(),
            0 <= i <= n,
            in_str ==> !escaped || true,
            strip_ws_spec(s@, false, false) == out@ + strip_ws_spec(
                s@.skip(i as int),
                in_str,
                escaped,
            ),
            escaped ==> in_str,
        decreases n - i,
    {
        let b = s[i];
        proof {
            assert(s@.skip(i as int)[0] == s@[i as int]);
            assert(s@.skip(i as int).drop_first() =~= s@.skip(i + 1));
        }
        if in_str {
            if escaped {
                out.push(b);
                escaped = false;
            } else if b == 92 {
                out.push(b);
                escaped = true;
            } else if b == 34 {
                out.push(b);
                in_str = false;
            } else {
                out.push(b);
            }
        } else {
            if b == 32 || b == 9 || b == 10 || b == 13 {
            } else if b == 34 {
                out.push(b);
                in_str = true;
            } else {
                out.push(b);
            }
        }
        i += 1;
    }
    proof {
        assert(s@.skip(n as int) =~= Seq::<u8>::empty());
    }
    out
}

/// Reads one line of text as a value. Insignificant whitespace between
/// tokens is ignored: the line with it removed must be the canonical form
/// of the value, which the result re-serializes to.
pub fn parse_value_text(s: &[u8]) -> (r: Option<JsonValue>)
    ensures
        r matches Some(v) ==> valid_jval(v@) && strip_ws_spec(s@, false, false) == ser(v@),
        forall|u: JVal| valid_jval(u) && strip_ws_spec(s@, false, false) == ser(u) ==> (r
            matches Some(v) && v@ == u),
{
    let stripped = strip_ws(s);
    parse_value_line(stripped.as_slice())
}

// ---------------------------------------------------------------------------
// Completeness targets: where a canonical form sits in the input. The
// parser accepts every such occurrence and returns exactly its value.
// ---------------------------------------------------------------------------

/// A byte that may follow a canonical value inside a line.
pub open spec fn is_delim(b: u8) -> bool {
    b == 44 || b == 93 || b == 125
}

/// The canonical form of `u` sits at `i`, followed by a delimiter or the
/// end of the input.
pub open spec fn val_at(s: Seq<u8>, i: int, u: JVal) -> bool {
    &&& valid_jval(u)
    &&& 0 <= i
    &&& i + ser(u).len() <= s.len()
    &&& s.subrange(i, i + ser(u).len()) == ser(u)
    &&& (i + ser(u).len() == s.len() || is_delim(s[i + ser(u).len()]))
}

/// A canonical string literal with content `cs` sits at `i`.
pub open spec fn str_at(s: Seq<u8>, i: int, cs: Seq<u8>) -> bool {
    &&& 0 <= i
    &&& i + 2 + esc(cs).len() <= s.len()
    &&& s[i] == 34
    &&& s.subrange(i + 1, i + 1 + esc(cs).len()) == esc(cs)
    &&& s[i + 1 + esc(cs).len()] == 34
}

/// A canonical number lexeme `l` sits at `i`, with nothing after it that
/// could extend the token.
pub open spec fn num_at(s: Seq<u8>, i: int, l: Seq<u8>) -> bool {
    &&& valid_num(l)
    &&& 0 <= i
    &&& i + l.len() <= s.len()
    &&& s.subrange(i, i + l.len()) == l
    &&& (i + l.len() == s.len() || (!is_digit(s[i + l.len()]) && s[i + l.len()] != 46))
}

/// A serialized well-formed value is never empty, and its first byte names
/// its variant.
pub proof fn lemma_ser_first(u: JVal)
    requires
        valid_jval(u),
    ensures
        ser(u).len() > 0,
        u is Null ==> ser(u)[0] == 110,
        u is Bool ==> ser(u)[0] == 116 || ser(u)[0] == 102,
        u is Num ==> (ser(u)[0] == 45 || is_digit(ser(u)[0])),
        u is Str ==> ser(u)[0] == 34,
        u is Arr ==> ser(u)[0] == 91,
        u is Obj ==> ser(u)[0] == 123,
{
    match u {
        JVal::Num(l) => {
            assert(valid_num(l));
            if l.len() > 0 && l[0] == 45 {
            } else {
                assert(valid_num_body(l));
                if l.len() > 0 && all_digits(l) {
                    assert(is_digit(l[0]));
                } else {
                    let k = choose|k: int|
                        1 <= k < l.len() - 1 && l[k] == 46 && all_digits(
                            #[trigger] l.subrange(0, k),
                        ) && all_digits(l.subrange(k + 1, l.len() as int));
                    assert(l.subrange(0, k)[0] == l[0]);
                    assert(is_digit(l.subrange(0, k)[0]));
                }
            }
        },
        _ => {},
    }
}

/// Escaping splits over a split of the content.
pub proof fn lemma_esc_cat(a: Seq<u8>, k: int)
    requires
        0 <= k <= a.len(),
    ensures
        esc(a) == esc(a.take(k)) + esc(a.skip(k)),
    decreases k,
{
    if k == 0 {
        assert(a.take(0) =~= Seq::<u8>::empty());
        assert(a.skip(0) =~= a);
        assert(esc(a) =~= esc(a.take(0)) + esc(a.skip(0)));
    } else {
        lemma_esc_cat(a.drop_first(), k - 1);
        assert(a.take(k)[0] == a[0]);
        assert(a.take(k).drop_first() =~= a.drop_first().take(k - 1));
        assert(a.skip(k) =~= a.drop_first().skip(k - 1));
        assert(esc(a.take(k)) == esc_byte(a[0]) + esc(a.drop_first().take(k - 1)));
        assert(esc(a) =~= esc(a.take(k)) + esc(a.skip(k)));
    }
}

/// A serialized element list splits at any element boundary.
pub proof fn lemma_ser_elems_split(fs: Seq<JVal>, k: int)
    requires
        1 <= k <= fs.len(),
    ensures
        ser_elems(fs) == ser_elems(fs.take(k)) + (if k < fs.len() {
            seq![44u8] + ser_elems(fs.skip(k))
        } else {
            Seq::<u8>::empty()
        }),
    decreases k,
{
    if k == 1 {
        if fs.len() == 1 {
            assert(fs.take(1) =~= fs);
            assert(ser_elems(fs) =~= ser_elems(fs.take(1)) + Seq::<u8>::empty());
        } else {
            assert(fs.take(1)[0] == fs[0]);
            assert(fs.take(1).len() == 1);
            assert(ser_elems(fs.take(1)) == ser(fs[0]));
            assert(fs.skip(1) =~= fs.drop_first());
            assert(ser_elems(fs) =~= ser_elems(fs.take(1)) + (seq![44u8] + ser_elems(
                fs.skip(1))));
        }
    } else {
        lemma_ser_elems_split(fs.drop_first(), k - 1);
        assert(fs.take(k)[0] == fs[0]);
        assert(fs.take(k).len() == k);
        assert(fs.take(k).drop_first() =~= fs.drop_first().take(k - 1));
        assert(fs.skip(k) =~= fs.drop_first().skip(k - 1));
        assert(ser_elems(fs.take(k)) == ser(fs[0]) + seq![44u8] + ser_elems(
            fs.drop_first().take(k - 1)));
        if k < fs.len() {
            assert(ser_elems(fs) =~= ser_elems(fs.take(k)) + (seq![44u8] + ser_elems(
                fs.skip(k))));
        } else {
            assert(ser_elems(fs) =~= ser_elems(fs.take(k)) + Seq::<u8>::empty());
        }
    }
}

/// A serialized member list splits at any member boundary.
pub proof fn lemma_ser_members_split(ms: Seq<(Seq<u8>, JVal)>, k: int)
    requires
        1 <= k <= ms.len(),
    ensures
        ser_members(ms) == ser_members(ms.take(k)) + (if k < ms.len() {
            seq![44u8] + ser_members(ms.skip(k))
        } else {
            Seq::<u8>::empty()
        }),
    decreases k,
{
    if k == 1 {
        if ms.len() == 1 {
            assert(ms.take(1) =~= ms);
            assert(ser_members(ms) =~= ser_members(ms.take(1)) + Seq::<u8>::empty());
        } else {
            assert(ms.take(1)[0] == ms[0]);
            assert(ms.take(1).len() == 1);
            assert(ser_members(ms.take(1)) == ser_member(ms[0]));
            assert(ms.skip(1) =~= ms.drop_first());
            assert(ser_members(ms) =~= ser_members(ms.take(1)) + (seq![44u8] + ser_members(
                ms.skip(1))));
        }
    } else {
        lemma_ser_members_split(ms.drop_first(), k - 1);
        assert(ms.take(k)[0] == ms[0]);
        assert(ms.take(k).len() == k);
        assert(ms.take(k).drop_first() =~= ms.drop_first().take(k - 1));
        assert(ms.skip(k) =~= ms.drop_first().skip(k - 1));
        assert(ser_members(ms.take(k)) == ser_member(ms[0]) + seq![44u8] + ser_members(
            ms.drop_first().take(k - 1)));
        if k < ms.len() {
            assert(ser_members(ms) =~= ser_members(ms.take(k)) + (seq![44u8] + ser_members(
                ms.skip(k))));
        } else {
            assert(ser_members(ms) =~= ser_members(ms.take(k)) + Seq::<u8>::empty());
        }
    }
}

} // verus!
