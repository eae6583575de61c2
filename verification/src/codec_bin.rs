//! The binary wire format: a compact, field-name-keyed rendering of a
//! message, carried as a binary frame.
//!
//! Every atom is introduced by a one-byte tag. Integers and lengths are
//! eight little-endian bytes; strings carry their UTF-8 byte length and
//! bytes; lists and maps carry an entry count followed by their entries. A
//! message is a one-entry map from the message kind's name to the list of
//! its fields. The encoding is canonical: the decoder accepts exactly what
//! the encoder emits and reports anything else as a decode failure.

use vstd::prelude::*;
use vstd::bytes::{
    lemma_auto_spec_u64_to_from_le_bytes, spec_u64_from_le_bytes, spec_u64_to_le_bytes,
    u64_from_le_bytes, u64_to_le_bytes,
};
use vstd::slice::slice_subrange;
use vstd::string::StrSliceExecFns;
use vstd::utf8::{encode_utf8, encode_utf8_decode_utf8, encode_utf8_valid_utf8, valid_utf8};
use crate::messages::{
    ClientRoles, ErrorDetails, HelloDetails, Message, MessageV, PublishOptions, Reason,
    SubscribeOptions, URI,
};
use crate::values::{Dict, DictV, List, ListV, Value, ValueV};

verus! {

pub const TAG_NULL: u8 = 1;

pub const TAG_FALSE: u8 = 2;

pub const TAG_TRUE: u8 = 3;

pub const TAG_INT: u8 = 4;

pub const TAG_STR: u8 = 5;

pub const TAG_LIST: u8 = 6;

pub const TAG_DICT: u8 = 7;

/// The elements of `b` from position `pos` to its end.
pub open spec fn suffix_of<T>(b: Seq<T>, pos: int) -> Seq<T> {
    b.subrange(pos, b.len() as int)
}

pub open spec fn enc_u64(n: u64) -> Seq<u8> {
    spec_u64_to_le_bytes(n)
}

pub open spec fn enc_text(s: Seq<char>) -> Seq<u8> {
    seq![TAG_STR] + enc_u64(encode_utf8(s).len() as u64) + encode_utf8(s)
}

pub open spec fn enc_value(v: ValueV) -> Seq<u8> {
    match v {
        ValueV::Null => seq![TAG_NULL],
        ValueV::Bool(b) => if b {
            seq![TAG_TRUE]
        } else {
            seq![TAG_FALSE]
        },
        ValueV::Int(n) => seq![TAG_INT] + enc_u64(n),
        ValueV::Text(s) => enc_text(s),
    }
}

pub open spec fn enc_items(l: ListV) -> Seq<u8>
    decreases l.len(),
{
    if l.len() == 0 {
        Seq::empty()
    } else {
        enc_value(l[0]) + enc_items(l.drop_first())
    }
}

pub open spec fn enc_list(l: ListV) -> Seq<u8> {
    seq![TAG_LIST] + enc_u64(l.len() as u64) + enc_items(l)
}

pub open spec fn enc_pairs(d: DictV) -> Seq<u8>
    decreases d.len(),
{
    if d.len() == 0 {
        Seq::empty()
    } else {
        enc_text(d[0].0) + enc_value(d[0].1) + enc_pairs(d.drop_first())
    }
}

pub open spec fn enc_dict(d: DictV) -> Seq<u8> {
    seq![TAG_DICT] + enc_u64(d.len() as u64) + enc_pairs(d)
}

/// Cutting a concatenation out of the middle of a buffer.
pub(crate) proof fn lemma_chop<T>(b: Seq<T>, pos: int, a: Seq<T>, c: Seq<T>)
    requires
        0 <= pos <= b.len(),
        suffix_of(b, pos) == a.add(c),
    ensures
        pos + a.len() <= b.len(),
        b.subrange(pos, pos + a.len() as int) == a,
        suffix_of(b, pos + a.len() as int) == c,
{
    assert(suffix_of(b, pos).len() == a.add(c).len());
    assert(suffix_of(b, pos).len() == b.len() - pos);
    assert forall|i: int| 0 <= i < a.len() implies b[pos + i] == a[i] by {
        assert(0 <= i < suffix_of(b, pos).len());
        assert(suffix_of(b, pos)[i] == b[pos + i]);
        assert(a.add(c)[i] == a[i]);
        assert(suffix_of(b, pos)[i] == a.add(c)[i]);
    }
    assert forall|i: int| 0 <= i < c.len() implies b[pos + a.len() + i] == c[i] by {
        assert(0 <= a.len() + i < suffix_of(b, pos).len());
        assert(suffix_of(b, pos)[a.len() + i] == b[pos + a.len() + i]);
        assert(a.add(c)[a.len() + i] == c[i]);
        assert(suffix_of(b, pos)[a.len() + i] == a.add(c)[a.len() + i]);
    }
    assert(b.subrange(pos, pos + a.len() as int) =~= a);
    assert(suffix_of(b, pos + a.len() as int) =~= c);
}

proof fn lemma_items_snoc(l: ListV, v: ValueV)
    ensures
        enc_items(l.push(v)) == enc_items(l) + enc_value(v),
    decreases l.len(),
{
    if l.len() == 0 {
        assert(l.push(v)[0] == v);
        assert(l.push(v).drop_first() =~= Seq::<ValueV>::empty());
        assert(enc_items(l.push(v)) == enc_value(v) + enc_items(Seq::<ValueV>::empty()));
        assert(enc_items(Seq::<ValueV>::empty()) == Seq::<u8>::empty());
        assert(enc_value(v) + Seq::<u8>::empty() =~= Seq::<u8>::empty() + enc_value(v));
    } else {
        assert(l.push(v)[0] == l[0]);
        assert(l.push(v).drop_first() =~= l.drop_first().push(v));
        lemma_items_snoc(l.drop_first(), v);
        assert(enc_items(l.push(v)) == enc_value(l[0]) + (enc_items(l.drop_first()) + enc_value(
            v,
        )));
        assert(enc_value(l[0]) + (enc_items(l.drop_first()) + enc_value(v)) =~= (enc_value(l[0])
            + enc_items(l.drop_first())) + enc_value(v));
    }
}

proof fn lemma_pairs_snoc(d: DictV, k: Seq<char>, v: ValueV)
    ensures
        enc_pairs(d.push((k, v))) == enc_pairs(d) + enc_text(k) + enc_value(v),
    decreases d.len(),
{
    if d.len() == 0 {
        assert(d.push((k, v))[0] == (k, v));
        assert(d.push((k, v)).drop_first() =~= Seq::<(Seq<char>, ValueV)>::empty());
        assert(enc_pairs(d.push((k, v))) == enc_text(k) + enc_value(v) + enc_pairs(
            Seq::<(Seq<char>, ValueV)>::empty(),
        ));
        assert(enc_pairs(Seq::<(Seq<char>, ValueV)>::empty()) == Seq::<u8>::empty());
        assert(enc_text(k) + enc_value(v) + Seq::<u8>::empty() =~= Seq::<u8>::empty() + enc_text(k)
            + enc_value(v));
    } else {
        assert(d.push((k, v))[0] == d[0]);
        assert(d.push((k, v)).drop_first() =~= d.drop_first().push((k, v)));
        lemma_pairs_snoc(d.drop_first(), k, v);
        assert(enc_pairs(d.push((k, v))) == enc_text(d[0].0) + enc_value(d[0].1) + (enc_pairs(
            d.drop_first(),
        ) + enc_text(k) + enc_value(v)));
        assert(enc_text(d[0].0) + enc_value(d[0].1) + (enc_pairs(d.drop_first()) + enc_text(k)
            + enc_value(v)) =~= (enc_text(d[0].0) + enc_value(d[0].1) + enc_pairs(d.drop_first()))
            + enc_text(k) + enc_value(v));
    }
}

fn put_u64(out: &mut Vec<u8>, n: u64)
    ensures
        final(out)@ == old(out)@ + enc_u64(n),
{
    let mut b = u64_to_le_bytes(n);
    out.append(&mut b);
}

fn put_text(out: &mut Vec<u8>, s: &str)
    ensures
        final(out)@ == old(out)@ + enc_text(s@),
{
    out.push(TAG_STR);
    let mut b = s.as_bytes_vec();
    put_u64(out, b.len() as u64);
    out.append(&mut b);
    proof {
        assert(out@ =~= old(out)@ + enc_text(s@));
    }
}

fn put_value(out: &mut Vec<u8>, v: &Value)
    ensures
        final(out)@ == old(out)@ + enc_value(v.deep_view()),
{
    match v {
        Value::Null => {
            out.push(TAG_NULL);
            proof {
                assert(out@ =~= old(out)@ + enc_value(v.deep_view()));
            }
        },
        Value::Bool(b) => {
            if *b {
                out.push(TAG_TRUE);
            } else {
                out.push(TAG_FALSE);
            }
            proof {
                assert(out@ =~= old(out)@ + enc_value(v.deep_view()));
            }
        },
        Value::Int(n) => {
            out.push(TAG_INT);
            put_u64(out, *n);
            proof {
                assert(out@ =~= old(out)@ + enc_value(v.deep_view()));
            }
        },
        Value::Text(s) => {
            put_text(out, s.as_str());
        },
    }
}

fn put_items(out: &mut Vec<u8>, l: &List)
    ensures
        final(out)@ == old(out)@ + enc_items(l.deep_view()),
{
    let ghost lv = l.deep_view();
    let mut i: usize = 0;
    proof {
        assert(lv.take(0) =~= Seq::<ValueV>::empty());
    }
    while i < l.len()
        invariant
            i <= l.len(),
            lv == l.deep_view(),
            lv.len() == l@.len(),
            out@ == old(out)@ + enc_items(lv.take(i as int)),
        decreases l.len() - i,
    {
        put_value(out, &l[i]);
        proof {
            assert(lv.take(i + 1) =~= lv.take(i as int).push(lv[i as int]));
            lemma_items_snoc(lv.take(i as int), lv[i as int]);
            assert(out@ =~= old(out)@ + enc_items(lv.take(i + 1)));
        }
        i = i + 1;
    }
    proof {
        assert(lv.take(l@.len() as int) =~= lv);
    }
}

fn put_list(out: &mut Vec<u8>, l: &List)
    ensures
        final(out)@ == old(out)@ + enc_list(l.deep_view()),
{
    out.push(TAG_LIST);
    put_u64(out, l.len() as u64);
    put_items(out, l);
    proof {
        assert(out@ =~= old(out)@ + enc_list(l.deep_view()));
    }
}

fn put_pairs(out: &mut Vec<u8>, d: &Dict)
    ensures
        final(out)@ == old(out)@ + enc_pairs(d.deep_view()),
{
    let ghost dv = d.deep_view();
    let mut i: usize = 0;
    proof {
        assert(dv.take(0) =~= Seq::<(Seq<char>, ValueV)>::empty());
    }
    while i < d.len()
        invariant
            i <= d.len(),
            dv == d.deep_view(),
            dv.len() == d@.len(),
            out@ == old(out)@ + enc_pairs(dv.take(i as int)),
        decreases d.len() - i,
    {
        put_text(out, d[i].0.as_str());
        put_value(out, &d[i].1);
        proof {
            assert(dv[i as int] == (d@[i as int].0@, d@[i as int].1.deep_view()));
            assert(dv.take(i + 1) =~= dv.take(i as int).push(dv[i as int]));
            lemma_pairs_snoc(dv.take(i as int), dv[i as int].0, dv[i as int].1);
            assert(out@ =~= old(out)@ + enc_pairs(dv.take(i + 1)));
        }
        i = i + 1;
    }
    proof {
        assert(dv.take(d@.len() as int) =~= dv);
    }
}

/// Relies on String::from_utf8: it succeeds exactly on valid UTF-8 input,
/// and the returned string's UTF-8 bytes are the input bytes.
#[verifier::external_body]
fn string_from_utf8(v: Vec<u8>) -> (r: Option<String>)
    ensures
        r is Some <==> valid_utf8(v@),
        r matches Some(s) ==> encode_utf8(s@) == v@,
{
    String::from_utf8(v).ok()
}

/// The first byte of a value's encoding names its variant.
proof fn lemma_value_first(v: ValueV)
    ensures
        enc_value(v).len() >= 1,
        v is Null ==> enc_value(v) == seq![TAG_NULL],
        v is Bool ==> enc_value(v) == (if v->Bool_0 {
            seq![TAG_TRUE]
        } else {
            seq![TAG_FALSE]
        }),
        v is Int ==> enc_value(v) == seq![TAG_INT].add(enc_u64(v->Int_0)) && enc_value(v).len()
            == 9,
        v is Text ==> enc_value(v)[0] == TAG_STR && enc_value(v).len() >= 9,
{
    lemma_auto_spec_u64_to_from_le_bytes();
    match v {
        ValueV::Null => {},
        ValueV::Bool(b) => {},
        ValueV::Int(n) => {
            assert(enc_value(v) =~= seq![TAG_INT].add(enc_u64(n)));
        },
        ValueV::Text(s) => {
            assert(enc_value(v)[0] == TAG_STR);
        },
    }
}

/// How a string's encoding lies in a buffer.
proof fn lemma_text_decomp(b: Seq<u8>, pos: int, s: Seq<char>, rest: Seq<u8>)
    requires
        0 <= pos <= b.len(),
        b.len() <= u64::MAX,
        suffix_of(b, pos) == enc_text(s).add(rest),
    ensures
        enc_text(s).len() == 9 + encode_utf8(s).len(),
        encode_utf8(s).len() as u64 as nat == encode_utf8(s).len(),
        pos + 9 + encode_utf8(s).len() <= b.len(),
        b[pos] == TAG_STR,
        b.subrange(pos + 1, pos + 9) == enc_u64(encode_utf8(s).len() as u64),
        b.subrange(pos + 9, pos + 9 + encode_utf8(s).len() as int) == encode_utf8(s),
        suffix_of(b, pos + 9 + encode_utf8(s).len() as int) == rest,
{
    lemma_auto_spec_u64_to_from_le_bytes();
    let u = encode_utf8(s);
    let lenb = enc_u64(u.len() as u64);
    assert(suffix_of(b, pos) =~= seq![TAG_STR].add(lenb.add(u.add(rest))));
    lemma_chop(b, pos, seq![TAG_STR], lenb.add(u.add(rest)));
    assert(b.subrange(pos, pos + 1)[0] == b[pos]);
    lemma_chop(b, pos + 1, lenb, u.add(rest));
    lemma_chop(b, pos + 9, u, rest);
    assert(u.len() <= b.len() - pos);
    assert(u.len() as u64 as nat == u.len());
}

fn read_u64(buf: &Vec<u8>, pos: usize) -> (r: Option<(u64, usize)>)
    requires
        pos <= buf@.len(),
    ensures
        pos + 8 <= buf@.len() ==> (r matches Some(p) && p.0 == spec_u64_from_le_bytes(
            buf@.subrange(pos as int, pos as int + 8),
        ) && p.1 == pos + 8),
        pos + 8 > buf@.len() ==> r is None,
{
    if buf.len() - pos >= 8 {
        let s = slice_subrange(buf.as_slice(), pos, pos + 8);
        let x = u64_from_le_bytes(s);
        Some((x, pos + 8))
    } else {
        None
    }
}

fn read_text(buf: &Vec<u8>, pos: usize) -> (r: Option<(String, usize)>)
    requires
        pos <= buf@.len(),
    ensures
        r matches Some(p) ==> pos < p.1 <= buf@.len(),
        forall|s: Seq<char>, rest: Seq<u8>| #![trigger enc_text(s).add(rest)]
            suffix_of(buf@, pos as int) == enc_text(s).add(rest) ==> (r matches Some(p) && p.0@
                == s && p.1 == pos + enc_text(s).len()),
{
    let blen = buf.len();
    proof {
        assert(buf@.len() <= u64::MAX);
    }
    if pos >= blen || *vstd::slice::slice_index_get(buf.as_slice(), pos) != TAG_STR {
        proof {
            assert forall|s: Seq<char>, rest: Seq<u8>| #![trigger enc_text(s).add(rest)]
                suffix_of(buf@, pos as int) != enc_text(s).add(rest) by {
                if suffix_of(buf@, pos as int) == enc_text(s).add(rest) {
                    lemma_text_decomp(buf@, pos as int, s, rest);
                }
            }
        }
        return None;
    }
    let r1 = read_u64(buf, pos + 1);
    match r1 {
        None => {
            proof {
                assert forall|s: Seq<char>, rest: Seq<u8>| #![trigger enc_text(s).add(rest)]
                    suffix_of(buf@, pos as int) != enc_text(s).add(rest) by {
                    if suffix_of(buf@, pos as int) == enc_text(s).add(rest) {
                        lemma_text_decomp(buf@, pos as int, s, rest);
                    }
                }
            }
            None
        },
        Some((len, p2)) => {
            if len > (blen - p2) as u64 {
                proof {
                    lemma_auto_spec_u64_to_from_le_bytes();
                    assert forall|s: Seq<char>, rest: Seq<u8>| #![trigger enc_text(s).add(rest)]
                        suffix_of(buf@, pos as int) != enc_text(s).add(rest) by {
                        if suffix_of(buf@, pos as int) == enc_text(s).add(rest) {
                            lemma_text_decomp(buf@, pos as int, s, rest);
                        }
                    }
                }
                None
            } else {
                let n = len as usize;
                let bytes = vstd::slice::slice_to_vec(
                    slice_subrange(buf.as_slice(), p2, p2 + n),
                );
                match string_from_utf8(bytes) {
                    None => {
                        proof {
                            lemma_auto_spec_u64_to_from_le_bytes();
                            assert forall|s: Seq<char>, rest: Seq<u8>|
                                #![trigger enc_text(s).add(rest)]
                                suffix_of(buf@, pos as int) != enc_text(s).add(rest) by {
                                if suffix_of(buf@, pos as int) == enc_text(s).add(rest) {
                                    lemma_text_decomp(buf@, pos as int, s, rest);
                                    encode_utf8_valid_utf8(s);
                                }
                            }
                        }
                        None
                    },
                    Some(st) => {
                        let res = Some((st, p2 + n));
                        proof {
                            assert forall|s: Seq<char>, rest: Seq<u8>|
                                #![trigger enc_text(s).add(rest)]
                                suffix_of(buf@, pos as int) == enc_text(s).add(rest) implies (
                            res matches Some(p) && p.0@ == s && p.1 == pos + enc_text(
                                s,
                            ).len()) by {
                                lemma_text_decomp(buf@, pos as int, s, rest);
                                lemma_auto_spec_u64_to_from_le_bytes();
                                encode_utf8_decode_utf8(s);
                                encode_utf8_decode_utf8(st@);
                            }
                        }
                        res
                    },
                }
            }
        },
    }
}

fn read_value(buf: &Vec<u8>, pos: usize) -> (r: Option<(Value, usize)>)
    requires
        pos <= buf@.len(),
    ensures
        r matches Some(p) ==> pos < p.1 <= buf@.len(),
        forall|v: ValueV, rest: Seq<u8>| #![trigger enc_value(v).add(rest)]
            suffix_of(buf@, pos as int) == enc_value(v).add(rest) ==> (r matches Some(p)
                && p.0.deep_view() == v && p.1 == pos + enc_value(v).len()),
{
    let blen = buf.len();
    if pos >= blen {
        proof {
            assert forall|v: ValueV, rest: Seq<u8>| #![trigger enc_value(v).add(rest)]
                suffix_of(buf@, pos as int) != enc_value(v).add(rest) by {
                if suffix_of(buf@, pos as int) == enc_value(v).add(rest) {
                    lemma_value_first(v);
                    assert(suffix_of(buf@, pos as int).len() == 0);
                    assert(enc_value(v).add(rest).len() >= 1);
                }
            }
        }
        return None;
    }
    let tag = *vstd::slice::slice_index_get(buf.as_slice(), pos);
    proof {
        assert forall|v: ValueV, rest: Seq<u8>| #![trigger enc_value(v).add(rest)]
            suffix_of(buf@, pos as int) == enc_value(v).add(rest) implies buf@[pos as int]
            == enc_value(v)[0] by {
            lemma_value_first(v);
            assert(suffix_of(buf@, pos as int)[0] == buf@[pos as int]);
        }
    }
    if tag == TAG_NULL {
        let res = Some((Value::Null, pos + 1));
        proof {
            assert forall|v: ValueV, rest: Seq<u8>| #![trigger enc_value(v).add(rest)]
                suffix_of(buf@, pos as int) == enc_value(v).add(rest) implies (res matches Some(p)
                && p.0.deep_view() == v && p.1 == pos + enc_value(v).len()) by {
                lemma_value_first(v);
            }
        }
        res
    } else if tag == TAG_FALSE {
        let res = Some((Value::Bool(false), pos + 1));
        proof {
            assert forall|v: ValueV, rest: Seq<u8>| #![trigger enc_value(v).add(rest)]
                suffix_of(buf@, pos as int) == enc_value(v).add(rest) implies (res matches Some(p)
                && p.0.deep_view() == v && p.1 == pos + enc_value(v).len()) by {
                lemma_value_first(v);
            }
        }
        res
    } else if tag == TAG_TRUE {
        let res = Some((Value::Bool(true), pos + 1));
        proof {
            assert forall|v: ValueV, rest: Seq<u8>| #![trigger enc_value(v).add(rest)]
                suffix_of(buf@, pos as int) == enc_value(v).add(rest) implies (res matches Some(p)
                && p.0.deep_view() == v && p.1 == pos + enc_value(v).len()) by {
                lemma_value_first(v);
            }
        }
        res
    } else if tag == TAG_INT {
        match read_u64(buf, pos + 1) {
            None => {
                proof {
                    assert forall|v: ValueV, rest: Seq<u8>| #![trigger enc_value(v).add(rest)]
                        suffix_of(buf@, pos as int) != enc_value(v).add(rest) by {
                        if suffix_of(buf@, pos as int) == enc_value(v).add(rest) {
                            lemma_value_first(v);
                            if v is Int {
                                assert(suffix_of(buf@, pos as int) =~= seq![TAG_INT].add(
                                    enc_u64(v->Int_0).add(rest),
                                ));
                                lemma_chop(
                                    buf@,
                                    pos as int,
                                    seq![TAG_INT],
                                    enc_u64(v->Int_0).add(rest),
                                );
                                lemma_chop(buf@, pos as int + 1, enc_u64(v->Int_0), rest);
                                lemma_auto_spec_u64_to_from_le_bytes();
                            }
                        }
                    }
                }
                None
            },
            Some((n, p2)) => {
                let res = Some((Value::Int(n), p2));
                proof {
                    assert forall|v: ValueV, rest: Seq<u8>| #![trigger enc_value(v).add(rest)]
                        suffix_of(buf@, pos as int) == enc_value(v).add(rest) implies (
                    res matches Some(p) && p.0.deep_view() == v && p.1 == pos + enc_value(
                        v,
                    ).len()) by {
                        lemma_value_first(v);
                        lemma_auto_spec_u64_to_from_le_bytes();
                        assert(v is Int);
                        assert(suffix_of(buf@, pos as int) =~= seq![TAG_INT].add(
                            enc_u64(v->Int_0).add(rest),
                        ));
                        lemma_chop(buf@, pos as int, seq![TAG_INT], enc_u64(v->Int_0).add(rest));
                        lemma_chop(buf@, pos as int + 1, enc_u64(v->Int_0), rest);
                    }
                }
                res
            },
        }
    } else if tag == TAG_STR {
        match read_text(buf, pos) {
            None => {
                proof {
                    assert forall|v: ValueV, rest: Seq<u8>| #![trigger enc_value(v).add(rest)]
                        suffix_of(buf@, pos as int) != enc_value(v).add(rest) by {
                        if suffix_of(buf@, pos as int) == enc_value(v).add(rest) {
                            lemma_value_first(v);
                            assert(v is Text);
                            assert(enc_value(v) == enc_text(v->Text_0));
                            assert(suffix_of(buf@, pos as int) == enc_text(v->Text_0).add(rest));
                        }
                    }
                }
                None
            },
            Some((s, p2)) => {
                let res = Some((Value::Text(s), p2));
                proof {
                    assert forall|v: ValueV, rest: Seq<u8>| #![trigger enc_value(v).add(rest)]
                        suffix_of(buf@, pos as int) == enc_value(v).add(rest) implies (
                    res matches Some(p) && p.0.deep_view() == v && p.1 == pos + enc_value(
                        v,
                    ).len()) by {
                        lemma_value_first(v);
                        assert(v is Text);
                        assert(enc_value(v) == enc_text(v->Text_0));
                        assert(suffix_of(buf@, pos as int) == enc_text(v->Text_0).add(rest));
                    }
                }
                res
            },
        }
    } else {
        proof {
            assert forall|v: ValueV, rest: Seq<u8>| #![trigger enc_value(v).add(rest)]
                suffix_of(buf@, pos as int) != enc_value(v).add(rest) by {
                if suffix_of(buf@, pos as int) == enc_value(v).add(rest) {
                    lemma_value_first(v);
                }
            }
        }
        None
    }
}

/// Every list item takes at least one byte on the wire.
proof fn lemma_items_min_len(l: ListV)
    ensures
        enc_items(l).len() >= l.len(),
    decreases l.len(),
{
    if l.len() > 0 {
        lemma_value_first(l[0]);
        lemma_items_min_len(l.drop_first());
    }
}

/// Every map entry takes at least one byte on the wire.
proof fn lemma_pairs_min_len(d: DictV)
    ensures
        enc_pairs(d).len() >= d.len(),
    decreases d.len(),
{
    if d.len() > 0 {
        lemma_pairs_min_len(d.drop_first());
    }
}

fn read_items(buf: &Vec<u8>, pos: usize, count: u64) -> (r: Option<(List, usize)>)
    requires
        pos <= buf@.len(),
    ensures
        r matches Some(p) ==> pos <= p.1 <= buf@.len(),
        forall|l: ListV, rest: Seq<u8>| #![trigger enc_items(l).add(rest)]
            l.len() == count && suffix_of(buf@, pos as int) == enc_items(l).add(rest) ==> (
            r matches Some(p) && p.0.deep_view() == l && p.1 == pos + enc_items(l).len()),
    decreases count,
{
    if count == 0 {
        let res = Some((Vec::<Value>::new(), pos));
        proof {
            assert forall|l: ListV, rest: Seq<u8>| #![trigger enc_items(l).add(rest)]
                l.len() == count && suffix_of(buf@, pos as int) == enc_items(l).add(rest) implies (
            res matches Some(p) && p.0.deep_view() == l && p.1 == pos + enc_items(l).len()) by {
                assert(enc_items(l).len() == 0);
                assert(Seq::<Value>::empty().map(|i: int, t: Value| t.deep_view()) =~= l);
            }
        }
        return res;
    }
    match read_value(buf, pos) {
        None => {
            proof {
                assert forall|l: ListV, rest: Seq<u8>| #![trigger enc_items(l).add(rest)]
                    !(l.len() == count && suffix_of(buf@, pos as int) == enc_items(l).add(
                        rest,
                    )) by {
                    if l.len() == count && suffix_of(buf@, pos as int) == enc_items(l).add(rest) {
                        assert(suffix_of(buf@, pos as int) =~= enc_value(l[0]).add(
                            enc_items(l.drop_first()).add(rest),
                        ));
                    }
                }
            }
            None
        },
        Some((v, p1)) => {
            match read_items(buf, p1, count - 1) {
                None => {
                    proof {
                        assert forall|l: ListV, rest: Seq<u8>| #![trigger enc_items(l).add(rest)]
                            !(l.len() == count && suffix_of(buf@, pos as int) == enc_items(l).add(
                                rest,
                            )) by {
                            if l.len() == count && suffix_of(buf@, pos as int) == enc_items(
                                l,
                            ).add(rest) {
                                assert(suffix_of(buf@, pos as int) =~= enc_value(l[0]).add(
                                    enc_items(l.drop_first()).add(rest),
                                ));
                                lemma_chop(
                                    buf@,
                                    pos as int,
                                    enc_value(l[0]),
                                    enc_items(l.drop_first()).add(rest),
                                );
                            }
                        }
                    }
                    None
                },
                Some((tail, p2)) => {
                    let ghost tails = tail@;
                    let ghost tailv = tail.deep_view();
                    let mut out = tail;
                    out.insert(0, v);
                    let res = Some((out, p2));
                    proof {
                        assert forall|l: ListV, rest: Seq<u8>| #![trigger enc_items(l).add(rest)]
                            l.len() == count && suffix_of(buf@, pos as int) == enc_items(l).add(
                                rest,
                            ) implies (res matches Some(p) && p.0.deep_view() == l && p.1 == pos
                            + enc_items(l).len()) by {
                            assert(suffix_of(buf@, pos as int) =~= enc_value(l[0]).add(
                                enc_items(l.drop_first()).add(rest),
                            ));
                            lemma_chop(
                                buf@,
                                pos as int,
                                enc_value(l[0]),
                                enc_items(l.drop_first()).add(rest),
                            );
                            assert(tailv == l.drop_first());
                            assert(out@ == tails.insert(0, v));
                            assert forall|i: int| 0 <= i < l.len() implies out.deep_view()[i]
                                == l[i] by {
                                if i == 0 {
                                    assert(out@[0] == v);
                                } else {
                                    assert(out@[i] == tails[i - 1]);
                                    assert(tailv[i - 1] == l.drop_first()[i - 1]);
                                }
                            }
                            assert(out.deep_view() =~= l);
                        }
                    }
                    res
                },
            }
        },
    }
}

fn read_list(buf: &Vec<u8>, pos: usize) -> (r: Option<(List, usize)>)
    requires
        pos <= buf@.len(),
    ensures
        r matches Some(p) ==> pos <= p.1 <= buf@.len(),
        forall|l: ListV, rest: Seq<u8>| #![trigger enc_list(l).add(rest)]
            suffix_of(buf@, pos as int) == enc_list(l).add(rest) ==> (r matches Some(p)
                && p.0.deep_view() == l && p.1 == pos + enc_list(l).len()),
{
    proof {
        lemma_auto_spec_u64_to_from_le_bytes();
        assert forall|l: ListV, rest: Seq<u8>| #![trigger enc_list(l).add(rest)]
            suffix_of(buf@, pos as int) == enc_list(l).add(rest) implies suffix_of(
            buf@,
            pos as int,
        ) == seq![TAG_LIST].add(enc_u64(l.len() as u64).add(enc_items(l).add(rest)))
            && enc_items(l).len() >= l.len() by {
            assert(suffix_of(buf@, pos as int) =~= seq![TAG_LIST].add(
                enc_u64(l.len() as u64).add(enc_items(l).add(rest)),
            ));
            lemma_items_min_len(l);
        }
    }
    let blen = buf.len();
    if pos >= blen || *vstd::slice::slice_index_get(buf.as_slice(), pos) != TAG_LIST {
        proof {
            assert forall|l: ListV, rest: Seq<u8>| #![trigger enc_list(l).add(rest)]
                suffix_of(buf@, pos as int) != enc_list(l).add(rest) by {
                if suffix_of(buf@, pos as int) == enc_list(l).add(rest) {
                    lemma_chop(
                        buf@,
                        pos as int,
                        seq![TAG_LIST],
                        enc_u64(l.len() as u64).add(enc_items(l).add(rest)),
                    );
                    assert(buf@.subrange(pos as int, pos as int + 1)[0] == buf@[pos as int]);
                }
            }
        }
        return None;
    }
    match read_u64(buf, pos + 1) {
        None => {
            proof {
                lemma_auto_spec_u64_to_from_le_bytes();
                assert forall|l: ListV, rest: Seq<u8>| #![trigger enc_list(l).add(rest)]
                    suffix_of(buf@, pos as int) != enc_list(l).add(rest) by {
                    if suffix_of(buf@, pos as int) == enc_list(l).add(rest) {
                        lemma_chop(
                            buf@,
                            pos as int,
                            seq![TAG_LIST],
                            enc_u64(l.len() as u64).add(enc_items(l).add(rest)),
                        );
                    }
                }
            }
            None
        },
        Some((count, p2)) => {
            if count > (blen - p2) as u64 {
                proof {
                    lemma_auto_spec_u64_to_from_le_bytes();
                    assert forall|l: ListV, rest: Seq<u8>| #![trigger enc_list(l).add(rest)]
                        suffix_of(buf@, pos as int) != enc_list(l).add(rest) by {
                        if suffix_of(buf@, pos as int) == enc_list(l).add(rest) {
                            lemma_chop(
                                buf@,
                                pos as int,
                                seq![TAG_LIST],
                                enc_u64(l.len() as u64).add(enc_items(l).add(rest)),
                            );
                            lemma_chop(
                                buf@,
                                pos as int + 1,
                                enc_u64(l.len() as u64),
                                enc_items(l).add(rest),
                            );
                            lemma_items_min_len(l);
                        }
                    }
                }
                None
            } else {
                match read_items(buf, p2, count) {
                    None => {
                        proof {
                            lemma_auto_spec_u64_to_from_le_bytes();
                            assert forall|l: ListV, rest: Seq<u8>|
                                #![trigger enc_list(l).add(rest)]
                                suffix_of(buf@, pos as int) != enc_list(l).add(rest) by {
                                if suffix_of(buf@, pos as int) == enc_list(l).add(rest) {
                                    lemma_chop(
                                        buf@,
                                        pos as int,
                                        seq![TAG_LIST],
                                        enc_u64(l.len() as u64).add(enc_items(l).add(rest)),
                                    );
                                    lemma_chop(
                                        buf@,
                                        pos as int + 1,
                                        enc_u64(l.len() as u64),
                                        enc_items(l).add(rest),
                                    );
                                }
                            }
                        }
                        None
                    },
                    Some((items, p3)) => {
                        let res = Some((items, p3));
                        proof {
                            lemma_auto_spec_u64_to_from_le_bytes();
                            assert forall|l: ListV, rest: Seq<u8>|
                                #![trigger enc_list(l).add(rest)]
                                suffix_of(buf@, pos as int) == enc_list(l).add(rest) implies (
                            res matches Some(p) && p.0.deep_view() == l && p.1 == pos + enc_list(
                                l,
                            ).len()) by {
                                lemma_chop(
                                    buf@,
                                    pos as int,
                                    seq![TAG_LIST],
                                    enc_u64(l.len() as u64).add(enc_items(l).add(rest)),
                                );
                                lemma_chop(
                                    buf@,
                                    pos as int + 1,
                                    enc_u64(l.len() as u64),
                                    enc_items(l).add(rest),
                                );
                            }
                        }
                        res
                    },
                }
            }
        },
    }
}

fn read_pairs(buf: &Vec<u8>, pos: usize, count: u64) -> (r: Option<(Dict, usize)>)
    requires
        pos <= buf@.len(),
    ensures
        r matches Some(p) ==> pos <= p.1 <= buf@.len(),
        forall|d: DictV, rest: Seq<u8>| #![trigger enc_pairs(d).add(rest)]
            d.len() == count && suffix_of(buf@, pos as int) == enc_pairs(d).add(rest) ==> (
            r matches Some(p) && p.0.deep_view() == d && p.1 == pos + enc_pairs(d).len()),
    decreases count,
{
    if count == 0 {
        let res = Some((Vec::<(String, Value)>::new(), pos));
        proof {
            assert forall|d: DictV, rest: Seq<u8>| #![trigger enc_pairs(d).add(rest)]
                d.len() == count && suffix_of(buf@, pos as int) == enc_pairs(d).add(rest) implies (
            res matches Some(p) && p.0.deep_view() == d && p.1 == pos + enc_pairs(d).len()) by {
                assert(enc_pairs(d).len() == 0);
                assert(Seq::<(String, Value)>::empty().map(
                    |i: int, t: (String, Value)| t.deep_view(),
                ) =~= d);
            }
        }
        return res;
    }
    let ghost decomp = |d: DictV, rest: Seq<u8>|
        enc_text(d[0].0).add(enc_value(d[0].1).add(enc_pairs(d.drop_first()).add(rest)));
    proof {
        assert forall|d: DictV, rest: Seq<u8>| #![trigger enc_pairs(d).add(rest)]
            d.len() == count && suffix_of(buf@, pos as int) == enc_pairs(d).add(rest) implies
            suffix_of(buf@, pos as int) == decomp(d, rest) by {
            assert(suffix_of(buf@, pos as int) =~= decomp(d, rest));
        }
    }
    match read_text(buf, pos) {
        None => {
            proof {
                assert forall|d: DictV, rest: Seq<u8>| #![trigger enc_pairs(d).add(rest)]
                    !(d.len() == count && suffix_of(buf@, pos as int) == enc_pairs(d).add(
                        rest,
                    )) by {
                    if d.len() == count && suffix_of(buf@, pos as int) == enc_pairs(d).add(rest) {
                        assert(suffix_of(buf@, pos as int) == decomp(d, rest));
                    }
                }
            }
            None
        },
        Some((k, p1)) => {
            match read_value(buf, p1) {
                None => {
                    proof {
                        assert forall|d: DictV, rest: Seq<u8>| #![trigger enc_pairs(d).add(rest)]
                            !(d.len() == count && suffix_of(buf@, pos as int) == enc_pairs(d).add(
                                rest,
                            )) by {
                            if d.len() == count && suffix_of(buf@, pos as int) == enc_pairs(
                                d,
                            ).add(rest) {
                                assert(suffix_of(buf@, pos as int) == decomp(d, rest));
                                lemma_chop(
                                    buf@,
                                    pos as int,
                                    enc_text(d[0].0),
                                    enc_value(d[0].1).add(enc_pairs(d.drop_first()).add(rest)),
                                );
                            }
                        }
                    }
                    None
                },
                Some((v, p2)) => {
                    match read_pairs(buf, p2, count - 1) {
                        None => {
                            proof {
                                assert forall|d: DictV, rest: Seq<u8>|
                                    #![trigger enc_pairs(d).add(rest)]
                                    !(d.len() == count && suffix_of(buf@, pos as int) == enc_pairs(
                                        d,
                                    ).add(rest)) by {
                                    if d.len() == count && suffix_of(buf@, pos as int)
                                        == enc_pairs(d).add(rest) {
                                        assert(suffix_of(buf@, pos as int) == decomp(d, rest));
                                        lemma_chop(
                                            buf@,
                                            pos as int,
                                            enc_text(d[0].0),
                                            enc_value(d[0].1).add(
                                                enc_pairs(d.drop_first()).add(rest),
                                            ),
                                        );
                                        lemma_chop(
                                            buf@,
                                            pos as int + enc_text(d[0].0).len() as int,
                                            enc_value(d[0].1),
                                            enc_pairs(d.drop_first()).add(rest),
                                        );
                                    }
                                }
                            }
                            None
                        },
                        Some((tail, p3)) => {
                            let ghost kv = k@;
                            let ghost vv = v.deep_view();
                            let ghost tails = tail@;
                            let ghost tailv = tail.deep_view();
                            let mut out = tail;
                            out.insert(0, (k, v));
                            let res = Some((out, p3));
                            proof {
                                assert forall|d: DictV, rest: Seq<u8>|
                                    #![trigger enc_pairs(d).add(rest)]
                                    d.len() == count && suffix_of(buf@, pos as int) == enc_pairs(
                                        d,
                                    ).add(rest) implies (res matches Some(p) && p.0.deep_view()
                                    == d && p.1 == pos + enc_pairs(d).len()) by {
                                    assert(suffix_of(buf@, pos as int) == decomp(d, rest));
                                    lemma_chop(
                                        buf@,
                                        pos as int,
                                        enc_text(d[0].0),
                                        enc_value(d[0].1).add(enc_pairs(d.drop_first()).add(rest)),
                                    );
                                    lemma_chop(
                                        buf@,
                                        pos as int + enc_text(d[0].0).len() as int,
                                        enc_value(d[0].1),
                                        enc_pairs(d.drop_first()).add(rest),
                                    );
                                    assert(tailv == d.drop_first());
                                    assert(kv == d[0].0 && vv == d[0].1);
                                    assert forall|i: int| 0 <= i < d.len() implies
                                        out.deep_view()[i] == d[i] by {
                                        if i == 0 {
                                            assert(out@[0].deep_view() == (kv, vv));
                                        } else {
                                            assert(out@[i] == tails[i - 1]);
                                            assert(tailv[i - 1] == d.drop_first()[i - 1]);
                                        }
                                    }
                                    assert(out.deep_view() =~= d);
                                }
                            }
                            res
                        },
                    }
                },
            }
        },
    }
}

fn read_dict(buf: &Vec<u8>, pos: usize) -> (r: Option<(Dict, usize)>)
    requires
        pos <= buf@.len(),
    ensures
        r matches Some(p) ==> pos <= p.1 <= buf@.len(),
        forall|d: DictV, rest: Seq<u8>| #![trigger enc_dict(d).add(rest)]
            suffix_of(buf@, pos as int) == enc_dict(d).add(rest) ==> (r matches Some(p)
                && p.0.deep_view() == d && p.1 == pos + enc_dict(d).len()),
{
    proof {
        lemma_auto_spec_u64_to_from_le_bytes();
        assert forall|d: DictV, rest: Seq<u8>| #![trigger enc_dict(d).add(rest)]
            suffix_of(buf@, pos as int) == enc_dict(d).add(rest) implies suffix_of(
            buf@,
            pos as int,
        ) == seq![TAG_DICT].add(enc_u64(d.len() as u64).add(enc_pairs(d).add(rest)))
            && enc_pairs(d).len() >= d.len() by {
            assert(suffix_of(buf@, pos as int) =~= seq![TAG_DICT].add(
                enc_u64(d.len() as u64).add(enc_pairs(d).add(rest)),
            ));
            lemma_pairs_min_len(d);
        }
    }
    let blen = buf.len();
    if pos >= blen || *vstd::slice::slice_index_get(buf.as_slice(), pos) != TAG_DICT {
        proof {
            assert forall|d: DictV, rest: Seq<u8>| #![trigger enc_dict(d).add(rest)]
                suffix_of(buf@, pos as int) != enc_dict(d).add(rest) by {
                if suffix_of(buf@, pos as int) == enc_dict(d).add(rest) {
                    lemma_chop(
                        buf@,
                        pos as int,
                        seq![TAG_DICT],
                        enc_u64(d.len() as u64).add(enc_pairs(d).add(rest)),
                    );
                    assert(buf@.subrange(pos as int, pos as int + 1)[0] == buf@[pos as int]);
                }
            }
        }
        return None;
    }
    match read_u64(buf, pos + 1) {
        None => {
            proof {
                lemma_auto_spec_u64_to_from_le_bytes();
                assert forall|d: DictV, rest: Seq<u8>| #![trigger enc_dict(d).add(rest)]
                    suffix_of(buf@, pos as int) != enc_dict(d).add(rest) by {
                    if suffix_of(buf@, pos as int) == enc_dict(d).add(rest) {
                        lemma_chop(
                            buf@,
                            pos as int,
                            seq![TAG_DICT],
                            enc_u64(d.len() as u64).add(enc_pairs(d).add(rest)),
                        );
                    }
                }
            }
            None
        },
        Some((count, p2)) => {
            if count > (blen - p2) as u64 {
                proof {
                    lemma_auto_spec_u64_to_from_le_bytes();
                    assert forall|d: DictV, rest: Seq<u8>| #![trigger enc_dict(d).add(rest)]
                        suffix_of(buf@, pos as int) != enc_dict(d).add(rest) by {
                        if suffix_of(buf@, pos as int) == enc_dict(d).add(rest) {
                            lemma_chop(
                                buf@,
                                pos as int,
                                seq![TAG_DICT],
                                enc_u64(d.len() as u64).add(enc_pairs(d).add(rest)),
                            );
                            lemma_chop(
                                buf@,
                                pos as int + 1,
                                enc_u64(d.len() as u64),
                                enc_pairs(d).add(rest),
                            );
                            lemma_pairs_min_len(d);
                        }
                    }
                }
                None
            } else {
                match read_pairs(buf, p2, count) {
                    None => {
                        proof {
                            lemma_auto_spec_u64_to_from_le_bytes();
                            assert forall|d: DictV, rest: Seq<u8>|
                                #![trigger enc_dict(d).add(rest)]
                                suffix_of(buf@, pos as int) != enc_dict(d).add(rest) by {
                                if suffix_of(buf@, pos as int) == enc_dict(d).add(rest) {
                                    lemma_chop(
                                        buf@,
                                        pos as int,
                                        seq![TAG_DICT],
                                        enc_u64(d.len() as u64).add(enc_pairs(d).add(rest)),
                                    );
                                    lemma_chop(
                                        buf@,
                                        pos as int + 1,
                                        enc_u64(d.len() as u64),
                                        enc_pairs(d).add(rest),
                                    );
                                }
                            }
                        }
                        None
                    },
                    Some((entries, p3)) => {
                        let res = Some((entries, p3));
                        proof {
                            lemma_auto_spec_u64_to_from_le_bytes();
                            assert forall|d: DictV, rest: Seq<u8>|
                                #![trigger enc_dict(d).add(rest)]
                                suffix_of(buf@, pos as int) == enc_dict(d).add(rest) implies (
                            res matches Some(p) && p.0.deep_view() == d && p.1 == pos + enc_dict(
                                d,
                            ).len()) by {
                                lemma_chop(
                                    buf@,
                                    pos as int,
                                    seq![TAG_DICT],
                                    enc_u64(d.len() as u64).add(enc_pairs(d).add(rest)),
                                );
                                lemma_chop(
                                    buf@,
                                    pos as int + 1,
                                    enc_u64(d.len() as u64),
                                    enc_pairs(d).add(rest),
                                );
                            }
                        }
                        res
                    },
                }
            }
        },
    }
}

fn put_dict(out: &mut Vec<u8>, d: &Dict)
    ensures
        final(out)@ == old(out)@ + enc_dict(d.deep_view()),
{
    out.push(TAG_DICT);
    put_u64(out, d.len() as u64);
    put_pairs(out, d);
    proof {
        assert(out@ =~= old(out)@ + enc_dict(d.deep_view()));
    }
}

pub open spec fn enc_id(n: u64) -> Seq<u8> {
    seq![TAG_INT] + enc_u64(n)
}

/// The constant empty map, sent where the protocol calls for a detail or
/// option record that this client leaves empty.
pub open spec fn enc_empty_dict() -> Seq<u8> {
    seq![TAG_DICT] + enc_u64(0)
}

/// The constant role advertisement: this client is a publisher and a
/// subscriber, nothing more.
pub open spec fn enc_roles() -> Seq<u8> {
    seq![TAG_DICT] + enc_u64(1) + enc_text("roles"@) + seq![TAG_DICT] + enc_u64(2) + enc_text(
        "publisher"@,
    ) + enc_empty_dict() + enc_text("subscriber"@) + enc_empty_dict()
}

pub open spec fn enc_pub_opts(o: PublishOptions) -> Seq<u8> {
    seq![TAG_DICT] + enc_u64(1) + enc_text("acknowledge"@) + (if o.acknowledge {
        seq![TAG_TRUE]
    } else {
        seq![TAG_FALSE]
    })
}

pub open spec fn reason_text(r: Reason) -> Seq<char> {
    match r {
        Reason::GoodbyeAndOut => "wamp.close.goodbye_and_out"@,
        Reason::SystemShutdown => "wamp.close.system_shutdown"@,
        Reason::CloseRealm => "wamp.close.close_realm"@,
        Reason::Unknown => "wamp.close.unknown"@,
    }
}

pub open spec fn enc_reason(r: Reason) -> Seq<u8> {
    enc_text(reason_text(r))
}

pub open spec fn msg_name(m: MessageV) -> Seq<char> {
    match m {
        MessageV::Hello(..) => "Hello"@,
        MessageV::Welcome(..) => "Welcome"@,
        MessageV::Abort(..) => "Abort"@,
        MessageV::Goodbye(..) => "Goodbye"@,
        MessageV::Subscribe(..) => "Subscribe"@,
        MessageV::Subscribed(..) => "Subscribed"@,
        MessageV::Event(..) => "Event"@,
        MessageV::EventArgs(..) => "EventArgs"@,
        MessageV::EventKwArgs(..) => "EventKwArgs"@,
        MessageV::Publish(..) => "Publish"@,
        MessageV::PublishArgs(..) => "PublishArgs"@,
        MessageV::PublishKwArgs(..) => "PublishKwArgs"@,
        MessageV::Error(..) => "Error"@,
    }
}

pub open spec fn msg_field_count(m: MessageV) -> u64 {
    match m {
        MessageV::Hello(..) => 2,
        MessageV::Welcome(..) => 2,
        MessageV::Abort(..) => 2,
        MessageV::Goodbye(..) => 2,
        MessageV::Subscribe(..) => 3,
        MessageV::Subscribed(..) => 2,
        MessageV::Event(..) => 3,
        MessageV::EventArgs(..) => 4,
        MessageV::EventKwArgs(..) => 5,
        MessageV::Publish(..) => 3,
        MessageV::PublishArgs(..) => 4,
        MessageV::PublishKwArgs(..) => 5,
        MessageV::Error(..) => 2,
    }
}

pub open spec fn enc_fields(m: MessageV) -> Seq<u8> {
    match m {
        MessageV::Hello(realm, d) => enc_text(realm) + enc_roles(),
        MessageV::Welcome(sid, d) => enc_id(sid) + enc_dict(d),
        MessageV::Abort(d, r) => enc_dict(d) + enc_reason(r),
        MessageV::Goodbye(det, r) => enc_empty_dict() + enc_reason(r),
        MessageV::Subscribe(rid, o, t) => enc_id(rid) + enc_empty_dict() + enc_text(t),
        MessageV::Subscribed(rid, sid) => enc_id(rid) + enc_id(sid),
        MessageV::Event(sid, pid, d) => enc_id(sid) + enc_id(pid) + enc_dict(d),
        MessageV::EventArgs(sid, pid, d, a) => enc_id(sid) + enc_id(pid) + enc_dict(d) + enc_list(
            a,
        ),
        MessageV::EventKwArgs(sid, pid, d, a, k) => enc_id(sid) + enc_id(pid) + enc_dict(d)
            + enc_list(a) + enc_dict(k),
        MessageV::Publish(rid, o, t) => enc_id(rid) + enc_pub_opts(o) + enc_text(t),
        MessageV::PublishArgs(rid, o, t, a) => enc_id(rid) + enc_pub_opts(o) + enc_text(t)
            + enc_list(a),
        MessageV::PublishKwArgs(rid, o, t, a, k) => enc_id(rid) + enc_pub_opts(o) + enc_text(t)
            + enc_list(a) + enc_dict(k),
        MessageV::Error(rid, u) => enc_id(rid) + enc_text(u),
    }
}

/// A message on the wire: a one-entry map from the message kind's name to
/// the list of its fields.
pub open spec fn enc_msg(m: MessageV) -> Seq<u8> {
    seq![TAG_DICT] + enc_u64(1) + enc_text(msg_name(m)) + seq![TAG_LIST] + enc_u64(
        msg_field_count(m),
    ) + enc_fields(m)
}

fn put_id(out: &mut Vec<u8>, n: u64)
    ensures
        final(out)@ == old(out)@ + enc_id(n),
{
    out.push(TAG_INT);
    put_u64(out, n);
    proof {
        assert(out@ =~= old(out)@ + enc_id(n));
    }
}

fn put_empty_dict(out: &mut Vec<u8>)
    ensures
        final(out)@ == old(out)@ + enc_empty_dict(),
{
    out.push(TAG_DICT);
    put_u64(out, 0);
    proof {
        assert(out@ =~= old(out)@ + enc_empty_dict());
    }
}

fn put_roles(out: &mut Vec<u8>)
    ensures
        final(out)@ == old(out)@ + enc_roles(),
{
    out.push(TAG_DICT);
    put_u64(out, 1);
    put_text(out, "roles");
    out.push(TAG_DICT);
    put_u64(out, 2);
    put_text(out, "publisher");
    put_empty_dict(out);
    put_text(out, "subscriber");
    put_empty_dict(out);
    proof {
        assert(out@ =~= old(out)@ + enc_roles());
    }
}

fn put_pub_opts(out: &mut Vec<u8>, o: &PublishOptions)
    ensures
        final(out)@ == old(out)@ + enc_pub_opts(*o),
{
    out.push(TAG_DICT);
    put_u64(out, 1);
    put_text(out, "acknowledge");
    if o.acknowledge {
        out.push(TAG_TRUE);
    } else {
        out.push(TAG_FALSE);
    }
    proof {
        assert(out@ =~= old(out)@ + enc_pub_opts(*o));
    }
}

fn put_reason(out: &mut Vec<u8>, r: &Reason)
    ensures
        final(out)@ == old(out)@ + enc_reason(*r),
{
    match r {
        Reason::GoodbyeAndOut => put_text(out, "wamp.close.goodbye_and_out"),
        Reason::SystemShutdown => put_text(out, "wamp.close.system_shutdown"),
        Reason::CloseRealm => put_text(out, "wamp.close.close_realm"),
        Reason::Unknown => put_text(out, "wamp.close.unknown"),
    }
}

fn put_msg_header(out: &mut Vec<u8>, name: &str, count: u64)
    ensures
        final(out)@ == old(out)@ + seq![TAG_DICT] + enc_u64(1) + enc_text(name@) + seq![TAG_LIST]
            + enc_u64(count),
{
    out.push(TAG_DICT);
    put_u64(out, 1);
    put_text(out, name);
    out.push(TAG_LIST);
    put_u64(out, count);
    proof {
        assert(out@ =~= old(out)@ + seq![TAG_DICT] + enc_u64(1) + enc_text(name@) + seq![TAG_LIST]
            + enc_u64(count));
    }
}

/// Encode a message in the binary wire format.
#[verifier::rlimit(80)]
pub fn encode_bin(m: &Message) -> (r: Vec<u8>)
    ensures
        r@ == enc_msg(m.deep_view()),
{
    let mut out = Vec::<u8>::new();
    match m {
        Message::Hello(realm, d) => {
            put_msg_header(&mut out, "Hello", 2);
            put_text(&mut out, realm.uri.as_str());
            put_roles(&mut out);
        },
        Message::Welcome(sid, d) => {
            put_msg_header(&mut out, "Welcome", 2);
            put_id(&mut out, *sid);
            put_dict(&mut out, d);
        },
        Message::Abort(d, r2) => {
            put_msg_header(&mut out, "Abort", 2);
            put_dict(&mut out, d);
            put_reason(&mut out, r2);
        },
        Message::Goodbye(det, r2) => {
            put_msg_header(&mut out, "Goodbye", 2);
            put_empty_dict(&mut out);
            put_reason(&mut out, r2);
        },
        Message::Subscribe(rid, o, t) => {
            put_msg_header(&mut out, "Subscribe", 3);
            put_id(&mut out, *rid);
            put_empty_dict(&mut out);
            put_text(&mut out, t.uri.as_str());
        },
        Message::Subscribed(rid, sid) => {
            put_msg_header(&mut out, "Subscribed", 2);
            put_id(&mut out, *rid);
            put_id(&mut out, *sid);
        },
        Message::Event(sid, pid, d) => {
            put_msg_header(&mut out, "Event", 3);
            put_id(&mut out, *sid);
            put_id(&mut out, *pid);
            put_dict(&mut out, d);
        },
        Message::EventArgs(sid, pid, d, a) => {
            put_msg_header(&mut out, "EventArgs", 4);
            put_id(&mut out, *sid);
            put_id(&mut out, *pid);
            put_dict(&mut out, d);
            put_list(&mut out, a);
        },
        Message::EventKwArgs(sid, pid, d, a, k) => {
            put_msg_header(&mut out, "EventKwArgs", 5);
            put_id(&mut out, *sid);
            put_id(&mut out, *pid);
            put_dict(&mut out, d);
            put_list(&mut out, a);
            put_dict(&mut out, k);
        },
        Message::Publish(rid, o, t) => {
            put_msg_header(&mut out, "Publish", 3);
            put_id(&mut out, *rid);
            put_pub_opts(&mut out, o);
            put_text(&mut out, t.uri.as_str());
        },
        Message::PublishArgs(rid, o, t, a) => {
            put_msg_header(&mut out, "PublishArgs", 4);
            put_id(&mut out, *rid);
            put_pub_opts(&mut out, o);
            put_text(&mut out, t.uri.as_str());
            put_list(&mut out, a);
        },
        Message::PublishKwArgs(rid, o, t, a, k) => {
            put_msg_header(&mut out, "PublishKwArgs", 5);
            put_id(&mut out, *rid);
            put_pub_opts(&mut out, o);
            put_text(&mut out, t.uri.as_str());
            put_list(&mut out, a);
            put_dict(&mut out, k);
        },
        Message::Error(rid, u) => {
            put_msg_header(&mut out, "Error", 2);
            put_id(&mut out, *rid);
            put_text(&mut out, u.uri.as_str());
        },
    }
    proof {
        assert(out@ =~= enc_msg(m.deep_view()));
    }
    out
}

pub(crate) fn str_eq(a: &str, b: &str) -> (r: bool)
    ensures
        r == (a@ == b@),
{
    let sa = a.to_owned();
    let sb = b.to_owned();
    sa == sb
}

fn expect_seg(buf: &Vec<u8>, pos: usize, pat: &Vec<u8>) -> (r: Option<usize>)
    requires
        pos <= buf@.len(),
    ensures
        r matches Some(p) ==> p == pos + pat@.len(),
        (r is Some) == (pos + pat@.len() <= buf@.len() && buf@.subrange(
            pos as int,
            pos as int + pat@.len() as int,
        ) == pat@),
{
    let blen = buf.len();
    if blen - pos < pat.len() {
        return None;
    }
    let mut i: usize = 0;
    while i < pat.len()
        invariant
            blen == buf@.len(),
            pos + pat@.len() <= blen,
            i <= pat@.len(),
            forall|j: int| 0 <= j < i ==> buf@[pos + j] == pat@[j],
        decreases pat@.len() - i,
    {
        let bb = *vstd::slice::slice_index_get(buf.as_slice(), pos + i);
        let pb = *vstd::slice::slice_index_get(pat.as_slice(), i);
        if bb != pb {
            proof {
                if buf@.subrange(pos as int, pos as int + pat@.len() as int) == pat@ {
                    assert(buf@.subrange(pos as int, pos as int + pat@.len() as int)[i as int]
                        == buf@[pos + i]);
                }
            }
            return None;
        }
        i = i + 1;
    }
    proof {
        assert(buf@.subrange(pos as int, pos as int + pat@.len() as int) =~= pat@);
    }
    Some(pos + pat.len())
}

fn roles_bytes() -> (r: Vec<u8>)
    ensures
        r@ == enc_roles(),
{
    let mut v = Vec::<u8>::new();
    put_roles(&mut v);
    proof {
        assert(v@ =~= enc_roles());
    }
    v
}

fn empty_dict_bytes() -> (r: Vec<u8>)
    ensures
        r@ == enc_empty_dict(),
{
    let mut v = Vec::<u8>::new();
    put_empty_dict(&mut v);
    proof {
        assert(v@ =~= enc_empty_dict());
    }
    v
}

fn read_id(buf: &Vec<u8>, pos: usize) -> (r: Option<(u64, usize)>)
    requires
        pos <= buf@.len(),
    ensures
        r matches Some(p) ==> pos < p.1 <= buf@.len() && p.1 == pos + 9,
        forall|n: u64, rest: Seq<u8>| #![trigger enc_id(n).add(rest)]
            suffix_of(buf@, pos as int) == enc_id(n).add(rest) ==> (r matches Some(p) && p.0 == n
                && p.1 == pos + 9),
{
    proof {
        lemma_auto_spec_u64_to_from_le_bytes();
        assert forall|n: u64, rest: Seq<u8>| #![trigger enc_id(n).add(rest)]
            suffix_of(buf@, pos as int) == enc_id(n).add(rest) implies suffix_of(buf@, pos as int)
            == seq![TAG_INT].add(enc_u64(n).add(rest)) && buf@[pos as int] == TAG_INT && pos + 9
            <= buf@.len() && buf@.subrange(pos as int + 1, pos as int + 9) == enc_u64(n) by {
            assert(suffix_of(buf@, pos as int) =~= seq![TAG_INT].add(enc_u64(n).add(rest)));
            lemma_chop(buf@, pos as int, seq![TAG_INT], enc_u64(n).add(rest));
            assert(buf@.subrange(pos as int, pos as int + 1)[0] == buf@[pos as int]);
            lemma_chop(buf@, pos as int + 1, enc_u64(n), rest);
        }
    }
    let blen = buf.len();
    if pos >= blen || *vstd::slice::slice_index_get(buf.as_slice(), pos) != TAG_INT {
        return None;
    }
    match read_u64(buf, pos + 1) {
        None => None,
        Some((n, p2)) => {
            proof {
                lemma_auto_spec_u64_to_from_le_bytes();
            }
            Some((n, p2))
        },
    }
}

pub(crate) proof fn lemma_reason_inv(r: Reason)
    ensures
        (reason_text(r) == "wamp.close.goodbye_and_out"@) == (r is GoodbyeAndOut),
        (reason_text(r) == "wamp.close.system_shutdown"@) == (r is SystemShutdown),
        (reason_text(r) == "wamp.close.close_realm"@) == (r is CloseRealm),
        (reason_text(r) == "wamp.close.unknown"@) == (r is Unknown),
{
    reveal_strlit("wamp.close.goodbye_and_out");
    reveal_strlit("wamp.close.system_shutdown");
    reveal_strlit("wamp.close.close_realm");
    reveal_strlit("wamp.close.unknown");
    assert("wamp.close.goodbye_and_out"@.len() == 26);
    assert("wamp.close.system_shutdown"@.len() == 26);
    assert("wamp.close.close_realm"@.len() == 22);
    assert("wamp.close.unknown"@.len() == 18);
    assert("wamp.close.goodbye_and_out"@[11] == 'g');
    assert("wamp.close.system_shutdown"@[11] == 's');
}

fn read_reason(buf: &Vec<u8>, pos: usize) -> (r: Option<(Reason, usize)>)
    requires
        pos <= buf@.len(),
    ensures
        r matches Some(p) ==> pos < p.1 <= buf@.len(),
        forall|rs: Reason, rest: Seq<u8>| #![trigger enc_reason(rs).add(rest)]
            suffix_of(buf@, pos as int) == enc_reason(rs).add(rest) ==> (r matches Some(p) && p.0
                == rs && p.1 == pos + enc_reason(rs).len()),
{
    proof {
        assert forall|rs: Reason, rest: Seq<u8>| #![trigger enc_reason(rs).add(rest)]
            suffix_of(buf@, pos as int) == enc_reason(rs).add(rest) implies suffix_of(
            buf@,
            pos as int,
        ) == enc_text(reason_text(rs)).add(rest) by {
            assert(enc_reason(rs) == enc_text(reason_text(rs)));
        }
    }
    match read_text(buf, pos) {
        None => None,
        Some((s, p2)) => {
            let rr = if str_eq(s.as_str(), "wamp.close.goodbye_and_out") {
                Reason::GoodbyeAndOut
            } else if str_eq(s.as_str(), "wamp.close.system_shutdown") {
                Reason::SystemShutdown
            } else if str_eq(s.as_str(), "wamp.close.close_realm") {
                Reason::CloseRealm
            } else {
                Reason::Unknown
            };
            let res = Some((rr, p2));
            proof {
                assert forall|rs: Reason, rest: Seq<u8>| #![trigger enc_reason(rs).add(rest)]
                    suffix_of(buf@, pos as int) == enc_reason(rs).add(rest) implies (
                res matches Some(p) && p.0 == rs && p.1 == pos + enc_reason(rs).len()) by {
                    lemma_reason_inv(rs);
                }
            }
            res
        },
    }
}

pub open spec fn popts_prefix() -> Seq<u8> {
    seq![TAG_DICT] + enc_u64(1) + enc_text("acknowledge"@)
}

fn popts_prefix_bytes() -> (r: Vec<u8>)
    ensures
        r@ == popts_prefix(),
{
    let mut v = Vec::<u8>::new();
    v.push(TAG_DICT);
    put_u64(&mut v, 1);
    put_text(&mut v, "acknowledge");
    proof {
        assert(v@ =~= popts_prefix());
    }
    v
}

fn read_pub_opts(buf: &Vec<u8>, pos: usize) -> (r: Option<(PublishOptions, usize)>)
    requires
        pos <= buf@.len(),
    ensures
        r matches Some(p) ==> pos < p.1 <= buf@.len(),
        forall|o: PublishOptions, rest: Seq<u8>| #![trigger enc_pub_opts(o).add(rest)]
            suffix_of(buf@, pos as int) == enc_pub_opts(o).add(rest) ==> (r matches Some(p) && p.0
                == o && p.1 == pos + enc_pub_opts(o).len()),
{
    proof {
        assert forall|o: PublishOptions, rest: Seq<u8>| #![trigger enc_pub_opts(o).add(rest)]
            suffix_of(buf@, pos as int) == enc_pub_opts(o).add(rest) implies suffix_of(
            buf@,
            pos as int,
        ) == popts_prefix().add((if o.acknowledge {
            seq![TAG_TRUE]
        } else {
            seq![TAG_FALSE]
        }).add(rest)) && enc_pub_opts(o).len() == popts_prefix().len() + 1 by {
            assert(suffix_of(buf@, pos as int) =~= popts_prefix().add((if o.acknowledge {
                seq![TAG_TRUE]
            } else {
                seq![TAG_FALSE]
            }).add(rest)));
        }
    }
    let pat = popts_prefix_bytes();
    match expect_seg(buf, pos, &pat) {
        None => {
            proof {
                assert forall|o: PublishOptions, rest: Seq<u8>|
                    #![trigger enc_pub_opts(o).add(rest)]
                    suffix_of(buf@, pos as int) != enc_pub_opts(o).add(rest) by {
                    if suffix_of(buf@, pos as int) == enc_pub_opts(o).add(rest) {
                        lemma_chop(
                            buf@,
                            pos as int,
                            popts_prefix(),
                            (if o.acknowledge {
                                seq![TAG_TRUE]
                            } else {
                                seq![TAG_FALSE]
                            }).add(rest),
                        );
                    }
                }
            }
            None
        },
        Some(p1) => {
            let blen = buf.len();
            if p1 >= blen {
                proof {
                    assert forall|o: PublishOptions, rest: Seq<u8>|
                        #![trigger enc_pub_opts(o).add(rest)]
                        suffix_of(buf@, pos as int) != enc_pub_opts(o).add(rest) by {
                        if suffix_of(buf@, pos as int) == enc_pub_opts(o).add(rest) {
                            lemma_chop(
                                buf@,
                                pos as int,
                                popts_prefix(),
                                (if o.acknowledge {
                                    seq![TAG_TRUE]
                                } else {
                                    seq![TAG_FALSE]
                                }).add(rest),
                            );
                        }
                    }
                }
                return None;
            }
            let tag = *vstd::slice::slice_index_get(buf.as_slice(), p1);
            proof {
                assert forall|o: PublishOptions, rest: Seq<u8>|
                    #![trigger enc_pub_opts(o).add(rest)]
                    suffix_of(buf@, pos as int) == enc_pub_opts(o).add(rest) implies buf@[p1 as int]
                    == (if o.acknowledge {
                    TAG_TRUE
                } else {
                    TAG_FALSE
                }) && pos + enc_pub_opts(o).len() == p1 + 1 by {
                    let t = if o.acknowledge {
                        seq![TAG_TRUE]
                    } else {
                        seq![TAG_FALSE]
                    };
                    lemma_chop(buf@, pos as int, popts_prefix(), t.add(rest));
                    lemma_chop(buf@, p1 as int, t, rest);
                    assert(buf@.subrange(p1 as int, p1 as int + 1)[0] == buf@[p1 as int]);
                }
            }
            if tag == TAG_TRUE {
                Some((PublishOptions { acknowledge: true }, p1 + 1))
            } else if tag == TAG_FALSE {
                Some((PublishOptions { acknowledge: false }, p1 + 1))
            } else {
                None
            }
        },
    }
}

pub(crate) proof fn lemma_name_inv(m: MessageV)
    ensures
        (msg_name(m) == "Hello"@) == (m is Hello),
        (msg_name(m) == "Welcome"@) == (m is Welcome),
        (msg_name(m) == "Abort"@) == (m is Abort),
        (msg_name(m) == "Goodbye"@) == (m is Goodbye),
        (msg_name(m) == "Subscribe"@) == (m is Subscribe),
        (msg_name(m) == "Subscribed"@) == (m is Subscribed),
        (msg_name(m) == "Event"@) == (m is Event),
        (msg_name(m) == "EventArgs"@) == (m is EventArgs),
        (msg_name(m) == "EventKwArgs"@) == (m is EventKwArgs),
        (msg_name(m) == "Publish"@) == (m is Publish),
        (msg_name(m) == "PublishArgs"@) == (m is PublishArgs),
        (msg_name(m) == "PublishKwArgs"@) == (m is PublishKwArgs),
        (msg_name(m) == "Error"@) == (m is Error),
{
    reveal_strlit("Hello");
    reveal_strlit("Welcome");
    reveal_strlit("Abort");
    reveal_strlit("Goodbye");
    reveal_strlit("Subscribe");
    reveal_strlit("Subscribed");
    reveal_strlit("Event");
    reveal_strlit("EventArgs");
    reveal_strlit("EventKwArgs");
    reveal_strlit("Publish");
    reveal_strlit("PublishArgs");
    reveal_strlit("PublishKwArgs");
    reveal_strlit("Error");
    assert("Hello"@[0] == 'H' && "Abort"@[0] == 'A' && "Event"@[0] == 'E' && "Error"@[0] == 'E');
    assert("Event"@[1] == 'v' && "Error"@[1] == 'r');
    assert("Publish"@[0] == 'P' && "Welcome"@[0] == 'W');
    assert("Subscribe"@[0] == 'S' && "EventArgs"@[0] == 'E');
    assert("PublishArgs"@[0] == 'P' && "EventKwArgs"@[0] == 'E');
    assert("Hello"@.len() == 5 && "Welcome"@.len() == 7 && "Abort"@.len() == 5 && "Goodbye"@.len()
        == 7 && "Subscribe"@.len() == 9 && "Subscribed"@.len() == 10 && "Event"@.len() == 5
        && "EventArgs"@.len() == 9 && "EventKwArgs"@.len() == 11 && "Publish"@.len() == 7
        && "PublishArgs"@.len() == 11 && "PublishKwArgs"@.len() == 13 && "Error"@.len() == 5);
    assert("Goodbye"@[0] == 'G');
}

/// How a message's encoding lies in a buffer.
proof fn lemma_msg_decomp(b: Seq<u8>, pos: int, m: MessageV, rest: Seq<u8>)
    requires
        0 <= pos <= b.len(),
        suffix_of(b, pos) == enc_msg(m).add(rest),
    ensures
        pos + 18 <= b.len(),
        b[pos] == TAG_DICT,
        b.subrange(pos + 1, pos + 9) == enc_u64(1),
        suffix_of(b, pos + 9) == enc_text(msg_name(m)).add(
            seq![TAG_LIST].add(enc_u64(msg_field_count(m)).add(enc_fields(m).add(rest))),
        ),
        b[pos + 9 + enc_text(msg_name(m)).len()] == TAG_LIST,
        b.subrange(
            pos + 10 + enc_text(msg_name(m)).len() as int,
            pos + 18 + enc_text(msg_name(m)).len() as int,
        ) == enc_u64(msg_field_count(m)),
        suffix_of(b, pos + 18 + enc_text(msg_name(m)).len() as int) == enc_fields(m).add(rest),
        enc_msg(m).len() == 18 + enc_text(msg_name(m)).len() + enc_fields(m).len(),
        pos + 18 + enc_text(msg_name(m)).len() <= b.len(),
{
    lemma_auto_spec_u64_to_from_le_bytes();
    let nm = enc_text(msg_name(m));
    let cnt = enc_u64(msg_field_count(m));
    let flds = enc_fields(m);
    assert(suffix_of(b, pos) =~= seq![TAG_DICT].add(
        enc_u64(1).add(nm.add(seq![TAG_LIST].add(cnt.add(flds.add(rest))))),
    ));
    lemma_chop(b, pos, seq![TAG_DICT], enc_u64(1).add(nm.add(seq![TAG_LIST].add(cnt.add(flds.add(
        rest,
    ))))));
    assert(b.subrange(pos, pos + 1)[0] == b[pos]);
    lemma_chop(b, pos + 1, enc_u64(1), nm.add(seq![TAG_LIST].add(cnt.add(flds.add(rest)))));
    lemma_chop(b, pos + 9, nm, seq![TAG_LIST].add(cnt.add(flds.add(rest))));
    let pn = pos + 9 + nm.len() as int;
    lemma_chop(b, pn, seq![TAG_LIST], cnt.add(flds.add(rest)));
    assert(b.subrange(pn, pn + 1)[0] == b[pn]);
    lemma_chop(b, pn + 1, cnt, flds.add(rest));
    lemma_chop(b, pn + 9, flds, rest);
}

fn read_fields_hello(buf: &Vec<u8>, pos: usize) -> (r: Option<(Message, usize)>)
    requires
        pos <= buf@.len(),
    ensures
        r matches Some(p) ==> pos <= p.1 <= buf@.len(),
        forall|m: MessageV, rest: Seq<u8>| #![trigger enc_fields(m).add(rest)]
            m is Hello && suffix_of(buf@, pos as int) == enc_fields(m).add(rest) ==> (
            r matches Some(p) && p.0.deep_view() == m && p.1 == pos + enc_fields(m).len()),
{
    proof {
        assert forall|m: MessageV, rest: Seq<u8>| #![trigger enc_fields(m).add(rest)]
            m is Hello && suffix_of(buf@, pos as int) == enc_fields(m).add(rest) implies {
            let nm = enc_text(m->Hello_0);
            &&& suffix_of(buf@, pos as int) == nm.add(enc_roles().add(rest))
            &&& pos + nm.len() + enc_roles().len() <= buf@.len()
            &&& buf@.subrange(
                pos + nm.len() as int,
                pos + nm.len() + enc_roles().len() as int,
            ) == enc_roles()
            &&& enc_fields(m).len() == nm.len() + enc_roles().len()
        } by {
            let nm = enc_text(m->Hello_0);
            assert(suffix_of(buf@, pos as int) =~= nm.add(enc_roles().add(rest)));
            lemma_chop(buf@, pos as int, nm, enc_roles().add(rest));
            lemma_chop(buf@, pos + nm.len() as int, enc_roles(), rest);
        }
    }
    match read_text(buf, pos) {
        None => None,
        Some((realm, p1)) => {
            let pat = roles_bytes();
            match expect_seg(buf, p1, &pat) {
                None => None,
                Some(p2) => Some(
                    (
                        Message::Hello(URI { uri: realm }, HelloDetails { roles: ClientRoles {  } }),
                        p2,
                    ),
                ),
            }
        },
    }
}

fn read_fields_welcome(buf: &Vec<u8>, pos: usize) -> (r: Option<(Message, usize)>)
    requires
        pos <= buf@.len(),
    ensures
        r matches Some(p) ==> pos <= p.1 <= buf@.len(),
        forall|m: MessageV, rest: Seq<u8>| #![trigger enc_fields(m).add(rest)]
            m is Welcome && suffix_of(buf@, pos as int) == enc_fields(m).add(rest) ==> (
            r matches Some(p) && p.0.deep_view() == m && p.1 == pos + enc_fields(m).len()),
{
    proof {
        assert forall|m: MessageV, rest: Seq<u8>| #![trigger enc_fields(m).add(rest)]
            m is Welcome && suffix_of(buf@, pos as int) == enc_fields(m).add(rest) implies {
            &&& suffix_of(buf@, pos as int) == enc_id(m->Welcome_0).add(
                enc_dict(m->Welcome_1).add(rest),
            )
            &&& suffix_of(buf@, pos + 9) == enc_dict(m->Welcome_1).add(rest)
            &&& enc_fields(m).len() == 9 + enc_dict(m->Welcome_1).len()
        } by {
            lemma_auto_spec_u64_to_from_le_bytes();
            assert(suffix_of(buf@, pos as int) =~= enc_id(m->Welcome_0).add(
                enc_dict(m->Welcome_1).add(rest),
            ));
            lemma_chop(buf@, pos as int, enc_id(m->Welcome_0), enc_dict(m->Welcome_1).add(rest));
        }
    }
    match read_id(buf, pos) {
        None => None,
        Some((sid, p1)) => {
            match read_dict(buf, p1) {
                None => None,
                Some((d, p2)) => Some((Message::Welcome(sid, d), p2)),
            }
        },
    }
}

fn read_fields_abort(buf: &Vec<u8>, pos: usize) -> (r: Option<(Message, usize)>)
    requires
        pos <= buf@.len(),
    ensures
        r matches Some(p) ==> pos <= p.1 <= buf@.len(),
        forall|m: MessageV, rest: Seq<u8>| #![trigger enc_fields(m).add(rest)]
            m is Abort && suffix_of(buf@, pos as int) == enc_fields(m).add(rest) ==> (
            r matches Some(p) && p.0.deep_view() == m && p.1 == pos + enc_fields(m).len()),
{
    proof {
        assert forall|m: MessageV, rest: Seq<u8>| #![trigger enc_fields(m).add(rest)]
            m is Abort && suffix_of(buf@, pos as int) == enc_fields(m).add(rest) implies {
            &&& suffix_of(buf@, pos as int) == enc_dict(m->Abort_0).add(
                enc_reason(m->Abort_1).add(rest),
            )
            &&& suffix_of(buf@, pos + enc_dict(m->Abort_0).len() as int) == enc_reason(
                m->Abort_1,
            ).add(rest)
            &&& enc_fields(m).len() == enc_dict(m->Abort_0).len() + enc_reason(m->Abort_1).len()
        } by {
            assert(suffix_of(buf@, pos as int) =~= enc_dict(m->Abort_0).add(
                enc_reason(m->Abort_1).add(rest),
            ));
            lemma_chop(buf@, pos as int, enc_dict(m->Abort_0), enc_reason(m->Abort_1).add(rest));
        }
    }
    match read_dict(buf, pos) {
        None => None,
        Some((d, p1)) => {
            match read_reason(buf, p1) {
                None => None,
                Some((rs, p2)) => Some((Message::Abort(d, rs), p2)),
            }
        },
    }
}

fn read_fields_goodbye(buf: &Vec<u8>, pos: usize) -> (r: Option<(Message, usize)>)
    requires
        pos <= buf@.len(),
    ensures
        r matches Some(p) ==> pos <= p.1 <= buf@.len(),
        forall|m: MessageV, rest: Seq<u8>| #![trigger enc_fields(m).add(rest)]
            m is Goodbye && suffix_of(buf@, pos as int) == enc_fields(m).add(rest) ==> (
            r matches Some(p) && p.0.deep_view() == m && p.1 == pos + enc_fields(m).len()),
{
    proof {
        assert forall|m: MessageV, rest: Seq<u8>| #![trigger enc_fields(m).add(rest)]
            m is Goodbye && suffix_of(buf@, pos as int) == enc_fields(m).add(rest) implies {
            &&& suffix_of(buf@, pos as int) == enc_empty_dict().add(
                enc_reason(m->Goodbye_1).add(rest),
            )
            &&& pos + enc_empty_dict().len() <= buf@.len()
            &&& buf@.subrange(pos as int, pos + enc_empty_dict().len() as int)
                == enc_empty_dict()
            &&& suffix_of(buf@, pos + enc_empty_dict().len() as int) == enc_reason(
                m->Goodbye_1,
            ).add(rest)
            &&& enc_fields(m).len() == enc_empty_dict().len() + enc_reason(m->Goodbye_1).len()
        } by {
            assert(suffix_of(buf@, pos as int) =~= enc_empty_dict().add(
                enc_reason(m->Goodbye_1).add(rest),
            ));
            lemma_chop(buf@, pos as int, enc_empty_dict(), enc_reason(m->Goodbye_1).add(rest));
        }
    }
    let pat = empty_dict_bytes();
    match expect_seg(buf, pos, &pat) {
        None => None,
        Some(p1) => {
            match read_reason(buf, p1) {
                None => None,
                Some((rs, p2)) => Some((Message::Goodbye(ErrorDetails {  }, rs), p2)),
            }
        },
    }
}

fn read_fields_subscribe(buf: &Vec<u8>, pos: usize) -> (r: Option<(Message, usize)>)
    requires
        pos <= buf@.len(),
    ensures
        r matches Some(p) ==> pos <= p.1 <= buf@.len(),
        forall|m: MessageV, rest: Seq<u8>| #![trigger enc_fields(m).add(rest)]
            m is Subscribe && suffix_of(buf@, pos as int) == enc_fields(m).add(rest) ==> (
            r matches Some(p) && p.0.deep_view() == m && p.1 == pos + enc_fields(m).len()),
{
    proof {
        assert forall|m: MessageV, rest: Seq<u8>| #![trigger enc_fields(m).add(rest)]
            m is Subscribe && suffix_of(buf@, pos as int) == enc_fields(m).add(rest) implies {
            &&& suffix_of(buf@, pos as int) == enc_id(m->Subscribe_0).add(
                enc_empty_dict().add(enc_text(m->Subscribe_2).add(rest)),
            )
            &&& pos + 9 + enc_empty_dict().len() <= buf@.len()
            &&& suffix_of(buf@, pos + 9) == enc_empty_dict().add(
                enc_text(m->Subscribe_2).add(rest),
            )
            &&& buf@.subrange(pos + 9, pos + 9 + enc_empty_dict().len() as int)
                == enc_empty_dict()
            &&& suffix_of(buf@, pos + 9 + enc_empty_dict().len() as int) == enc_text(
                m->Subscribe_2,
            ).add(rest)
            &&& enc_fields(m).len() == 9 + enc_empty_dict().len() + enc_text(
                m->Subscribe_2,
            ).len()
        } by {
            lemma_auto_spec_u64_to_from_le_bytes();
            assert(suffix_of(buf@, pos as int) =~= enc_id(m->Subscribe_0).add(
                enc_empty_dict().add(enc_text(m->Subscribe_2).add(rest)),
            ));
            lemma_chop(
                buf@,
                pos as int,
                enc_id(m->Subscribe_0),
                enc_empty_dict().add(enc_text(m->Subscribe_2).add(rest)),
            );
            lemma_chop(buf@, pos + 9, enc_empty_dict(), enc_text(m->Subscribe_2).add(rest));
        }
    }
    match read_id(buf, pos) {
        None => None,
        Some((rid, p1)) => {
            let pat = empty_dict_bytes();
            match expect_seg(buf, p1, &pat) {
                None => None,
                Some(p2) => {
                    match read_text(buf, p2) {
                        None => None,
                        Some((topic, p3)) => Some(
                            (
                                Message::Subscribe(rid, SubscribeOptions {  }, URI { uri: topic }),
                                p3,
                            ),
                        ),
                    }
                },
            }
        },
    }
}

fn read_fields_subscribed(buf: &Vec<u8>, pos: usize) -> (r: Option<(Message, usize)>)
    requires
        pos <= buf@.len(),
    ensures
        r matches Some(p) ==> pos <= p.1 <= buf@.len(),
        forall|m: MessageV, rest: Seq<u8>| #![trigger enc_fields(m).add(rest)]
            m is Subscribed && suffix_of(buf@, pos as int) == enc_fields(m).add(rest) ==> (
            r matches Some(p) && p.0.deep_view() == m && p.1 == pos + enc_fields(m).len()),
{
    proof {
        assert forall|m: MessageV, rest: Seq<u8>| #![trigger enc_fields(m).add(rest)]
            m is Subscribed && suffix_of(buf@, pos as int) == enc_fields(m).add(rest) implies {
            &&& suffix_of(buf@, pos as int) == enc_id(m->Subscribed_0).add(
                enc_id(m->Subscribed_1).add(rest),
            )
            &&& suffix_of(buf@, pos + 9) == enc_id(m->Subscribed_1).add(rest)
            &&& enc_fields(m).len() == 18
        } by {
            lemma_auto_spec_u64_to_from_le_bytes();
            assert(suffix_of(buf@, pos as int) =~= enc_id(m->Subscribed_0).add(
                enc_id(m->Subscribed_1).add(rest),
            ));
            lemma_chop(
                buf@,
                pos as int,
                enc_id(m->Subscribed_0),
                enc_id(m->Subscribed_1).add(rest),
            );
        }
    }
    match read_id(buf, pos) {
        None => None,
        Some((rid, p1)) => {
            match read_id(buf, p1) {
                None => None,
                Some((sid, p2)) => Some((Message::Subscribed(rid, sid), p2)),
            }
        },
    }
}

fn read_fields_error(buf: &Vec<u8>, pos: usize) -> (r: Option<(Message, usize)>)
    requires
        pos <= buf@.len(),
    ensures
        r matches Some(p) ==> pos <= p.1 <= buf@.len(),
        forall|m: MessageV, rest: Seq<u8>| #![trigger enc_fields(m).add(rest)]
            m is Error && suffix_of(buf@, pos as int) == enc_fields(m).add(rest) ==> (
            r matches Some(p) && p.0.deep_view() == m && p.1 == pos + enc_fields(m).len()),
{
    proof {
        assert forall|m: MessageV, rest: Seq<u8>| #![trigger enc_fields(m).add(rest)]
            m is Error && suffix_of(buf@, pos as int) == enc_fields(m).add(rest) implies {
            &&& suffix_of(buf@, pos as int) == enc_id(m->Error_0).add(
                enc_text(m->Error_1).add(rest),
            )
            &&& suffix_of(buf@, pos + 9) == enc_text(m->Error_1).add(rest)
            &&& enc_fields(m).len() == 9 + enc_text(m->Error_1).len()
        } by {
            lemma_auto_spec_u64_to_from_le_bytes();
            assert(suffix_of(buf@, pos as int) =~= enc_id(m->Error_0).add(
                enc_text(m->Error_1).add(rest),
            ));
            lemma_chop(buf@, pos as int, enc_id(m->Error_0), enc_text(m->Error_1).add(rest));
        }
    }
    match read_id(buf, pos) {
        None => None,
        Some((rid, p1)) => {
            match read_text(buf, p1) {
                None => None,
                Some((u, p2)) => Some((Message::Error(rid, URI { uri: u }), p2)),
            }
        },
    }
}

fn read_fields_event(buf: &Vec<u8>, pos: usize, nargs: u8) -> (r: Option<(Message, usize)>)
    requires
        pos <= buf@.len(),
        nargs <= 2,
    ensures
        r matches Some(p) ==> pos <= p.1 <= buf@.len(),
        forall|m: MessageV, rest: Seq<u8>| #![trigger enc_fields(m).add(rest)]
            ((nargs == 0 && m is Event) || (nargs == 1 && m is EventArgs) || (nargs == 2
                && m is EventKwArgs)) && suffix_of(buf@, pos as int) == enc_fields(m).add(rest)
                ==> (r matches Some(p) && p.0.deep_view() == m && p.1 == pos + enc_fields(
                m,
            ).len()),
{
    proof {
        lemma_auto_spec_u64_to_from_le_bytes();
        assert forall|m: MessageV, rest: Seq<u8>| #![trigger enc_fields(m).add(rest)]
            (m is Event || m is EventArgs || m is EventKwArgs) && suffix_of(buf@, pos as int)
                == enc_fields(m).add(rest) implies {
            &&& (m is Event ==> {
                let d = m->Event_2;
                &&& suffix_of(buf@, pos as int) == enc_id(m->Event_0).add(
                    enc_id(m->Event_1).add(enc_dict(d).add(rest)),
                )
                &&& suffix_of(buf@, pos + 9) == enc_id(m->Event_1).add(enc_dict(d).add(rest))
                &&& suffix_of(buf@, pos + 18) == enc_dict(d).add(rest)
                &&& enc_fields(m).len() == 18 + enc_dict(d).len()
            })
            &&& (m is EventArgs ==> {
                let d = m->EventArgs_2;
                let a = m->EventArgs_3;
                &&& suffix_of(buf@, pos as int) == enc_id(m->EventArgs_0).add(
                    enc_id(m->EventArgs_1).add(enc_dict(d).add(enc_list(a).add(rest))),
                )
                &&& suffix_of(buf@, pos + 9) == enc_id(m->EventArgs_1).add(
                    enc_dict(d).add(enc_list(a).add(rest)),
                )
                &&& suffix_of(buf@, pos + 18) == enc_dict(d).add(enc_list(a).add(rest))
                &&& suffix_of(buf@, pos + 18 + enc_dict(d).len() as int) == enc_list(a).add(
                    rest,
                )
                &&& enc_fields(m).len() == 18 + enc_dict(d).len() + enc_list(a).len()
            })
            &&& (m is EventKwArgs ==> {
                let d = m->EventKwArgs_2;
                let a = m->EventKwArgs_3;
                let k = m->EventKwArgs_4;
                &&& suffix_of(buf@, pos as int) == enc_id(m->EventKwArgs_0).add(
                    enc_id(m->EventKwArgs_1).add(
                        enc_dict(d).add(enc_list(a).add(enc_dict(k).add(rest))),
                    ),
                )
                &&& suffix_of(buf@, pos + 9) == enc_id(m->EventKwArgs_1).add(
                    enc_dict(d).add(enc_list(a).add(enc_dict(k).add(rest))),
                )
                &&& suffix_of(buf@, pos + 18) == enc_dict(d).add(
                    enc_list(a).add(enc_dict(k).add(rest)),
                )
                &&& suffix_of(buf@, pos + 18 + enc_dict(d).len() as int) == enc_list(a).add(
                    enc_dict(k).add(rest),
                )
                &&& suffix_of(
                    buf@,
                    pos + 18 + enc_dict(d).len() + enc_list(a).len() as int,
                ) == enc_dict(k).add(rest)
                &&& enc_fields(m).len() == 18 + enc_dict(d).len() + enc_list(a).len()
                    + enc_dict(k).len()
            })
        } by {
            if m is Event {
                let d = m->Event_2;
                assert(suffix_of(buf@, pos as int) =~= enc_id(m->Event_0).add(
                    enc_id(m->Event_1).add(enc_dict(d).add(rest)),
                ));
                lemma_chop(
                    buf@,
                    pos as int,
                    enc_id(m->Event_0),
                    enc_id(m->Event_1).add(enc_dict(d).add(rest)),
                );
                lemma_chop(buf@, pos + 9, enc_id(m->Event_1), enc_dict(d).add(rest));
            } else if m is EventArgs {
                let d = m->EventArgs_2;
                let a = m->EventArgs_3;
                assert(suffix_of(buf@, pos as int) =~= enc_id(m->EventArgs_0).add(
                    enc_id(m->EventArgs_1).add(enc_dict(d).add(enc_list(a).add(rest))),
                ));
                lemma_chop(
                    buf@,
                    pos as int,
                    enc_id(m->EventArgs_0),
                    enc_id(m->EventArgs_1).add(enc_dict(d).add(enc_list(a).add(rest))),
                );
                lemma_chop(
                    buf@,
                    pos + 9,
                    enc_id(m->EventArgs_1),
                    enc_dict(d).add(enc_list(a).add(rest)),
                );
                lemma_chop(buf@, pos + 18, enc_dict(d), enc_list(a).add(rest));
            } else {
                let d = m->EventKwArgs_2;
                let a = m->EventKwArgs_3;
                let k = m->EventKwArgs_4;
                assert(suffix_of(buf@, pos as int) =~= enc_id(m->EventKwArgs_0).add(
                    enc_id(m->EventKwArgs_1).add(
                        enc_dict(d).add(enc_list(a).add(enc_dict(k).add(rest))),
                    ),
                ));
                lemma_chop(
                    buf@,
                    pos as int,
                    enc_id(m->EventKwArgs_0),
                    enc_id(m->EventKwArgs_1).add(
                        enc_dict(d).add(enc_list(a).add(enc_dict(k).add(rest))),
                    ),
                );
                lemma_chop(
                    buf@,
                    pos + 9,
                    enc_id(m->EventKwArgs_1),
                    enc_dict(d).add(enc_list(a).add(enc_dict(k).add(rest))),
                );
                lemma_chop(buf@, pos + 18, enc_dict(d), enc_list(a).add(enc_dict(k).add(rest)));
                lemma_chop(
                    buf@,
                    pos + 18 + enc_dict(d).len() as int,
                    enc_list(a),
                    enc_dict(k).add(rest),
                );
            }
        }
    }
    match read_id(buf, pos) {
        None => None,
        Some((sid, p1)) => {
            match read_id(buf, p1) {
                None => None,
                Some((pid, p2)) => {
                    match read_dict(buf, p2) {
                        None => None,
                        Some((d, p3)) => {
                            if nargs == 0 {
                                Some((Message::Event(sid, pid, d), p3))
                            } else {
                                match read_list(buf, p3) {
                                    None => None,
                                    Some((a, p4)) => {
                                        if nargs == 1 {
                                            Some((Message::EventArgs(sid, pid, d, a), p4))
                                        } else {
                                            match read_dict(buf, p4) {
                                                None => None,
                                                Some((k, p5)) => Some(
                                                    (Message::EventKwArgs(sid, pid, d, a, k), p5),
                                                ),
                                            }
                                        }
                                    },
                                }
                            }
                        },
                    }
                },
            }
        },
    }
}

#[verifier::rlimit(100)]
fn read_fields_publish(buf: &Vec<u8>, pos: usize, nargs: u8) -> (r: Option<(Message, usize)>)
    requires
        pos <= buf@.len(),
        nargs <= 2,
    ensures
        r matches Some(p) ==> pos <= p.1 <= buf@.len(),
        forall|m: MessageV, rest: Seq<u8>| #![trigger enc_fields(m).add(rest)]
            ((nargs == 0 && m is Publish) || (nargs == 1 && m is PublishArgs) || (nargs == 2
                && m is PublishKwArgs)) && suffix_of(buf@, pos as int) == enc_fields(m).add(rest)
                ==> (r matches Some(p) && p.0.deep_view() == m && p.1 == pos + enc_fields(
                m,
            ).len()),
{
    proof {
        lemma_auto_spec_u64_to_from_le_bytes();
        assert forall|m: MessageV, rest: Seq<u8>| #![trigger enc_fields(m).add(rest)]
            (m is Publish || m is PublishArgs || m is PublishKwArgs) && suffix_of(
                buf@,
                pos as int,
            ) == enc_fields(m).add(rest) implies {
            &&& (m is Publish ==> {
                let o = m->Publish_1;
                let t = m->Publish_2;
                &&& suffix_of(buf@, pos as int) == enc_id(m->Publish_0).add(
                    enc_pub_opts(o).add(enc_text(t).add(rest)),
                )
                &&& suffix_of(buf@, pos + 9) == enc_pub_opts(o).add(enc_text(t).add(rest))
                &&& suffix_of(buf@, pos + 9 + enc_pub_opts(o).len() as int) == enc_text(t).add(
                    rest,
                )
                &&& enc_fields(m).len() == 9 + enc_pub_opts(o).len() + enc_text(t).len()
            })
            &&& (m is PublishArgs ==> {
                let o = m->PublishArgs_1;
                let t = m->PublishArgs_2;
                let a = m->PublishArgs_3;
                &&& suffix_of(buf@, pos as int) == enc_id(m->PublishArgs_0).add(
                    enc_pub_opts(o).add(enc_text(t).add(enc_list(a).add(rest))),
                )
                &&& suffix_of(buf@, pos + 9) == enc_pub_opts(o).add(
                    enc_text(t).add(enc_list(a).add(rest)),
                )
                &&& suffix_of(buf@, pos + 9 + enc_pub_opts(o).len() as int) == enc_text(t).add(
                    enc_list(a).add(rest),
                )
                &&& suffix_of(
                    buf@,
                    pos + 9 + enc_pub_opts(o).len() + enc_text(t).len() as int,
                ) == enc_list(a).add(rest)
                &&& enc_fields(m).len() == 9 + enc_pub_opts(o).len() + enc_text(t).len()
                    + enc_list(a).len()
            })
            &&& (m is PublishKwArgs ==> {
                let o = m->PublishKwArgs_1;
                let t = m->PublishKwArgs_2;
                let a = m->PublishKwArgs_3;
                let k = m->PublishKwArgs_4;
                &&& suffix_of(buf@, pos as int) == enc_id(m->PublishKwArgs_0).add(
                    enc_pub_opts(o).add(enc_text(t).add(enc_list(a).add(enc_dict(k).add(rest)))),
                )
                &&& suffix_of(buf@, pos + 9) == enc_pub_opts(o).add(
                    enc_text(t).add(enc_list(a).add(enc_dict(k).add(rest))),
                )
                &&& suffix_of(buf@, pos + 9 + enc_pub_opts(o).len() as int) == enc_text(t).add(
                    enc_list(a).add(enc_dict(k).add(rest)),
                )
                &&& suffix_of(
                    buf@,
                    pos + 9 + enc_pub_opts(o).len() + enc_text(t).len() as int,
                ) == enc_list(a).add(enc_dict(k).add(rest))
                &&& suffix_of(
                    buf@,
                    pos + 9 + enc_pub_opts(o).len() + enc_text(t).len() + enc_list(
                        a,
                    ).len() as int,
                ) == enc_dict(k).add(rest)
                &&& enc_fields(m).len() == 9 + enc_pub_opts(o).len() + enc_text(t).len()
                    + enc_list(a).len() + enc_dict(k).len()
            })
        } by {
            if m is Publish {
                let o = m->Publish_1;
                let t = m->Publish_2;
                assert(suffix_of(buf@, pos as int) =~= enc_id(m->Publish_0).add(
                    enc_pub_opts(o).add(enc_text(t).add(rest)),
                ));
                lemma_chop(
                    buf@,
                    pos as int,
                    enc_id(m->Publish_0),
                    enc_pub_opts(o).add(enc_text(t).add(rest)),
                );
                lemma_chop(buf@, pos + 9, enc_pub_opts(o), enc_text(t).add(rest));
            } else if m is PublishArgs {
                let o = m->PublishArgs_1;
                let t = m->PublishArgs_2;
                let a = m->PublishArgs_3;
                assert(suffix_of(buf@, pos as int) =~= enc_id(m->PublishArgs_0).add(
                    enc_pub_opts(o).add(enc_text(t).add(enc_list(a).add(rest))),
                ));
                lemma_chop(
                    buf@,
                    pos as int,
                    enc_id(m->PublishArgs_0),
                    enc_pub_opts(o).add(enc_text(t).add(enc_list(a).add(rest))),
                );
                lemma_chop(buf@, pos + 9, enc_pub_opts(o), enc_text(t).add(enc_list(a).add(rest)));
                lemma_chop(
                    buf@,
                    pos + 9 + enc_pub_opts(o).len() as int,
                    enc_text(t),
                    enc_list(a).add(rest),
                );
            } else {
                let o = m->PublishKwArgs_1;
                let t = m->PublishKwArgs_2;
                let a = m->PublishKwArgs_3;
                let k = m->PublishKwArgs_4;
                assert(suffix_of(buf@, pos as int) =~= enc_id(m->PublishKwArgs_0).add(
                    enc_pub_opts(o).add(enc_text(t).add(enc_list(a).add(enc_dict(k).add(rest)))),
                ));
                lemma_chop(
                    buf@,
                    pos as int,
                    enc_id(m->PublishKwArgs_0),
                    enc_pub_opts(o).add(enc_text(t).add(enc_list(a).add(enc_dict(k).add(rest)))),
                );
                lemma_chop(
                    buf@,
                    pos + 9,
                    enc_pub_opts(o),
                    enc_text(t).add(enc_list(a).add(enc_dict(k).add(rest))),
                );
                lemma_chop(
                    buf@,
                    pos + 9 + enc_pub_opts(o).len() as int,
                    enc_text(t),
                    enc_list(a).add(enc_dict(k).add(rest)),
                );
                lemma_chop(
                    buf@,
                    pos + 9 + enc_pub_opts(o).len() + enc_text(t).len() as int,
                    enc_list(a),
                    enc_dict(k).add(rest),
                );
            }
        }
    }
    match read_id(buf, pos) {
        None => None,
        Some((rid, p1)) => {
            match read_pub_opts(buf, p1) {
                None => None,
                Some((o, p2)) => {
                    match read_text(buf, p2) {
                        None => None,
                        Some((t, p3)) => {
                            if nargs == 0 {
                                Some((Message::Publish(rid, o, URI { uri: t }), p3))
                            } else {
                                match read_list(buf, p3) {
                                    None => None,
                                    Some((a, p4)) => {
                                        if nargs == 1 {
                                            Some(
                                                (
                                                    Message::PublishArgs(
                                                        rid,
                                                        o,
                                                        URI { uri: t },
                                                        a,
                                                    ),
                                                    p4,
                                                ),
                                            )
                                        } else {
                                            match read_dict(buf, p4) {
                                                None => None,
                                                Some((k, p5)) => Some(
                                                    (
                                                        Message::PublishKwArgs(
                                                            rid,
                                                            o,
                                                            URI { uri: t },
                                                            a,
                                                            k,
                                                        ),
                                                        p5,
                                                    ),
                                                ),
                                            }
                                        }
                                    },
                                }
                            }
                        },
                    }
                },
            }
        },
    }
}

#[verifier::rlimit(100)]
fn read_msg(buf: &Vec<u8>, pos: usize) -> (r: Option<(Message, usize)>)
    requires
        pos <= buf@.len(),
    ensures
        r matches Some(p) ==> pos <= p.1 <= buf@.len(),
        forall|m: MessageV, rest: Seq<u8>| #![trigger enc_msg(m).add(rest)]
            suffix_of(buf@, pos as int) == enc_msg(m).add(rest) ==> (r matches Some(p)
                && p.0.deep_view() == m && p.1 == pos + enc_msg(m).len()),
{
    proof {
        lemma_auto_spec_u64_to_from_le_bytes();
        assert forall|m: MessageV, rest: Seq<u8>| #![trigger enc_msg(m).add(rest)]
            suffix_of(buf@, pos as int) == enc_msg(m).add(rest) implies {
            let pn = pos + 9 + enc_text(msg_name(m)).len() as int;
            &&& pos + 18 <= buf@.len()
            &&& buf@[pos as int] == TAG_DICT
            &&& buf@.subrange(pos + 1, pos + 9) == enc_u64(1)
            &&& suffix_of(buf@, pos + 9) == enc_text(msg_name(m)).add(
                seq![TAG_LIST].add(enc_u64(msg_field_count(m)).add(enc_fields(m).add(rest))),
            )
            &&& buf@[pn] == TAG_LIST
            &&& buf@.subrange(pn + 1, pn + 9) == enc_u64(msg_field_count(m))
            &&& suffix_of(buf@, pn + 9) == enc_fields(m).add(rest)
            &&& enc_msg(m).len() == 18 + enc_text(msg_name(m)).len() + enc_fields(m).len()
            &&& pn + 9 <= buf@.len()
            &&& ((msg_name(m) == "Hello"@) == (m is Hello))
            &&& ((msg_name(m) == "Welcome"@) == (m is Welcome))
            &&& ((msg_name(m) == "Abort"@) == (m is Abort))
            &&& ((msg_name(m) == "Goodbye"@) == (m is Goodbye))
            &&& ((msg_name(m) == "Subscribe"@) == (m is Subscribe))
            &&& ((msg_name(m) == "Subscribed"@) == (m is Subscribed))
            &&& ((msg_name(m) == "Event"@) == (m is Event))
            &&& ((msg_name(m) == "EventArgs"@) == (m is EventArgs))
            &&& ((msg_name(m) == "EventKwArgs"@) == (m is EventKwArgs))
            &&& ((msg_name(m) == "Publish"@) == (m is Publish))
            &&& ((msg_name(m) == "PublishArgs"@) == (m is PublishArgs))
            &&& ((msg_name(m) == "PublishKwArgs"@) == (m is PublishKwArgs))
            &&& ((msg_name(m) == "Error"@) == (m is Error))
        } by {
            lemma_msg_decomp(buf@, pos as int, m, rest);
            lemma_name_inv(m);
        }
    }
    let blen = buf.len();
    if pos >= blen || *vstd::slice::slice_index_get(buf.as_slice(), pos) != TAG_DICT {
        return None;
    }
    match read_u64(buf, pos + 1) {
        None => None,
        Some((one, p1)) => {
            if one != 1 {
                return None;
            }
            match read_text(buf, p1) {
                None => None,
                Some((name, pn)) => {
                    if pn >= blen || *vstd::slice::slice_index_get(buf.as_slice(), pn)
                        != TAG_LIST {
                        return None;
                    }
                    match read_u64(buf, pn + 1) {
                        None => None,
                        Some((count, pf)) => {
                            if str_eq(name.as_str(), "Hello") {
                                if count != 2 {
                                    return None;
                                }
                                read_fields_hello(buf, pf)
                            } else if str_eq(name.as_str(), "Welcome") {
                                if count != 2 {
                                    return None;
                                }
                                read_fields_welcome(buf, pf)
                            } else if str_eq(name.as_str(), "Abort") {
                                if count != 2 {
                                    return None;
                                }
                                read_fields_abort(buf, pf)
                            } else if str_eq(name.as_str(), "Goodbye") {
                                if count != 2 {
                                    return None;
                                }
                                read_fields_goodbye(buf, pf)
                            } else if str_eq(name.as_str(), "Subscribe") {
                                if count != 3 {
                                    return None;
                                }
                                read_fields_subscribe(buf, pf)
                            } else if str_eq(name.as_str(), "Subscribed") {
                                if count != 2 {
                                    return None;
                                }
                                read_fields_subscribed(buf, pf)
                            } else if str_eq(name.as_str(), "Event") {
                                if count != 3 {
                                    return None;
                                }
                                read_fields_event(buf, pf, 0)
                            } else if str_eq(name.as_str(), "EventArgs") {
                                if count != 4 {
                                    return None;
                                }
                                read_fields_event(buf, pf, 1)
                            } else if str_eq(name.as_str(), "EventKwArgs") {
                                if count != 5 {
                                    return None;
                                }
                                read_fields_event(buf, pf, 2)
                            } else if str_eq(name.as_str(), "Publish") {
                                if count != 3 {
                                    return None;
                                }
                                read_fields_publish(buf, pf, 0)
                            } else if str_eq(name.as_str(), "PublishArgs") {
                                if count != 4 {
                                    return None;
                                }
                                read_fields_publish(buf, pf, 1)
                            } else if str_eq(name.as_str(), "PublishKwArgs") {
                                if count != 5 {
                                    return None;
                                }
                                read_fields_publish(buf, pf, 2)
                            } else if str_eq(name.as_str(), "Error") {
                                if count != 2 {
                                    return None;
                                }
                                read_fields_error(buf, pf)
                            } else {
                                None
                            }
                        },
                    }
                },
            }
        },
    }
}

/// Decode one binary frame. The decoder accepts exactly the canonical
/// encoding of one message, with nothing following it; in particular it
/// returns, for every message `m`, the message itself on `enc_msg(m)`.
pub fn decode_bin(buf: &Vec<u8>) -> (r: Option<Message>)
    ensures
        forall|m: MessageV| #[trigger] enc_msg(m) == buf@ ==> (r matches Some(msg)
            && msg.deep_view() == m),
{
    proof {
        assert forall|m: MessageV| #[trigger] enc_msg(m) == buf@ implies suffix_of(buf@, 0)
            == enc_msg(m).add(Seq::<u8>::empty()) by {
            assert(suffix_of(buf@, 0) =~= enc_msg(m).add(Seq::<u8>::empty()));
        }
    }
    match read_msg(buf, 0) {
        None => None,
        Some((m, p)) => {
            if p == buf.len() {
                Some(m)
            } else {
                None
            }
        },
    }
}

} // verus!
