//! The text wire format: a self-describing, field-name-keyed document,
//! carried as a text frame.
//!
//! A message is rendered as a one-entry document mapping the message kind's
//! name to the list of its fields. Strings are quoted, with `"` and `\`
//! escaped by a backslash; integers are rendered as twenty decimal digits,
//! zero padded, so that every value is self-delimiting; lists stand in
//! square brackets and maps in braces, comma separated. The encoding is
//! canonical: the decoder accepts exactly what the encoder emits and
//! reports anything else as a decode failure.

use vstd::prelude::*;
use vstd::slice::slice_index_get;
use vstd::string::StrSliceExecFns;
use crate::codec_bin::{lemma_chop, lemma_name_inv, lemma_reason_inv, msg_name, reason_text,
    str_eq, suffix_of};
use crate::messages::{
    ClientRoles, ErrorDetails, HelloDetails, Message, MessageV, PublishOptions, Reason,
    SubscribeOptions, URI,
};
use crate::values::{Dict, DictV, List, ListV, Value, ValueV};

verus! {

pub open spec fn digit_char(d: int) -> char {
    if d == 0 {
        '0'
    } else if d == 1 {
        '1'
    } else if d == 2 {
        '2'
    } else if d == 3 {
        '3'
    } else if d == 4 {
        '4'
    } else if d == 5 {
        '5'
    } else if d == 6 {
        '6'
    } else if d == 7 {
        '7'
    } else if d == 8 {
        '8'
    } else {
        '9'
    }
}

/// `w` decimal digits of `n`, most significant first, zero padded.
pub open spec fn dec_w(n: nat, w: nat) -> Seq<char>
    decreases w,
{
    if w == 0 {
        Seq::empty()
    } else {
        dec_w(n / 10, (w - 1) as nat).push(digit_char((n % 10) as int))
    }
}

pub open spec fn enc_u64_t(n: u64) -> Seq<char> {
    dec_w(n as nat, 20)
}

pub open spec fn pow10(w: nat) -> nat
    decreases w,
{
    if w == 0 {
        1
    } else {
        10 * pow10((w - 1) as nat)
    }
}

proof fn lemma_pow10_20()
    ensures
        pow10(20) > u64::MAX,
{
    assert(pow10(0) == 1);
    assert(pow10(1) == 10);
    assert(pow10(2) == 100);
    assert(pow10(3) == 1000);
    assert(pow10(4) == 10000);
    assert(pow10(5) == 100000);
    assert(pow10(6) == 1000000);
    assert(pow10(7) == 10000000);
    assert(pow10(8) == 100000000);
    assert(pow10(9) == 1000000000);
    assert(pow10(10) == 10000000000);
    assert(pow10(11) == 100000000000);
    assert(pow10(12) == 1000000000000);
    assert(pow10(13) == 10000000000000);
    assert(pow10(14) == 100000000000000);
    assert(pow10(15) == 1000000000000000);
    assert(pow10(16) == 10000000000000000);
    assert(pow10(17) == 100000000000000000);
    assert(pow10(18) == 1000000000000000000);
    assert(pow10(19) == 10000000000000000000);
    assert(pow10(20) == 100000000000000000000);
}

/// One escaped character: quotes and backslashes take a leading backslash.
pub open spec fn esc1(c: char) -> Seq<char> {
    if c == '"' || c == '\\' {
        seq!['\\', c]
    } else {
        seq![c]
    }
}

pub open spec fn esc(s: Seq<char>) -> Seq<char>
    decreases s.len(),
{
    if s.len() == 0 {
        Seq::empty()
    } else {
        esc1(s[0]) + esc(s.drop_first())
    }
}

pub open spec fn enc_str_t(s: Seq<char>) -> Seq<char> {
    seq!['"'] + esc(s) + seq!['"']
}

pub open spec fn enc_value_t(v: ValueV) -> Seq<char> {
    match v {
        ValueV::Null => "null"@,
        ValueV::Bool(b) => if b {
            "true"@
        } else {
            "false"@
        },
        ValueV::Int(n) => enc_u64_t(n),
        ValueV::Text(s) => enc_str_t(s),
    }
}

pub open spec fn enc_items_t(l: ListV) -> Seq<char>
    decreases l.len(),
{
    if l.len() == 0 {
        Seq::empty()
    } else if l.len() == 1 {
        enc_value_t(l[0])
    } else {
        enc_value_t(l[0]) + seq![','] + enc_items_t(l.drop_first())
    }
}

pub open spec fn enc_list_t(l: ListV) -> Seq<char> {
    seq!['['] + enc_items_t(l) + seq![']']
}

pub open spec fn enc_pairs_t(d: DictV) -> Seq<char>
    decreases d.len(),
{
    if d.len() == 0 {
        Seq::empty()
    } else if d.len() == 1 {
        enc_str_t(d[0].0) + seq![':'] + enc_value_t(d[0].1)
    } else {
        enc_str_t(d[0].0) + seq![':'] + enc_value_t(d[0].1) + seq![','] + enc_pairs_t(
            d.drop_first(),
        )
    }
}

pub open spec fn enc_dict_t(d: DictV) -> Seq<char> {
    seq!['{'] + enc_pairs_t(d) + seq!['}']
}

proof fn lemma_esc_snoc(s: Seq<char>, c: char)
    ensures
        esc(s.push(c)) == esc(s) + esc1(c),
    decreases s.len(),
{
    if s.len() == 0 {
        assert(s.push(c)[0] == c);
        assert(s.push(c).drop_first() =~= Seq::<char>::empty());
        assert(esc(s.push(c)) == esc1(c) + esc(Seq::<char>::empty()));
        assert(esc1(c) + Seq::<char>::empty() =~= Seq::<char>::empty() + esc1(c));
    } else {
        assert(s.push(c)[0] == s[0]);
        assert(s.push(c).drop_first() =~= s.drop_first().push(c));
        lemma_esc_snoc(s.drop_first(), c);
        assert(esc(s.push(c)) == esc1(s[0]) + (esc(s.drop_first()) + esc1(c)));
        assert(esc1(s[0]) + (esc(s.drop_first()) + esc1(c)) =~= (esc1(s[0]) + esc(
            s.drop_first(),
        )) + esc1(c));
    }
}

fn digit_of(d: u64) -> (c: char)
    requires
        d < 10,
    ensures
        c == digit_char(d as int),
{
    if d == 0 {
        '0'
    } else if d == 1 {
        '1'
    } else if d == 2 {
        '2'
    } else if d == 3 {
        '3'
    } else if d == 4 {
        '4'
    } else if d == 5 {
        '5'
    } else if d == 6 {
        '6'
    } else if d == 7 {
        '7'
    } else if d == 8 {
        '8'
    } else {
        '9'
    }
}

fn digit_val(c: char) -> (r: Option<u64>)
    ensures
        r matches Some(d) ==> d < 10 && digit_char(d as int) == c,
        r is None ==> forall|k: int| 0 <= k < 10 ==> digit_char(k) != c,
{
    if c == '0' {
        Some(0)
    } else if c == '1' {
        Some(1)
    } else if c == '2' {
        Some(2)
    } else if c == '3' {
        Some(3)
    } else if c == '4' {
        Some(4)
    } else if c == '5' {
        Some(5)
    } else if c == '6' {
        Some(6)
    } else if c == '7' {
        Some(7)
    } else if c == '8' {
        Some(8)
    } else if c == '9' {
        Some(9)
    } else {
        None
    }
}

fn put_dec_w(out: &mut Vec<char>, n: u64, w: u8)
    ensures
        final(out)@ == old(out)@ + dec_w(n as nat, w as nat),
    decreases w,
{
    if w == 0 {
        proof {
            assert(out@ =~= old(out)@ + dec_w(n as nat, 0));
        }
    } else {
        put_dec_w(out, n / 10, w - 1);
        out.push(digit_of(n % 10));
        proof {
            assert((n / 10) as nat == n as nat / 10);
            assert((n % 10) as nat == n as nat % 10);
            assert(out@ =~= old(out)@ + dec_w(n as nat, w as nat));
        }
    }
}

fn put_u64_t(out: &mut Vec<char>, n: u64)
    ensures
        final(out)@ == old(out)@ + enc_u64_t(n),
{
    put_dec_w(out, n, 20);
}

/// Append the characters of a literal.
fn put_lit(out: &mut Vec<char>, s: &str)
    ensures
        final(out)@ == old(out)@ + s@,
{
    let n = s.unicode_len();
    let mut i: usize = 0;
    while i < n
        invariant
            n == s@.len(),
            i <= n,
            out@ == old(out)@ + s@.take(i as int),
        decreases n - i,
    {
        out.push(s.get_char(i));
        proof {
            assert(s@.take(i + 1) =~= s@.take(i as int).push(s@[i as int]));
            assert(out@ =~= old(out)@ + s@.take(i + 1));
        }
        i = i + 1;
    }
    proof {
        assert(s@.take(n as int) =~= s@);
    }
}

fn put_str_t(out: &mut Vec<char>, s: &str)
    ensures
        final(out)@ == old(out)@ + enc_str_t(s@),
{
    out.push('"');
    let n = s.unicode_len();
    let mut i: usize = 0;
    while i < n
        invariant
            n == s@.len(),
            i <= n,
            out@ == old(out)@ + seq!['"'] + esc(s@.take(i as int)),
        decreases n - i,
    {
        let c = s.get_char(i);
        if c == '"' || c == '\\' {
            out.push('\\');
            out.push(c);
        } else {
            out.push(c);
        }
        proof {
            assert(s@.take(i + 1) =~= s@.take(i as int).push(s@[i as int]));
            lemma_esc_snoc(s@.take(i as int), s@[i as int]);
            assert(out@ =~= old(out)@ + seq!['"'] + esc(s@.take(i + 1)));
        }
        i = i + 1;
    }
    out.push('"');
    proof {
        assert(s@.take(n as int) =~= s@);
        assert(out@ =~= old(out)@ + enc_str_t(s@));
    }
}

fn put_value_t(out: &mut Vec<char>, v: &Value)
    ensures
        final(out)@ == old(out)@ + enc_value_t(v.deep_view()),
{
    match v {
        Value::Null => put_lit(out, "null"),
        Value::Bool(b) => {
            if *b {
                put_lit(out, "true")
            } else {
                put_lit(out, "false")
            }
        },
        Value::Int(n) => put_u64_t(out, *n),
        Value::Text(s) => put_str_t(out, s.as_str()),
    }
}

proof fn lemma_items_t_snoc(l: ListV, v: ValueV)
    ensures
        enc_items_t(l.push(v)) == if l.len() == 0 {
            enc_value_t(v)
        } else {
            enc_items_t(l) + seq![','] + enc_value_t(v)
        },
    decreases l.len(),
{
    if l.len() == 0 {
        assert(l.push(v)[0] == v);
        assert(enc_items_t(l.push(v)) == enc_value_t(v));
    } else if l.len() == 1 {
        assert(l.push(v)[0] == l[0]);
        assert(l.push(v).drop_first() =~= l.drop_first().push(v));
        lemma_items_t_snoc(l.drop_first(), v);
        assert(enc_items_t(l.push(v)) == enc_value_t(l[0]) + seq![','] + enc_value_t(v));
        assert(enc_value_t(l[0]) + seq![','] + enc_value_t(v) =~= enc_items_t(l) + seq![',']
            + enc_value_t(v));
    } else {
        assert(l.push(v)[0] == l[0]);
        assert(l.push(v).drop_first() =~= l.drop_first().push(v));
        lemma_items_t_snoc(l.drop_first(), v);
        assert(enc_items_t(l.push(v)) == enc_value_t(l[0]) + seq![','] + (enc_items_t(
            l.drop_first(),
        ) + seq![','] + enc_value_t(v)));
        assert(enc_value_t(l[0]) + seq![','] + (enc_items_t(l.drop_first()) + seq![',']
            + enc_value_t(v)) =~= (enc_value_t(l[0]) + seq![','] + enc_items_t(l.drop_first()))
            + seq![','] + enc_value_t(v));
    }
}

proof fn lemma_pairs_t_snoc(d: DictV, k: Seq<char>, v: ValueV)
    ensures
        enc_pairs_t(d.push((k, v))) == if d.len() == 0 {
            enc_str_t(k) + seq![':'] + enc_value_t(v)
        } else {
            enc_pairs_t(d) + seq![','] + enc_str_t(k) + seq![':'] + enc_value_t(v)
        },
    decreases d.len(),
{
    let e = enc_str_t(k) + seq![':'] + enc_value_t(v);
    if d.len() == 0 {
        assert(d.push((k, v))[0] == (k, v));
        assert(enc_pairs_t(d.push((k, v))) == e);
    } else if d.len() == 1 {
        assert(d.push((k, v))[0] == d[0]);
        assert(d.push((k, v)).drop_first() =~= d.drop_first().push((k, v)));
        lemma_pairs_t_snoc(d.drop_first(), k, v);
        let e0 = enc_str_t(d[0].0) + seq![':'] + enc_value_t(d[0].1);
        assert(enc_pairs_t(d.push((k, v))) == e0 + seq![','] + e);
        assert(e0 + seq![','] + e =~= enc_pairs_t(d) + seq![','] + enc_str_t(k) + seq![':']
            + enc_value_t(v));
    } else {
        assert(d.push((k, v))[0] == d[0]);
        assert(d.push((k, v)).drop_first() =~= d.drop_first().push((k, v)));
        lemma_pairs_t_snoc(d.drop_first(), k, v);
        let e0 = enc_str_t(d[0].0) + seq![':'] + enc_value_t(d[0].1);
        assert(enc_pairs_t(d.push((k, v))) == e0 + seq![','] + (enc_pairs_t(d.drop_first())
            + seq![','] + enc_str_t(k) + seq![':'] + enc_value_t(v)));
        assert(e0 + seq![','] + (enc_pairs_t(d.drop_first()) + seq![','] + enc_str_t(k)
            + seq![':'] + enc_value_t(v)) =~= (e0 + seq![','] + enc_pairs_t(d.drop_first()))
            + seq![','] + enc_str_t(k) + seq![':'] + enc_value_t(v));
    }
}

fn put_list_t(out: &mut Vec<char>, l: &List)
    ensures
        final(out)@ == old(out)@ + enc_list_t(l.deep_view()),
{
    let ghost lv = l.deep_view();
    out.push('[');
    let mut i: usize = 0;
    proof {
        assert(lv.take(0) =~= Seq::<ValueV>::empty());
    }
    while i < l.len()
        invariant
            i <= l.len(),
            lv == l.deep_view(),
            lv.len() == l@.len(),
            out@ == old(out)@ + seq!['['] + enc_items_t(lv.take(i as int)),
        decreases l.len() - i,
    {
        if i > 0 {
            out.push(',');
        }
        put_value_t(out, &l[i]);
        proof {
            assert(lv.take(i + 1) =~= lv.take(i as int).push(lv[i as int]));
            lemma_items_t_snoc(lv.take(i as int), lv[i as int]);
            assert(out@ =~= old(out)@ + seq!['['] + enc_items_t(lv.take(i + 1)));
        }
        i = i + 1;
    }
    out.push(']');
    proof {
        assert(lv.take(l@.len() as int) =~= lv);
        assert(out@ =~= old(out)@ + enc_list_t(lv));
    }
}

fn put_dict_t(out: &mut Vec<char>, d: &Dict)
    ensures
        final(out)@ == old(out)@ + enc_dict_t(d.deep_view()),
{
    let ghost dv = d.deep_view();
    out.push('{');
    let mut i: usize = 0;
    proof {
        assert(dv.take(0) =~= Seq::<(Seq<char>, ValueV)>::empty());
    }
    while i < d.len()
        invariant
            i <= d.len(),
            dv == d.deep_view(),
            dv.len() == d@.len(),
            out@ == old(out)@ + seq!['{'] + enc_pairs_t(dv.take(i as int)),
        decreases d.len() - i,
    {
        if i > 0 {
            out.push(',');
        }
        put_str_t(out, d[i].0.as_str());
        out.push(':');
        put_value_t(out, &d[i].1);
        proof {
            assert(dv[i as int] == (d@[i as int].0@, d@[i as int].1.deep_view()));
            assert(dv.take(i + 1) =~= dv.take(i as int).push(dv[i as int]));
            lemma_pairs_t_snoc(dv.take(i as int), dv[i as int].0, dv[i as int].1);
            assert(out@ =~= old(out)@ + seq!['{'] + enc_pairs_t(dv.take(i + 1)));
        }
        i = i + 1;
    }
    out.push('}');
    proof {
        assert(dv.take(d@.len() as int) =~= dv);
        assert(out@ =~= old(out)@ + enc_dict_t(dv));
    }
}

/// Relies on String's FromIterator implementation: collecting characters
/// yields the string of exactly those characters, in order.
#[verifier::external_body]
fn chars_to_string(v: &Vec<char>) -> (r: String)
    ensures
        r@ == v@,
{
    v.iter().collect()
}

proof fn lemma_dec_w_len(n: nat, w: nat)
    ensures
        dec_w(n, w).len() == w,
    decreases w,
{
    if w > 0 {
        lemma_dec_w_len(n / 10, (w - 1) as nat);
    }
}

pub open spec fn is_digit_ch(c: char) -> bool {
    c == '0' || c == '1' || c == '2' || c == '3' || c == '4' || c == '5' || c == '6' || c == '7'
        || c == '8' || c == '9'
}

proof fn lemma_dec_w_digits(n: nat, w: nat)
    ensures
        forall|i: int| 0 <= i < w ==> is_digit_ch(#[trigger] dec_w(n, w)[i]),
    decreases w,
{
    lemma_dec_w_len(n, w);
    if w > 0 {
        lemma_dec_w_len(n / 10, (w - 1) as nat);
        lemma_dec_w_digits(n / 10, (w - 1) as nat);
        assert forall|i: int| 0 <= i < w implies is_digit_ch(#[trigger] dec_w(n, w)[i]) by {
            if i < w - 1 {
                assert(dec_w(n, w)[i] == dec_w(n / 10, (w - 1) as nat)[i]);
            } else {
                assert(dec_w(n, w)[i] == digit_char((n % 10) as int));
            }
        }
    }
}

fn read_dec_w(buf: &Vec<char>, pos: usize, w: u8) -> (r: Option<(u64, usize)>)
    requires
        pos <= buf@.len(),
    ensures
        r matches Some(p) ==> pos <= p.1 <= buf@.len() && p.1 == pos + w,
        forall|n: u64, rest: Seq<char>| #![trigger dec_w(n as nat, w as nat).add(rest)]
            n < pow10(w as nat) && suffix_of(buf@, pos as int) == dec_w(n as nat, w as nat).add(
                rest,
            ) ==> (r matches Some(p) && p.0 == n && p.1 == pos + w),
    decreases w,
{
    if w == 0 {
        let res = Some((0u64, pos));
        proof {
            assert forall|n: u64, rest: Seq<char>| #![trigger dec_w(n as nat, w as nat).add(rest)]
                n < pow10(w as nat) && suffix_of(buf@, pos as int) == dec_w(n as nat, w as nat).add(
                    rest,
                ) implies (res matches Some(p) && p.0 == n && p.1 == pos + w) by {
                assert(pow10(0) == 1);
            }
        }
        return res;
    }
    proof {
        assert forall|n: u64, rest: Seq<char>| #![trigger dec_w(n as nat, w as nat).add(rest)]
            n < pow10(w as nat) && suffix_of(buf@, pos as int) == dec_w(n as nat, w as nat).add(
                rest,
            ) implies {
            let hi = (n / 10) as u64;
            &&& hi as nat == n as nat / 10
            &&& hi < pow10((w - 1) as nat)
            &&& suffix_of(buf@, pos as int) == dec_w(hi as nat, (w - 1) as nat).add(
                seq![digit_char((n % 10) as int)].add(rest),
            )
            &&& pos + w <= buf@.len()
            &&& buf@[pos + w - 1] == digit_char((n % 10) as int)
        } by {
            let hi = (n / 10) as u64;
            assert(hi as nat == n as nat / 10);
            assert(hi < pow10((w - 1) as nat)) by (nonlinear_arith)
                requires
                    n < pow10(w as nat),
                    pow10(w as nat) == 10 * pow10((w - 1) as nat),
                    hi as nat == n as nat / 10,
            ;
            lemma_dec_w_len(n as nat, w as nat);
            lemma_dec_w_len(hi as nat, (w - 1) as nat);
            assert(suffix_of(buf@, pos as int) =~= dec_w(hi as nat, (w - 1) as nat).add(
                seq![digit_char((n % 10) as int)].add(rest),
            ));
            lemma_chop(
                buf@,
                pos as int,
                dec_w(hi as nat, (w - 1) as nat),
                seq![digit_char((n % 10) as int)].add(rest),
            );
            lemma_chop(
                buf@,
                pos + w - 1,
                seq![digit_char((n % 10) as int)],
                rest,
            );
            assert(buf@.subrange(pos + w - 1, pos + w as int)[0] == buf@[pos + w - 1]);
        }
    }
    match read_dec_w(buf, pos, w - 1) {
        None => None,
        Some((hi, p1)) => {
            let blen = buf.len();
            if p1 >= blen {
                return None;
            }
            let c = *slice_index_get(buf.as_slice(), p1);
            match digit_val(c) {
                None => None,
                Some(d) => {
                    if hi > (u64::MAX - d) / 10 {
                        None
                    } else {
                        Some((hi * 10 + d, p1 + 1))
                    }
                },
            }
        },
    }
}

pub open spec fn str_body_t(s: Seq<char>, rest: Seq<char>) -> Seq<char> {
    esc(s) + seq!['"'] + rest
}

proof fn lemma_esc_first(s: Seq<char>)
    requires
        s.len() > 0,
    ensures
        esc(s) == esc1(s[0]).add(esc(s.drop_first())),
        (s[0] == '"' || s[0] == '\\') ==> esc(s).len() >= 2 && esc(s)[0] == '\\' && esc(s)[1]
            == s[0],
        !(s[0] == '"' || s[0] == '\\') ==> esc(s).len() >= 1 && esc(s)[0] == s[0],
        esc(s).len() >= 1,
        esc(s)[0] != '"',
{
    assert(esc(s) == esc1(s[0]) + esc(s.drop_first()));
    if s[0] == '"' || s[0] == '\\' {
        assert(esc(s)[0] == esc1(s[0])[0]);
        assert(esc(s)[1] == esc1(s[0])[1]);
    } else {
        assert(esc(s)[0] == esc1(s[0])[0]);
    }
}

fn read_str_chars(buf: &Vec<char>, pos: usize) -> (r: Option<(Vec<char>, usize)>)
    requires
        pos <= buf@.len(),
    ensures
        r matches Some(p) ==> pos < p.1 <= buf@.len(),
        forall|s: Seq<char>, rest: Seq<char>| #![trigger str_body_t(s, rest)]
            suffix_of(buf@, pos as int) == str_body_t(s, rest) ==> (r matches Some(p) && p.0@ == s
                && p.1 == pos + esc(s).len() + 1),
    decreases buf@.len() - pos,
{
    let blen = buf.len();
    if pos >= blen {
        proof {
            assert forall|s: Seq<char>, rest: Seq<char>| #![trigger str_body_t(s, rest)]
                suffix_of(buf@, pos as int) != str_body_t(s, rest) by {
                if suffix_of(buf@, pos as int) == str_body_t(s, rest) {
                    assert(suffix_of(buf@, pos as int).len() == 0);
                    assert(str_body_t(s, rest).len() >= 1);
                }
            }
        }
        return None;
    }
    let c = *slice_index_get(buf.as_slice(), pos);
    proof {
        assert forall|s: Seq<char>, rest: Seq<char>| #![trigger str_body_t(s, rest)]
            suffix_of(buf@, pos as int) == str_body_t(s, rest) implies buf@[pos as int] == (
        if s.len() == 0 {
            '"'
        } else {
            esc(s)[0]
        }) by {
            assert(suffix_of(buf@, pos as int)[0] == buf@[pos as int]);
            if s.len() == 0 {
                assert(str_body_t(s, rest)[0] == '"');
            } else {
                lemma_esc_first(s);
                assert(str_body_t(s, rest)[0] == esc(s)[0]);
            }
        }
    }
    if c == '"' {
        let res = Some((Vec::<char>::new(), pos + 1));
        proof {
            assert forall|s: Seq<char>, rest: Seq<char>| #![trigger str_body_t(s, rest)]
                suffix_of(buf@, pos as int) == str_body_t(s, rest) implies (res matches Some(p)
                && p.0@ == s && p.1 == pos + esc(s).len() + 1) by {
                if s.len() > 0 {
                    lemma_esc_first(s);
                } else {
                    assert(Seq::<char>::empty() =~= s);
                }
            }
        }
        res
    } else if c == '\\' {
        if pos + 1 >= blen {
            proof {
                assert forall|s: Seq<char>, rest: Seq<char>| #![trigger str_body_t(s, rest)]
                    suffix_of(buf@, pos as int) != str_body_t(s, rest) by {
                    if suffix_of(buf@, pos as int) == str_body_t(s, rest) {
                        assert(s.len() > 0);
                        lemma_esc_first(s);
                        assert(s[0] == '"' || s[0] == '\\');
                        assert(str_body_t(s, rest).len() >= 3);
                    }
                }
            }
            return None;
        }
        let c2 = *slice_index_get(buf.as_slice(), pos + 1);
        proof {
            assert forall|s: Seq<char>, rest: Seq<char>| #![trigger str_body_t(s, rest)]
                suffix_of(buf@, pos as int) == str_body_t(s, rest) implies (s.len() > 0 && (s[0]
                == '"' || s[0] == '\\') && buf@[pos + 1] == s[0] && suffix_of(buf@, pos + 2)
                == str_body_t(s.drop_first(), rest)) by {
                assert(s.len() > 0);
                lemma_esc_first(s);
                assert(s[0] == '"' || s[0] == '\\');
                assert(suffix_of(buf@, pos as int) =~= seq!['\\', s[0]].add(
                    str_body_t(s.drop_first(), rest),
                ));
                lemma_chop(buf@, pos as int, seq!['\\', s[0]], str_body_t(s.drop_first(), rest));
                assert(buf@.subrange(pos as int, pos + 2)[1] == buf@[pos + 1]);
            }
        }
        if c2 == '"' || c2 == '\\' {
            match read_str_chars(buf, pos + 2) {
                None => None,
                Some((tail, p2)) => {
                    let ghost tails = tail@;
                    let mut out = tail;
                    out.insert(0, c2);
                    let res = Some((out, p2));
                    proof {
                        assert forall|s: Seq<char>, rest: Seq<char>| #![trigger str_body_t(s, rest)]
                            suffix_of(buf@, pos as int) == str_body_t(s, rest) implies (
                        res matches Some(p) && p.0@ == s && p.1 == pos + esc(s).len() + 1) by {
                            lemma_esc_first(s);
                            assert(out@ == tails.insert(0, c2));
                            assert(out@ =~= s);
                        }
                    }
                    res
                },
            }
        } else {
            None
        }
    } else {
        proof {
            assert forall|s: Seq<char>, rest: Seq<char>| #![trigger str_body_t(s, rest)]
                suffix_of(buf@, pos as int) == str_body_t(s, rest) implies (s.len() > 0 && !(s[0]
                == '"' || s[0] == '\\') && buf@[pos as int] == s[0] && suffix_of(buf@, pos + 1)
                == str_body_t(s.drop_first(), rest)) by {
                assert(s.len() > 0);
                lemma_esc_first(s);
                assert(suffix_of(buf@, pos as int) =~= seq![s[0]].add(
                    str_body_t(s.drop_first(), rest),
                ));
                lemma_chop(buf@, pos as int, seq![s[0]], str_body_t(s.drop_first(), rest));
                assert(buf@.subrange(pos as int, pos + 1)[0] == buf@[pos as int]);
            }
        }
        match read_str_chars(buf, pos + 1) {
            None => None,
            Some((tail, p2)) => {
                let ghost tails = tail@;
                let mut out = tail;
                out.insert(0, c);
                let res = Some((out, p2));
                proof {
                    assert forall|s: Seq<char>, rest: Seq<char>| #![trigger str_body_t(s, rest)]
                        suffix_of(buf@, pos as int) == str_body_t(s, rest) implies (
                    res matches Some(p) && p.0@ == s && p.1 == pos + esc(s).len() + 1) by {
                        lemma_esc_first(s);
                        assert(out@ == tails.insert(0, c));
                        assert(out@ =~= s);
                    }
                }
                res
            },
        }
    }
}

fn read_string_t(buf: &Vec<char>, pos: usize) -> (r: Option<(String, usize)>)
    requires
        pos <= buf@.len(),
    ensures
        r matches Some(p) ==> pos < p.1 <= buf@.len(),
        forall|s: Seq<char>, rest: Seq<char>| #![trigger enc_str_t(s).add(rest)]
            suffix_of(buf@, pos as int) == enc_str_t(s).add(rest) ==> (r matches Some(p) && p.0@
                == s && p.1 == pos + enc_str_t(s).len()),
{
    proof {
        assert forall|s: Seq<char>, rest: Seq<char>| #![trigger enc_str_t(s).add(rest)]
            suffix_of(buf@, pos as int) == enc_str_t(s).add(rest) implies (buf@[pos as int] == '"'
            && pos + 1 <= buf@.len() && suffix_of(buf@, pos + 1) == str_body_t(s, rest)
            && enc_str_t(s).len() == esc(s).len() + 2) by {
            assert(suffix_of(buf@, pos as int) =~= seq!['"'].add(str_body_t(s, rest)));
            lemma_chop(buf@, pos as int, seq!['"'], str_body_t(s, rest));
            assert(buf@.subrange(pos as int, pos + 1)[0] == buf@[pos as int]);
        }
    }
    let blen = buf.len();
    if pos >= blen || *slice_index_get(buf.as_slice(), pos) != '"' {
        return None;
    }
    match read_str_chars(buf, pos + 1) {
        None => None,
        Some((cs, p2)) => Some((chars_to_string(&cs), p2)),
    }
}

fn expect_char(buf: &Vec<char>, pos: usize, c: char) -> (r: Option<usize>)
    requires
        pos <= buf@.len(),
    ensures
        (r is Some) == (pos < buf@.len() && buf@[pos as int] == c),
        r matches Some(p) ==> p == pos + 1,
{
    let blen = buf.len();
    if pos < blen && *slice_index_get(buf.as_slice(), pos) == c {
        Some(pos + 1)
    } else {
        None
    }
}

fn str_to_chars(s: &str) -> (r: Vec<char>)
    ensures
        r@ == s@,
{
    let mut v = Vec::<char>::new();
    put_lit(&mut v, s);
    proof {
        assert(v@ =~= s@);
    }
    v
}

fn expect_seg_c(buf: &Vec<char>, pos: usize, pat: &Vec<char>) -> (r: Option<usize>)
    requires
        pos <= buf@.len(),
    ensures
        r matches Some(p) ==> p == pos + pat@.len(),
        (r is Some) == (pos + pat@.len() <= buf@.len() && buf@.subrange(
            pos as int,
            pos as int + pat@.len() as int,
        ) == pat@),
{
    let blen = buf.len();
    if blen - pos < pat.len() {
        return None;
    }
    let mut i: usize = 0;
    while i < pat.len()
        invariant
            blen == buf@.len(),
            pos + pat@.len() <= blen,
            i <= pat@.len(),
            forall|j: int| 0 <= j < i ==> buf@[pos + j] == pat@[j],
        decreases pat@.len() - i,
    {
        let bb = *slice_index_get(buf.as_slice(), pos + i);
        let pb = *slice_index_get(pat.as_slice(), i);
        if bb != pb {
            proof {
                if buf@.subrange(pos as int, pos as int + pat@.len() as int) == pat@ {
                    assert(buf@.subrange(pos as int, pos as int + pat@.len() as int)[i as int]
                        == buf@[pos + i]);
                }
            }
            return None;
        }
        i = i + 1;
    }
    proof {
        assert(buf@.subrange(pos as int, pos as int + pat@.len() as int) =~= pat@);
    }
    Some(pos + pat.len())
}

/// The first character of a value's text rendering names its kind, and is
/// never a separator or a closing bracket.
proof fn lemma_value_first_t(v: ValueV)
    ensures
        enc_value_t(v).len() >= 1,
        v is Null ==> enc_value_t(v)[0] == 'n',
        v is Bool ==> enc_value_t(v)[0] == (if v->Bool_0 {
            't'
        } else {
            'f'
        }),
        v is Int ==> enc_value_t(v).len() == 20 && is_digit_ch(enc_value_t(v)[0]),
        v is Text ==> enc_value_t(v)[0] == '"',
        enc_value_t(v)[0] != ']' && enc_value_t(v)[0] != ',' && enc_value_t(v)[0] != '}'
            && enc_value_t(v)[0] != ':',
{
    reveal_strlit("null");
    reveal_strlit("true");
    reveal_strlit("false");
    assert("null"@.len() == 4 && "null"@[0] == 'n');
    assert("true"@.len() == 4 && "true"@[0] == 't');
    assert("false"@.len() == 5 && "false"@[0] == 'f');
    match v {
        ValueV::Null => {},
        ValueV::Bool(b) => {},
        ValueV::Int(n) => {
            lemma_dec_w_len(n as nat, 20);
            lemma_dec_w_digits(n as nat, 20);
            assert(is_digit_ch(dec_w(n as nat, 20)[0]));
        },
        ValueV::Text(s) => {
            assert(enc_value_t(v)[0] == '"');
        },
    }
}

fn read_value_t(buf: &Vec<char>, pos: usize) -> (r: Option<(Value, usize)>)
    requires
        pos <= buf@.len(),
    ensures
        r matches Some(p) ==> pos < p.1 <= buf@.len(),
        forall|v: ValueV, rest: Seq<char>| #![trigger enc_value_t(v).add(rest)]
            suffix_of(buf@, pos as int) == enc_value_t(v).add(rest) ==> (r matches Some(p)
                && p.0.deep_view() == v && p.1 == pos + enc_value_t(v).len()),
{
    let blen = buf.len();
    if pos >= blen {
        proof {
            assert forall|v: ValueV, rest: Seq<char>| #![trigger enc_value_t(v).add(rest)]
                suffix_of(buf@, pos as int) != enc_value_t(v).add(rest) by {
                if suffix_of(buf@, pos as int) == enc_value_t(v).add(rest) {
                    lemma_value_first_t(v);
                    assert(suffix_of(buf@, pos as int).len() == 0);
                }
            }
        }
        return None;
    }
    let c = *slice_index_get(buf.as_slice(), pos);
    proof {
        assert forall|v: ValueV, rest: Seq<char>| #![trigger enc_value_t(v).add(rest)]
            suffix_of(buf@, pos as int) == enc_value_t(v).add(rest) implies buf@[pos as int]
            == enc_value_t(v)[0] by {
            lemma_value_first_t(v);
            assert(suffix_of(buf@, pos as int)[0] == buf@[pos as int]);
        }
    }
    if c == '"' {
        match read_string_t(buf, pos) {
            None => {
                proof {
                    assert forall|v: ValueV, rest: Seq<char>| #![trigger enc_value_t(v).add(rest)]
                        suffix_of(buf@, pos as int) != enc_value_t(v).add(rest) by {
                        if suffix_of(buf@, pos as int) == enc_value_t(v).add(rest) {
                            lemma_value_first_t(v);
                            assert(v is Text);
                            assert(suffix_of(buf@, pos as int) == enc_str_t(v->Text_0).add(rest));
                        }
                    }
                }
                None
            },
            Some((s, p1)) => {
                let res = Some((Value::Text(s), p1));
                proof {
                    assert forall|v: ValueV, rest: Seq<char>| #![trigger enc_value_t(v).add(rest)]
                        suffix_of(buf@, pos as int) == enc_value_t(v).add(rest) implies (
                    res matches Some(p) && p.0.deep_view() == v && p.1 == pos + enc_value_t(
                        v,
                    ).len()) by {
                        lemma_value_first_t(v);
                        assert(v is Text);
                        assert(suffix_of(buf@, pos as int) == enc_str_t(v->Text_0).add(rest));
                    }
                }
                res
            },
        }
    } else if c == 'n' {
        let pat = str_to_chars("null");
        proof {
            reveal_strlit("null");
            assert forall|v: ValueV, rest: Seq<char>| #![trigger enc_value_t(v).add(rest)]
                suffix_of(buf@, pos as int) == enc_value_t(v).add(rest) implies (v is Null && pos
                + "null"@.len() <= buf@.len() && buf@.subrange(
                pos as int,
                pos as int + "null"@.len() as int,
            ) == "null"@) by {
                lemma_value_first_t(v);
                assert(v is Null);
                lemma_chop(buf@, pos as int, "null"@, rest);
            }
        }
        match expect_seg_c(buf, pos, &pat) {
            None => None,
            Some(p1) => Some((Value::Null, p1)),
        }
    } else if c == 't' {
        let pat = str_to_chars("true");
        proof {
            reveal_strlit("true");
            assert forall|v: ValueV, rest: Seq<char>| #![trigger enc_value_t(v).add(rest)]
                suffix_of(buf@, pos as int) == enc_value_t(v).add(rest) implies (v is Bool
                && v->Bool_0 == true && pos + "true"@.len() <= buf@.len() && buf@.subrange(
                pos as int,
                pos as int + "true"@.len() as int,
            ) == "true"@) by {
                lemma_value_first_t(v);
                assert(v is Bool && v->Bool_0 == true);
                lemma_chop(buf@, pos as int, "true"@, rest);
            }
        }
        match expect_seg_c(buf, pos, &pat) {
            None => None,
            Some(p1) => Some((Value::Bool(true), p1)),
        }
    } else if c == 'f' {
        let pat = str_to_chars("false");
        proof {
            reveal_strlit("false");
            assert forall|v: ValueV, rest: Seq<char>| #![trigger enc_value_t(v).add(rest)]
                suffix_of(buf@, pos as int) == enc_value_t(v).add(rest) implies (v is Bool
                && v->Bool_0 == false && pos + "false"@.len() <= buf@.len() && buf@.subrange(
                pos as int,
                pos as int + "false"@.len() as int,
            ) == "false"@) by {
                lemma_value_first_t(v);
                assert(v is Bool && v->Bool_0 == false);
                lemma_chop(buf@, pos as int, "false"@, rest);
            }
        }
        match expect_seg_c(buf, pos, &pat) {
            None => None,
            Some(p1) => Some((Value::Bool(false), p1)),
        }
    } else {
        proof {
            lemma_pow10_20();
            assert forall|v: ValueV, rest: Seq<char>| #![trigger enc_value_t(v).add(rest)]
                suffix_of(buf@, pos as int) == enc_value_t(v).add(rest) implies (v is Int
                && v->Int_0 < pow10(20) && enc_value_t(v).len() == 20 && suffix_of(
                buf@,
                pos as int,
            ) == dec_w(v->Int_0 as nat, 20).add(rest)) by {
                lemma_value_first_t(v);
                assert(buf@[pos as int] != 'n' && buf@[pos as int] != 't' && buf@[pos as int]
                    != 'f' && buf@[pos as int] != '"');
                assert(v is Int);
            }
        }
        match read_dec_w(buf, pos, 20) {
            None => None,
            Some((n, p1)) => Some((Value::Int(n), p1)),
        }
    }
}

pub open spec fn items_end_t(l: ListV, rest: Seq<char>) -> Seq<char> {
    enc_items_t(l) + seq![']'] + rest
}

fn read_items_more(buf: &Vec<char>, pos: usize) -> (r: Option<(List, usize)>)
    requires
        pos <= buf@.len(),
    ensures
        r matches Some(p) ==> pos < p.1 <= buf@.len(),
        forall|l: ListV, rest: Seq<char>| #![trigger items_end_t(l, rest)]
            l.len() >= 1 && suffix_of(buf@, pos as int) == items_end_t(l, rest) ==> (
            r matches Some(p) && p.0.deep_view() == l && p.1 == pos + enc_items_t(l).len() + 1),
    decreases buf@.len() - pos,
{
    proof {
        assert forall|l: ListV, rest: Seq<char>| #![trigger items_end_t(l, rest)]
            l.len() >= 1 && suffix_of(buf@, pos as int) == items_end_t(l, rest) implies {
            &&& (l.len() == 1 ==> suffix_of(buf@, pos as int) == enc_value_t(l[0]).add(
                seq![']'].add(rest),
            ))
            &&& (l.len() > 1 ==> suffix_of(buf@, pos as int) == enc_value_t(l[0]).add(
                seq![','].add(items_end_t(l.drop_first(), rest)),
            ))
        } by {
            if l.len() == 1 {
                assert(suffix_of(buf@, pos as int) =~= enc_value_t(l[0]).add(
                    seq![']'].add(rest),
                ));
            } else {
                assert(suffix_of(buf@, pos as int) =~= enc_value_t(l[0]).add(
                    seq![','].add(items_end_t(l.drop_first(), rest)),
                ));
            }
        }
    }
    match read_value_t(buf, pos) {
        None => None,
        Some((v, p1)) => {
            proof {
                assert forall|l: ListV, rest: Seq<char>| #![trigger items_end_t(l, rest)]
                    l.len() >= 1 && suffix_of(buf@, pos as int) == items_end_t(l, rest) implies {
                    &&& p1 == pos + enc_value_t(l[0]).len()
                    &&& p1 + 1 <= buf@.len()
                    &&& (l.len() == 1 ==> suffix_of(buf@, p1 as int) == seq![']'].add(rest)
                        && buf@[p1 as int] == ']')
                    &&& (l.len() > 1 ==> suffix_of(buf@, p1 as int) == seq![','].add(
                        items_end_t(l.drop_first(), rest),
                    ) && buf@[p1 as int] == ',')
                } by {
                    if l.len() == 1 {
                        lemma_chop(buf@, pos as int, enc_value_t(l[0]), seq![']'].add(rest));
                        assert(buf@.subrange(p1 as int, p1 + 1)[0] == buf@[p1 as int]);
                    } else {
                        lemma_chop(
                            buf@,
                            pos as int,
                            enc_value_t(l[0]),
                            seq![','].add(items_end_t(l.drop_first(), rest)),
                        );
                        assert(buf@.subrange(p1 as int, p1 + 1)[0] == buf@[p1 as int]);
                    }
                }
            }
            let blen = buf.len();
            if p1 >= blen {
                return None;
            }
            let c = *slice_index_get(buf.as_slice(), p1);
            if c == ']' {
                let mut out = Vec::<Value>::new();
                out.push(v);
                let res = Some((out, p1 + 1));
                proof {
                    assert forall|l: ListV, rest: Seq<char>| #![trigger items_end_t(l, rest)]
                        l.len() >= 1 && suffix_of(buf@, pos as int) == items_end_t(l, rest) implies
                        (res matches Some(p) && p.0.deep_view() == l && p.1 == pos + enc_items_t(
                        l,
                    ).len() + 1) by {
                        assert(l.len() == 1);
                        assert(out.deep_view() =~= l);
                    }
                }
                res
            } else if c == ',' {
                proof {
                    assert forall|l: ListV, rest: Seq<char>| #![trigger items_end_t(l, rest)]
                        l.len() >= 1 && suffix_of(buf@, pos as int) == items_end_t(l, rest) implies
                        (l.len() > 1 && suffix_of(buf@, p1 + 1) == items_end_t(
                        l.drop_first(),
                        rest,
                    )) by {
                        assert(l.len() > 1);
                        lemma_chop(buf@, p1 as int, seq![','], items_end_t(l.drop_first(), rest));
                    }
                }
                match read_items_more(buf, p1 + 1) {
                    None => None,
                    Some((tail, p2)) => {
                        let ghost tails = tail@;
                        let ghost tailv = tail.deep_view();
                        let mut out = tail;
                        out.insert(0, v);
                        let res = Some((out, p2));
                        proof {
                            assert forall|l: ListV, rest: Seq<char>|
                                #![trigger items_end_t(l, rest)]
                                l.len() >= 1 && suffix_of(buf@, pos as int) == items_end_t(
                                    l,
                                    rest,
                                ) implies (res matches Some(p) && p.0.deep_view() == l && p.1
                                == pos + enc_items_t(l).len() + 1) by {
                                assert(l.len() > 1);
                                lemma_chop(
                                    buf@,
                                    p1 as int,
                                    seq![','],
                                    items_end_t(l.drop_first(), rest),
                                );
                                assert(tailv == l.drop_first());
                                assert(out@ == tails.insert(0, v));
                                assert forall|i: int| 0 <= i < l.len() implies out.deep_view()[i]
                                    == l[i] by {
                                    if i == 0 {
                                        assert(out@[0] == v);
                                    } else {
                                        assert(out@[i] == tails[i - 1]);
                                        assert(tailv[i - 1] == l.drop_first()[i - 1]);
                                    }
                                }
                                assert(out.deep_view() =~= l);
                            }
                        }
                        res
                    },
                }
            } else {
                None
            }
        },
    }
}

fn read_list_t(buf: &Vec<char>, pos: usize) -> (r: Option<(List, usize)>)
    requires
        pos <= buf@.len(),
    ensures
        r matches Some(p) ==> pos < p.1 <= buf@.len(),
        forall|l: ListV, rest: Seq<char>| #![trigger enc_list_t(l).add(rest)]
            suffix_of(buf@, pos as int) == enc_list_t(l).add(rest) ==> (r matches Some(p)
                && p.0.deep_view() == l && p.1 == pos + enc_list_t(l).len()),
{
    proof {
        assert forall|l: ListV, rest: Seq<char>| #![trigger enc_list_t(l).add(rest)]
            suffix_of(buf@, pos as int) == enc_list_t(l).add(rest) implies {
            &&& buf@[pos as int] == '['
            &&& pos + 1 <= buf@.len()
            &&& (l.len() == 0 ==> suffix_of(buf@, pos + 1) == seq![']'].add(rest) && pos + 2
                <= buf@.len() && buf@[pos + 1] == ']')
            &&& (l.len() >= 1 ==> suffix_of(buf@, pos + 1) == items_end_t(l, rest) && buf@[pos
                + 1] != ']')
            &&& enc_list_t(l).len() == enc_items_t(l).len() + 2
        } by {
            if l.len() == 0 {
                assert(suffix_of(buf@, pos as int) =~= seq!['['].add(seq![']'].add(rest)));
                lemma_chop(buf@, pos as int, seq!['['], seq![']'].add(rest));
                lemma_chop(buf@, pos + 1, seq![']'], rest);
                assert(buf@.subrange(pos as int, pos + 1)[0] == buf@[pos as int]);
                assert(buf@.subrange(pos + 1, pos + 2)[0] == buf@[pos + 1]);
            } else {
                assert(suffix_of(buf@, pos as int) =~= seq!['['].add(items_end_t(l, rest)));
                lemma_chop(buf@, pos as int, seq!['['], items_end_t(l, rest));
                assert(buf@.subrange(pos as int, pos + 1)[0] == buf@[pos as int]);
                assert(suffix_of(buf@, pos + 1)[0] == buf@[pos + 1]);
                lemma_value_first_t(l[0]);
                assert(items_end_t(l, rest)[0] == enc_items_t(l)[0]);
                assert(enc_items_t(l)[0] == enc_value_t(l[0])[0]);
            }
        }
    }
    let blen = buf.len();
    if pos >= blen || *slice_index_get(buf.as_slice(), pos) != '[' {
        return None;
    }
    if pos + 1 < blen && *slice_index_get(buf.as_slice(), pos + 1) == ']' {
        let out = Vec::<Value>::new();
        let res = Some((out, pos + 2));
        proof {
            assert forall|l: ListV, rest: Seq<char>| #![trigger enc_list_t(l).add(rest)]
                suffix_of(buf@, pos as int) == enc_list_t(l).add(rest) implies (res matches Some(p)
                && p.0.deep_view() == l && p.1 == pos + enc_list_t(l).len()) by {
                assert(l.len() == 0);
                assert(res->Some_0.0.deep_view() =~= l);
            }
        }
        res
    } else {
        match read_items_more(buf, pos + 1) {
            None => None,
            Some((items, p2)) => Some((items, p2)),
        }
    }
}

pub open spec fn pairs_end_t(d: DictV, rest: Seq<char>) -> Seq<char> {
    enc_pairs_t(d) + seq!['}'] + rest
}

#[verifier::rlimit(100)]
fn read_pairs_more(buf: &Vec<char>, pos: usize) -> (r: Option<(Dict, usize)>)
    requires
        pos <= buf@.len(),
    ensures
        r matches Some(p) ==> pos < p.1 <= buf@.len(),
        forall|d: DictV, rest: Seq<char>| #![trigger pairs_end_t(d, rest)]
            d.len() >= 1 && suffix_of(buf@, pos as int) == pairs_end_t(d, rest) ==> (
            r matches Some(p) && p.0.deep_view() == d && p.1 == pos + enc_pairs_t(d).len() + 1),
    decreases buf@.len() - pos,
{
    proof {
        assert forall|d: DictV, rest: Seq<char>| #![trigger pairs_end_t(d, rest)]
            d.len() >= 1 && suffix_of(buf@, pos as int) == pairs_end_t(d, rest) implies {
            let pk = pos + enc_str_t(d[0].0).len() as int;
            let pv = pk + 1;
            &&& (d.len() == 1 ==> suffix_of(buf@, pos as int) == enc_str_t(d[0].0).add(
                seq![':'].add(enc_value_t(d[0].1).add(seq!['}'].add(rest))),
            ))
            &&& (d.len() > 1 ==> suffix_of(buf@, pos as int) == enc_str_t(d[0].0).add(
                seq![':'].add(
                    enc_value_t(d[0].1).add(seq![','].add(pairs_end_t(d.drop_first(), rest))),
                ),
            ))
        } by {
            if d.len() == 1 {
                assert(suffix_of(buf@, pos as int) =~= enc_str_t(d[0].0).add(
                    seq![':'].add(enc_value_t(d[0].1).add(seq!['}'].add(rest))),
                ));
            } else {
                assert(suffix_of(buf@, pos as int) =~= enc_str_t(d[0].0).add(
                    seq![':'].add(
                        enc_value_t(d[0].1).add(seq![','].add(pairs_end_t(d.drop_first(), rest))),
                    ),
                ));
            }
        }
    }
    match read_string_t(buf, pos) {
        None => None,
        Some((k, p1)) => {
            proof {
                assert forall|d: DictV, rest: Seq<char>| #![trigger pairs_end_t(d, rest)]
                    d.len() >= 1 && suffix_of(buf@, pos as int) == pairs_end_t(d, rest) implies {
                    &&& p1 == pos + enc_str_t(d[0].0).len()
                    &&& buf@[p1 as int] == ':'
                    &&& p1 + 1 <= buf@.len()
                    &&& (d.len() == 1 ==> suffix_of(buf@, p1 + 1) == enc_value_t(d[0].1).add(
                        seq!['}'].add(rest),
                    ))
                    &&& (d.len() > 1 ==> suffix_of(buf@, p1 + 1) == enc_value_t(d[0].1).add(
                        seq![','].add(pairs_end_t(d.drop_first(), rest)),
                    ))
                } by {
                    if d.len() == 1 {
                        lemma_chop(
                            buf@,
                            pos as int,
                            enc_str_t(d[0].0),
                            seq![':'].add(enc_value_t(d[0].1).add(seq!['}'].add(rest))),
                        );
                        lemma_chop(
                            buf@,
                            p1 as int,
                            seq![':'],
                            enc_value_t(d[0].1).add(seq!['}'].add(rest)),
                        );
                        assert(buf@.subrange(p1 as int, p1 + 1)[0] == buf@[p1 as int]);
                    } else {
                        lemma_chop(
                            buf@,
                            pos as int,
                            enc_str_t(d[0].0),
                            seq![':'].add(
                                enc_value_t(d[0].1).add(
                                    seq![','].add(pairs_end_t(d.drop_first(), rest)),
                                ),
                            ),
                        );
                        lemma_chop(
                            buf@,
                            p1 as int,
                            seq![':'],
                            enc_value_t(d[0].1).add(
                                seq![','].add(pairs_end_t(d.drop_first(), rest)),
                            ),
                        );
                        assert(buf@.subrange(p1 as int, p1 + 1)[0] == buf@[p1 as int]);
                    }
                }
            }
            match expect_char(buf, p1, ':') {
                None => None,
                Some(p2) => {
                    match read_value_t(buf, p2) {
                        None => None,
                        Some((v, p3)) => {
                            proof {
                                assert forall|d: DictV, rest: Seq<char>|
                                    #![trigger pairs_end_t(d, rest)]
                                    d.len() >= 1 && suffix_of(buf@, pos as int) == pairs_end_t(
                                        d,
                                        rest,
                                    ) implies {
                                    &&& p3 == p2 + enc_value_t(d[0].1).len()
                                    &&& p3 + 1 <= buf@.len()
                                    &&& (d.len() == 1 ==> buf@[p3 as int] == '}')
                                    &&& (d.len() > 1 ==> buf@[p3 as int] == ','
                                        && suffix_of(buf@, p3 + 1) == pairs_end_t(
                                        d.drop_first(),
                                        rest,
                                    ))
                                } by {
                                    if d.len() == 1 {
                                        lemma_chop(
                                            buf@,
                                            p2 as int,
                                            enc_value_t(d[0].1),
                                            seq!['}'].add(rest),
                                        );
                                        assert(buf@.subrange(p3 as int, p3 + 1)[0] == buf@[
                                        p3 as int]);
                                    } else {
                                        lemma_chop(
                                            buf@,
                                            p2 as int,
                                            enc_value_t(d[0].1),
                                            seq![','].add(pairs_end_t(d.drop_first(), rest)),
                                        );
                                        lemma_chop(
                                            buf@,
                                            p3 as int,
                                            seq![','],
                                            pairs_end_t(d.drop_first(), rest),
                                        );
                                        assert(buf@.subrange(p3 as int, p3 + 1)[0] == buf@[
                                        p3 as int]);
                                    }
                                }
                            }
                            let blen = buf.len();
                            if p3 >= blen {
                                return None;
                            }
                            let c = *slice_index_get(buf.as_slice(), p3);
                            if c == '}' {
                                let mut out = Vec::<(String, Value)>::new();
                                out.push((k, v));
                                let res = Some((out, p3 + 1));
                                proof {
                                    assert forall|d: DictV, rest: Seq<char>|
                                        #![trigger pairs_end_t(d, rest)]
                                        d.len() >= 1 && suffix_of(buf@, pos as int)
                                            == pairs_end_t(d, rest) implies (res matches Some(p)
                                            && p.0.deep_view() == d && p.1 == pos + enc_pairs_t(
                                            d,
                                        ).len() + 1) by {
                                        assert(d.len() == 1);
                                        assert(out.deep_view() =~= d);
                                    }
                                }
                                res
                            } else if c == ',' {
                                match read_pairs_more(buf, p3 + 1) {
                                    None => None,
                                    Some((tail, p4)) => {
                                        let ghost kv = k@;
                                        let ghost vv = v.deep_view();
                                        let ghost tails = tail@;
                                        let ghost tailv = tail.deep_view();
                                        let mut out = tail;
                                        out.insert(0, (k, v));
                                        let res = Some((out, p4));
                                        proof {
                                            assert forall|d: DictV, rest: Seq<char>|
                                                #![trigger pairs_end_t(d, rest)]
                                                d.len() >= 1 && suffix_of(buf@, pos as int)
                                                    == pairs_end_t(d, rest) implies (
                                            res matches Some(p) && p.0.deep_view() == d && p.1
                                                == pos + enc_pairs_t(d).len() + 1) by {
                                                assert(d.len() > 1);
                                                assert(tailv == d.drop_first());
                                                assert(kv == d[0].0 && vv == d[0].1);
                                                assert(out@ == tails.insert(0, (k, v)));
                                                assert forall|i: int| 0 <= i < d.len() implies
                                                    out.deep_view()[i] == d[i] by {
                                                    if i == 0 {
                                                        assert(out@[0].deep_view() == (kv, vv));
                                                    } else {
                                                        assert(out@[i] == tails[i - 1]);
                                                        assert(tailv[i - 1] == d.drop_first()[i
                                                            - 1]);
                                                    }
                                                }
                                                assert(out.deep_view() =~= d);
                                            }
                                        }
                                        res
                                    },
                                }
                            } else {
                                None
                            }
                        },
                    }
                },
            }
        },
    }
}

fn read_dict_t(buf: &Vec<char>, pos: usize) -> (r: Option<(Dict, usize)>)
    requires
        pos <= buf@.len(),
    ensures
        r matches Some(p) ==> pos < p.1 <= buf@.len(),
        forall|d: DictV, rest: Seq<char>| #![trigger enc_dict_t(d).add(rest)]
            suffix_of(buf@, pos as int) == enc_dict_t(d).add(rest) ==> (r matches Some(p)
                && p.0.deep_view() == d && p.1 == pos + enc_dict_t(d).len()),
{
    proof {
        assert forall|d: DictV, rest: Seq<char>| #![trigger enc_dict_t(d).add(rest)]
            suffix_of(buf@, pos as int) == enc_dict_t(d).add(rest) implies {
            &&& buf@[pos as int] == '{'
            &&& pos + 1 <= buf@.len()
            &&& (d.len() == 0 ==> suffix_of(buf@, pos + 1) == seq!['}'].add(rest) && pos + 2
                <= buf@.len() && buf@[pos + 1] == '}')
            &&& (d.len() >= 1 ==> suffix_of(buf@, pos + 1) == pairs_end_t(d, rest) && buf@[pos
                + 1] != '}')
            &&& enc_dict_t(d).len() == enc_pairs_t(d).len() + 2
        } by {
            if d.len() == 0 {
                assert(suffix_of(buf@, pos as int) =~= seq!['{'].add(seq!['}'].add(rest)));
                lemma_chop(buf@, pos as int, seq!['{'], seq!['}'].add(rest));
                lemma_chop(buf@, pos + 1, seq!['}'], rest);
                assert(buf@.subrange(pos as int, pos + 1)[0] == buf@[pos as int]);
                assert(buf@.subrange(pos + 1, pos + 2)[0] == buf@[pos + 1]);
            } else {
                assert(suffix_of(buf@, pos as int) =~= seq!['{'].add(pairs_end_t(d, rest)));
                lemma_chop(buf@, pos as int, seq!['{'], pairs_end_t(d, rest));
                assert(buf@.subrange(pos as int, pos + 1)[0] == buf@[pos as int]);
                assert(suffix_of(buf@, pos + 1)[0] == buf@[pos + 1]);
                assert(pairs_end_t(d, rest)[0] == enc_pairs_t(d)[0]);
                assert(enc_pairs_t(d)[0] == enc_str_t(d[0].0)[0]);
                assert(enc_str_t(d[0].0)[0] == '"');
            }
        }
    }
    let blen = buf.len();
    if pos >= blen || *slice_index_get(buf.as_slice(), pos) != '{' {
        return None;
    }
    if pos + 1 < blen && *slice_index_get(buf.as_slice(), pos + 1) == '}' {
        let out = Vec::<(String, Value)>::new();
        let res = Some((out, pos + 2));
        proof {
            assert forall|d: DictV, rest: Seq<char>| #![trigger enc_dict_t(d).add(rest)]
                suffix_of(buf@, pos as int) == enc_dict_t(d).add(rest) implies (res matches Some(p)
                && p.0.deep_view() == d && p.1 == pos + enc_dict_t(d).len()) by {
                assert(d.len() == 0);
                assert(res->Some_0.0.deep_view() =~= d);
            }
        }
        res
    } else {
        match read_pairs_more(buf, pos + 1) {
            None => None,
            Some((entries, p2)) => Some((entries, p2)),
        }
    }
}

pub open spec fn enc_roles_t() -> Seq<char> {
    "{\"roles\":{\"publisher\":{},\"subscriber\":{}}}"@
}

pub open spec fn enc_empty_dict_t() -> Seq<char> {
    "{}"@
}

pub open spec fn enc_pub_opts_t(o: PublishOptions) -> Seq<char> {
    if o.acknowledge {
        "{\"acknowledge\":true}"@
    } else {
        "{\"acknowledge\":false}"@
    }
}

pub open spec fn enc_reason_t(r: Reason) -> Seq<char> {
    enc_str_t(reason_text(r))
}

pub open spec fn enc_fields_t(m: MessageV) -> Seq<char> {
    match m {
        MessageV::Hello(realm, d) => enc_str_t(realm) + seq![','] + enc_roles_t(),
        MessageV::Welcome(sid, d) => enc_u64_t(sid) + seq![','] + enc_dict_t(d),
        MessageV::Abort(d, r) => enc_dict_t(d) + seq![','] + enc_reason_t(r),
        MessageV::Goodbye(det, r) => enc_empty_dict_t() + seq![','] + enc_reason_t(r),
        MessageV::Subscribe(rid, o, t) => enc_u64_t(rid) + seq![','] + enc_empty_dict_t()
            + seq![','] + enc_str_t(t),
        MessageV::Subscribed(rid, sid) => enc_u64_t(rid) + seq![','] + enc_u64_t(sid),
        MessageV::Event(sid, pid, d) => enc_u64_t(sid) + seq![','] + enc_u64_t(pid) + seq![',']
            + enc_dict_t(d),
        MessageV::EventArgs(sid, pid, d, a) => enc_u64_t(sid) + seq![','] + enc_u64_t(pid)
            + seq![','] + enc_dict_t(d) + seq![','] + enc_list_t(a),
        MessageV::EventKwArgs(sid, pid, d, a, k) => enc_u64_t(sid) + seq![','] + enc_u64_t(pid)
            + seq![','] + enc_dict_t(d) + seq![','] + enc_list_t(a) + seq![','] + enc_dict_t(k),
        MessageV::Publish(rid, o, t) => enc_u64_t(rid) + seq![','] + enc_pub_opts_t(o)
            + seq![','] + enc_str_t(t),
        MessageV::PublishArgs(rid, o, t, a) => enc_u64_t(rid) + seq![','] + enc_pub_opts_t(o)
            + seq![','] + enc_str_t(t) + seq![','] + enc_list_t(a),
        MessageV::PublishKwArgs(rid, o, t, a, k) => enc_u64_t(rid) + seq![','] + enc_pub_opts_t(
            o,
        ) + seq![','] + enc_str_t(t) + seq![','] + enc_list_t(a) + seq![','] + enc_dict_t(k),
        MessageV::Error(rid, u) => enc_u64_t(rid) + seq![','] + enc_str_t(u),
    }
}

/// A message in the text format: a one-entry document from the message
/// kind's name to the list of its fields.
pub open spec fn enc_msg_t(m: MessageV) -> Seq<char> {
    seq!['{'] + enc_str_t(msg_name(m)) + seq![':'] + seq!['['] + enc_fields_t(m) + seq![']']
        + seq!['}']
}

fn put_u64_field(out: &mut Vec<char>, n: u64, comma: bool)
    ensures
        final(out)@ == old(out)@ + enc_u64_t(n) + (if comma {
            seq![',']
        } else {
            Seq::<char>::empty()
        }),
{
    put_u64_t(out, n);
    if comma {
        out.push(',');
    }
    proof {
        assert(out@ =~= old(out)@ + enc_u64_t(n) + (if comma {
            seq![',']
        } else {
            Seq::<char>::empty()
        }));
    }
}

/// Encode a message in the text wire format.
#[verifier::rlimit(100)]
pub fn encode_text(m: &Message) -> (r: Vec<char>)
    ensures
        r@ == enc_msg_t(m.deep_view()),
{
    let mut out = Vec::<char>::new();
    out.push('{');
    match m {
        Message::Hello(realm, d) => {
            put_str_t(&mut out, "Hello");
            out.push(':');
            out.push('[');
            put_str_t(&mut out, realm.uri.as_str());
            out.push(',');
            put_lit(&mut out, "{\"roles\":{\"publisher\":{},\"subscriber\":{}}}");
        },
        Message::Welcome(sid, d) => {
            put_str_t(&mut out, "Welcome");
            out.push(':');
            out.push('[');
            put_u64_field(&mut out, *sid, true);
            put_dict_t(&mut out, d);
        },
        Message::Abort(d, r2) => {
            put_str_t(&mut out, "Abort");
            out.push(':');
            out.push('[');
            put_dict_t(&mut out, d);
            out.push(',');
            put_reason_t(&mut out, r2);
        },
        Message::Goodbye(det, r2) => {
            put_str_t(&mut out, "Goodbye");
            out.push(':');
            out.push('[');
            put_lit(&mut out, "{}");
            out.push(',');
            put_reason_t(&mut out, r2);
        },
        Message::Subscribe(rid, o, t) => {
            put_str_t(&mut out, "Subscribe");
            out.push(':');
            out.push('[');
            put_u64_field(&mut out, *rid, true);
            put_lit(&mut out, "{}");
            out.push(',');
            put_str_t(&mut out, t.uri.as_str());
        },
        Message::Subscribed(rid, sid) => {
            put_str_t(&mut out, "Subscribed");
            out.push(':');
            out.push('[');
            put_u64_field(&mut out, *rid, true);
            put_u64_field(&mut out, *sid, false);
        },
        Message::Event(sid, pid, d) => {
            put_str_t(&mut out, "Event");
            out.push(':');
            out.push('[');
            put_u64_field(&mut out, *sid, true);
            put_u64_field(&mut out, *pid, true);
            put_dict_t(&mut out, d);
        },
        Message::EventArgs(sid, pid, d, a) => {
            put_str_t(&mut out, "EventArgs");
            out.push(':');
            out.push('[');
            put_u64_field(&mut out, *sid, true);
            put_u64_field(&mut out, *pid, true);
            put_dict_t(&mut out, d);
            out.push(',');
            put_list_t(&mut out, a);
        },
        Message::EventKwArgs(sid, pid, d, a, k) => {
            put_str_t(&mut out, "EventKwArgs");
            out.push(':');
            out.push('[');
            put_u64_field(&mut out, *sid, true);
            put_u64_field(&mut out, *pid, true);
            put_dict_t(&mut out, d);
            out.push(',');
            put_list_t(&mut out, a);
            out.push(',');
            put_dict_t(&mut out, k);
        },
        Message::Publish(rid, o, t) => {
            put_str_t(&mut out, "Publish");
            out.push(':');
            out.push('[');
            put_u64_field(&mut out, *rid, true);
            put_pub_opts_t(&mut out, o);
            out.push(',');
            put_str_t(&mut out, t.uri.as_str());
        },
        Message::PublishArgs(rid, o, t, a) => {
            put_str_t(&mut out, "PublishArgs");
            out.push(':');
            out.push('[');
            put_u64_field(&mut out, *rid, true);
            put_pub_opts_t(&mut out, o);
            out.push(',');
            put_str_t(&mut out, t.uri.as_str());
            out.push(',');
            put_list_t(&mut out, a);
        },
        Message::PublishKwArgs(rid, o, t, a, k) => {
            put_str_t(&mut out, "PublishKwArgs");
            out.push(':');
            out.push('[');
            put_u64_field(&mut out, *rid, true);
            put_pub_opts_t(&mut out, o);
            out.push(',');
            put_str_t(&mut out, t.uri.as_str());
            out.push(',');
            put_list_t(&mut out, a);
            out.push(',');
            put_dict_t(&mut out, k);
        },
        Message::Error(rid, u) => {
            put_str_t(&mut out, "Error");
            out.push(':');
            out.push('[');
            put_u64_field(&mut out, *rid, true);
            put_str_t(&mut out, u.uri.as_str());
        },
    }
    out.push(']');
    out.push('}');
    proof {
        assert(out@ =~= enc_msg_t(m.deep_view()));
    }
    out
}

fn put_reason_t(out: &mut Vec<char>, r: &Reason)
    ensures
        final(out)@ == old(out)@ + enc_reason_t(*r),
{
    match r {
        Reason::GoodbyeAndOut => put_str_t(out, "wamp.close.goodbye_and_out"),
        Reason::SystemShutdown => put_str_t(out, "wamp.close.system_shutdown"),
        Reason::CloseRealm => put_str_t(out, "wamp.close.close_realm"),
        Reason::Unknown => put_str_t(out, "wamp.close.unknown"),
    }
}

fn put_pub_opts_t(out: &mut Vec<char>, o: &PublishOptions)
    ensures
        final(out)@ == old(out)@ + enc_pub_opts_t(*o),
{
    if o.acknowledge {
        put_lit(out, "{\"acknowledge\":true}");
    } else {
        put_lit(out, "{\"acknowledge\":false}");
    }
}


pub open spec fn close_t(rest: Seq<char>) -> Seq<char> {
    seq!['}'] + rest
}

pub open spec fn u64_field(n: u64, term: char, rest: Seq<char>) -> Seq<char> {
    enc_u64_t(n) + seq![term] + rest
}

pub open spec fn str_field(s: Seq<char>, term: char, rest: Seq<char>) -> Seq<char> {
    enc_str_t(s) + seq![term] + rest
}

pub open spec fn dict_field(d: DictV, term: char, rest: Seq<char>) -> Seq<char> {
    enc_dict_t(d) + seq![term] + rest
}

pub open spec fn list_field(l: ListV, term: char, rest: Seq<char>) -> Seq<char> {
    enc_list_t(l) + seq![term] + rest
}

pub open spec fn reason_field(r: Reason, term: char, rest: Seq<char>) -> Seq<char> {
    enc_reason_t(r) + seq![term] + rest
}

pub open spec fn popts_field(o: PublishOptions, term: char, rest: Seq<char>) -> Seq<char> {
    enc_pub_opts_t(o) + seq![term] + rest
}

pub open spec fn roles_field(term: char, rest: Seq<char>) -> Seq<char> {
    enc_roles_t() + seq![term] + rest
}

pub open spec fn empty_field(term: char, rest: Seq<char>) -> Seq<char> {
    enc_empty_dict_t() + seq![term] + rest
}

fn fld_close(buf: &Vec<char>, pos: usize) -> (r: Option<usize>)
    requires
        pos <= buf@.len(),
    ensures
        r matches Some(p) ==> pos < p <= buf@.len(),
        forall|rest: Seq<char>| #![trigger close_t(rest)]
            suffix_of(buf@, pos as int) == close_t(rest) ==> (r matches Some(p) && p == pos + 1
                && suffix_of(buf@, p as int) == rest),
{
    proof {
        assert forall|rest: Seq<char>| #![trigger close_t(rest)]
            suffix_of(buf@, pos as int) == close_t(rest) implies (buf@[pos as int] == '}' && pos
            + 1 <= buf@.len() && suffix_of(buf@, pos + 1) == rest) by {
            assert(suffix_of(buf@, pos as int) =~= seq!['}'].add(rest));
            lemma_chop(buf@, pos as int, seq!['}'], rest);
            assert(buf@.subrange(pos as int, pos + 1)[0] == buf@[pos as int]);
        }
    }
    expect_char(buf, pos, '}')
}

fn fld_u64(buf: &Vec<char>, pos: usize, term: char) -> (r: Option<(u64, usize)>)
    requires
        pos <= buf@.len(),
    ensures
        r matches Some(p) ==> pos < p.1 <= buf@.len(),
        forall|n: u64, rest: Seq<char>| #![trigger u64_field(n, term, rest)]
            suffix_of(buf@, pos as int) == u64_field(n, term, rest) ==> (r matches Some(p) && p.0
                == n && suffix_of(buf@, p.1 as int) == rest),
{
    proof {
        assert forall|n: u64, rest: Seq<char>| #![trigger u64_field(n, term, rest)]
            suffix_of(buf@, pos as int) == u64_field(n, term, rest) implies (n < pow10(20)
            && suffix_of(buf@, pos as int) == dec_w(n as nat, 20).add(seq![term].add(rest))
            && buf@[pos + 20] == term && pos + 21 <= buf@.len() && suffix_of(buf@, pos + 21)
            == rest) by {
            lemma_pow10_20();
            lemma_dec_w_len(n as nat, 20);
            assert(suffix_of(buf@, pos as int) =~= dec_w(n as nat, 20).add(seq![term].add(rest)));
            lemma_chop(buf@, pos as int, dec_w(n as nat, 20), seq![term].add(rest));
            lemma_chop(buf@, pos + 20, seq![term], rest);
            assert(buf@.subrange(pos + 20, pos + 21)[0] == buf@[pos + 20]);
        }
    }
    match read_dec_w(buf, pos, 20) {
        None => None,
        Some((n, p1)) => {
            match expect_char(buf, p1, term) {
                None => None,
                Some(p2) => Some((n, p2)),
            }
        },
    }
}

fn fld_str(buf: &Vec<char>, pos: usize, term: char) -> (r: Option<(String, usize)>)
    requires
        pos <= buf@.len(),
    ensures
        r matches Some(p) ==> pos < p.1 <= buf@.len(),
        forall|s: Seq<char>, rest: Seq<char>| #![trigger str_field(s, term, rest)]
            suffix_of(buf@, pos as int) == str_field(s, term, rest) ==> (r matches Some(p) && p.0@
                == s && suffix_of(buf@, p.1 as int) == rest),
{
    proof {
        assert forall|s: Seq<char>, rest: Seq<char>| #![trigger str_field(s, term, rest)]
            suffix_of(buf@, pos as int) == str_field(s, term, rest) implies (suffix_of(
            buf@,
            pos as int,
        ) == enc_str_t(s).add(seq![term].add(rest)) && buf@[pos + enc_str_t(s).len()] == term
            && pos + enc_str_t(s).len() + 1 <= buf@.len() && suffix_of(
            buf@,
            pos + enc_str_t(s).len() + 1,
        ) == rest) by {
            assert(suffix_of(buf@, pos as int) =~= enc_str_t(s).add(seq![term].add(rest)));
            lemma_chop(buf@, pos as int, enc_str_t(s), seq![term].add(rest));
            let pt = pos + enc_str_t(s).len() as int;
            lemma_chop(buf@, pt, seq![term], rest);
            assert(buf@.subrange(pt, pt + 1)[0] == buf@[pt]);
        }
    }
    match read_string_t(buf, pos) {
        None => None,
        Some((s, p1)) => {
            match expect_char(buf, p1, term) {
                None => None,
                Some(p2) => Some((s, p2)),
            }
        },
    }
}

fn fld_dict(buf: &Vec<char>, pos: usize, term: char) -> (r: Option<(Dict, usize)>)
    requires
        pos <= buf@.len(),
    ensures
        r matches Some(p) ==> pos < p.1 <= buf@.len(),
        forall|d: DictV, rest: Seq<char>| #![trigger dict_field(d, term, rest)]
            suffix_of(buf@, pos as int) == dict_field(d, term, rest) ==> (r matches Some(p)
                && p.0.deep_view() == d && suffix_of(buf@, p.1 as int) == rest),
{
    proof {
        assert forall|d: DictV, rest: Seq<char>| #![trigger dict_field(d, term, rest)]
            suffix_of(buf@, pos as int) == dict_field(d, term, rest) implies (suffix_of(
            buf@,
            pos as int,
        ) == enc_dict_t(d).add(seq![term].add(rest)) && buf@[pos + enc_dict_t(d).len()] == term
            && pos + enc_dict_t(d).len() + 1 <= buf@.len() && suffix_of(
            buf@,
            pos + enc_dict_t(d).len() + 1,
        ) == rest) by {
            assert(suffix_of(buf@, pos as int) =~= enc_dict_t(d).add(seq![term].add(rest)));
            lemma_chop(buf@, pos as int, enc_dict_t(d), seq![term].add(rest));
            let pt = pos + enc_dict_t(d).len() as int;
            lemma_chop(buf@, pt, seq![term], rest);
            assert(buf@.subrange(pt, pt + 1)[0] == buf@[pt]);
        }
    }
    match read_dict_t(buf, pos) {
        None => None,
        Some((d, p1)) => {
            match expect_char(buf, p1, term) {
                None => None,
                Some(p2) => Some((d, p2)),
            }
        },
    }
}

fn fld_list(buf: &Vec<char>, pos: usize, term: char) -> (r: Option<(List, usize)>)
    requires
        pos <= buf@.len(),
    ensures
        r matches Some(p) ==> pos < p.1 <= buf@.len(),
        forall|l: ListV, rest: Seq<char>| #![trigger list_field(l, term, rest)]
            suffix_of(buf@, pos as int) == list_field(l, term, rest) ==> (r matches Some(p)
                && p.0.deep_view() == l && suffix_of(buf@, p.1 as int) == rest),
{
    proof {
        assert forall|l: ListV, rest: Seq<char>| #![trigger list_field(l, term, rest)]
            suffix_of(buf@, pos as int) == list_field(l, term, rest) implies (suffix_of(
            buf@,
            pos as int,
        ) == enc_list_t(l).add(seq![term].add(rest)) && buf@[pos + enc_list_t(l).len()] == term
            && pos + enc_list_t(l).len() + 1 <= buf@.len() && suffix_of(
            buf@,
            pos + enc_list_t(l).len() + 1,
        ) == rest) by {
            assert(suffix_of(buf@, pos as int) =~= enc_list_t(l).add(seq![term].add(rest)));
            lemma_chop(buf@, pos as int, enc_list_t(l), seq![term].add(rest));
            let pt = pos + enc_list_t(l).len() as int;
            lemma_chop(buf@, pt, seq![term], rest);
            assert(buf@.subrange(pt, pt + 1)[0] == buf@[pt]);
        }
    }
    match read_list_t(buf, pos) {
        None => None,
        Some((l, p1)) => {
            match expect_char(buf, p1, term) {
                None => None,
                Some(p2) => Some((l, p2)),
            }
        },
    }
}

fn fld_reason(buf: &Vec<char>, pos: usize, term: char) -> (r: Option<(Reason, usize)>)
    requires
        pos <= buf@.len(),
    ensures
        r matches Some(p) ==> pos < p.1 <= buf@.len(),
        forall|rs: Reason, rest: Seq<char>| #![trigger reason_field(rs, term, rest)]
            suffix_of(buf@, pos as int) == reason_field(rs, term, rest) ==> (r matches Some(p)
                && p.0 == rs && suffix_of(buf@, p.1 as int) == rest),
{
    proof {
        assert forall|rs: Reason, rest: Seq<char>| #![trigger reason_field(rs, term, rest)]
            suffix_of(buf@, pos as int) == reason_field(rs, term, rest) implies (suffix_of(
            buf@,
            pos as int,
        ) == str_field(reason_text(rs), term, rest)) by {
            assert(suffix_of(buf@, pos as int) =~= str_field(reason_text(rs), term, rest));
        }
    }
    match fld_str(buf, pos, term) {
        None => None,
        Some((s, p1)) => {
            let rr = if str_eq(s.as_str(), "wamp.close.goodbye_and_out") {
                Reason::GoodbyeAndOut
            } else if str_eq(s.as_str(), "wamp.close.system_shutdown") {
                Reason::SystemShutdown
            } else if str_eq(s.as_str(), "wamp.close.close_realm") {
                Reason::CloseRealm
            } else {
                Reason::Unknown
            };
            let res = Some((rr, p1));
            proof {
                assert forall|rs: Reason, rest: Seq<char>| #![trigger reason_field(rs, term, rest)]
                    suffix_of(buf@, pos as int) == reason_field(rs, term, rest) implies (
                res matches Some(p) && p.0 == rs && suffix_of(buf@, p.1 as int) == rest) by {
                    lemma_reason_inv(rs);
                }
            }
            res
        },
    }
}

fn fld_popts(buf: &Vec<char>, pos: usize, term: char) -> (r: Option<(PublishOptions, usize)>)
    requires
        pos <= buf@.len(),
    ensures
        r matches Some(p) ==> pos < p.1 <= buf@.len(),
        forall|o: PublishOptions, rest: Seq<char>| #![trigger popts_field(o, term, rest)]
            suffix_of(buf@, pos as int) == popts_field(o, term, rest) ==> (r matches Some(p)
                && p.0 == o && suffix_of(buf@, p.1 as int) == rest),
{
    proof {
        reveal_strlit("{\"acknowledge\":true}");
        reveal_strlit("{\"acknowledge\":false}");
        assert("{\"acknowledge\":true}"@.len() == 20);
        assert("{\"acknowledge\":false}"@.len() == 21);
        assert("{\"acknowledge\":true}"@[15] == 't');
        assert("{\"acknowledge\":false}"@[15] == 'f');
        assert forall|o: PublishOptions, rest: Seq<char>| #![trigger popts_field(o, term, rest)]
            suffix_of(buf@, pos as int) == popts_field(o, term, rest) implies (pos
            + enc_pub_opts_t(o).len() + 1 <= buf@.len() && buf@.subrange(
            pos as int,
            pos + enc_pub_opts_t(o).len() as int,
        ) == enc_pub_opts_t(o) && buf@[pos + enc_pub_opts_t(o).len()] == term && suffix_of(
            buf@,
            pos + enc_pub_opts_t(o).len() + 1,
        ) == rest && buf@[pos + 15] == (if o.acknowledge {
            't'
        } else {
            'f'
        })) by {
            assert(suffix_of(buf@, pos as int) =~= enc_pub_opts_t(o).add(seq![term].add(rest)));
            lemma_chop(buf@, pos as int, enc_pub_opts_t(o), seq![term].add(rest));
            let pt = pos + enc_pub_opts_t(o).len() as int;
            lemma_chop(buf@, pt, seq![term], rest);
            assert(buf@.subrange(pt, pt + 1)[0] == buf@[pt]);
            assert(buf@.subrange(pos as int, pt)[15] == buf@[pos + 15]);
        }
    }
    let pat_true = str_to_chars("{\"acknowledge\":true}");
    match expect_seg_c(buf, pos, &pat_true) {
        Some(p1) => {
            match expect_char(buf, p1, term) {
                None => None,
                Some(p2) => Some((PublishOptions { acknowledge: true }, p2)),
            }
        },
        None => {
            let pat_false = str_to_chars("{\"acknowledge\":false}");
            match expect_seg_c(buf, pos, &pat_false) {
                Some(p1) => {
                    match expect_char(buf, p1, term) {
                        None => None,
                        Some(p2) => Some((PublishOptions { acknowledge: false }, p2)),
                    }
                },
                None => None,
            }
        },
    }
}

fn fld_roles(buf: &Vec<char>, pos: usize, term: char) -> (r: Option<usize>)
    requires
        pos <= buf@.len(),
    ensures
        r matches Some(p) ==> pos < p <= buf@.len(),
        forall|rest: Seq<char>| #![trigger roles_field(term, rest)]
            suffix_of(buf@, pos as int) == roles_field(term, rest) ==> (r matches Some(p)
                && suffix_of(buf@, p as int) == rest),
{
    proof {
        assert forall|rest: Seq<char>| #![trigger roles_field(term, rest)]
            suffix_of(buf@, pos as int) == roles_field(term, rest) implies (pos + enc_roles_t(
        ).len() + 1 <= buf@.len() && buf@.subrange(
            pos as int,
            pos + enc_roles_t().len() as int,
        ) == enc_roles_t() && buf@[pos + enc_roles_t().len()] == term && suffix_of(
            buf@,
            pos + enc_roles_t().len() + 1,
        ) == rest) by {
            assert(suffix_of(buf@, pos as int) =~= enc_roles_t().add(seq![term].add(rest)));
            lemma_chop(buf@, pos as int, enc_roles_t(), seq![term].add(rest));
            let pt = pos + enc_roles_t().len() as int;
            lemma_chop(buf@, pt, seq![term], rest);
            assert(buf@.subrange(pt, pt + 1)[0] == buf@[pt]);
        }
    }
    let pat = str_to_chars("{\"roles\":{\"publisher\":{},\"subscriber\":{}}}");
    match expect_seg_c(buf, pos, &pat) {
        None => None,
        Some(p1) => {
            match expect_char(buf, p1, term) {
                None => None,
                Some(p2) => Some(p2),
            }
        },
    }
}

fn fld_empty(buf: &Vec<char>, pos: usize, term: char) -> (r: Option<usize>)
    requires
        pos <= buf@.len(),
    ensures
        r matches Some(p) ==> pos < p <= buf@.len(),
        forall|rest: Seq<char>| #![trigger empty_field(term, rest)]
            suffix_of(buf@, pos as int) == empty_field(term, rest) ==> (r matches Some(p)
                && suffix_of(buf@, p as int) == rest),
{
    proof {
        assert forall|rest: Seq<char>| #![trigger empty_field(term, rest)]
            suffix_of(buf@, pos as int) == empty_field(term, rest) implies (pos + enc_empty_dict_t(
        ).len() + 1 <= buf@.len() && buf@.subrange(
            pos as int,
            pos + enc_empty_dict_t().len() as int,
        ) == enc_empty_dict_t() && buf@[pos + enc_empty_dict_t().len()] == term && suffix_of(
            buf@,
            pos + enc_empty_dict_t().len() + 1,
        ) == rest) by {
            assert(suffix_of(buf@, pos as int) =~= enc_empty_dict_t().add(seq![term].add(rest)));
            lemma_chop(buf@, pos as int, enc_empty_dict_t(), seq![term].add(rest));
            let pt = pos + enc_empty_dict_t().len() as int;
            lemma_chop(buf@, pt, seq![term], rest);
            assert(buf@.subrange(pt, pt + 1)[0] == buf@[pt]);
        }
    }
    let pat = str_to_chars("{}");
    match expect_seg_c(buf, pos, &pat) {
        None => None,
        Some(p1) => {
            match expect_char(buf, p1, term) {
                None => None,
                Some(p2) => Some(p2),
            }
        },
    }
}


/// The fields of a message, each with its terminator, ending at the
/// document's closing brace.
pub open spec fn chain_t(m: MessageV, rest: Seq<char>) -> Seq<char> {
    match m {
        MessageV::Hello(realm, d) => str_field(realm, ',', roles_field(']', close_t(rest))),
        MessageV::Welcome(sid, d) => u64_field(sid, ',', dict_field(d, ']', close_t(rest))),
        MessageV::Abort(d, r) => dict_field(d, ',', reason_field(r, ']', close_t(rest))),
        MessageV::Goodbye(det, r) => empty_field(',', reason_field(r, ']', close_t(rest))),
        MessageV::Subscribe(rid, o, t) => u64_field(
            rid,
            ',',
            empty_field(',', str_field(t, ']', close_t(rest))),
        ),
        MessageV::Subscribed(rid, sid) => u64_field(rid, ',', u64_field(sid, ']', close_t(rest))),
        MessageV::Event(sid, pid, d) => u64_field(
            sid,
            ',',
            u64_field(pid, ',', dict_field(d, ']', close_t(rest))),
        ),
        MessageV::EventArgs(sid, pid, d, a) => u64_field(
            sid,
            ',',
            u64_field(pid, ',', dict_field(d, ',', list_field(a, ']', close_t(rest)))),
        ),
        MessageV::EventKwArgs(sid, pid, d, a, k) => u64_field(
            sid,
            ',',
            u64_field(
                pid,
                ',',
                dict_field(d, ',', list_field(a, ',', dict_field(k, ']', close_t(rest)))),
            ),
        ),
        MessageV::Publish(rid, o, t) => u64_field(
            rid,
            ',',
            popts_field(o, ',', str_field(t, ']', close_t(rest))),
        ),
        MessageV::PublishArgs(rid, o, t, a) => u64_field(
            rid,
            ',',
            popts_field(o, ',', str_field(t, ',', list_field(a, ']', close_t(rest)))),
        ),
        MessageV::PublishKwArgs(rid, o, t, a, k) => u64_field(
            rid,
            ',',
            popts_field(
                o,
                ',',
                str_field(t, ',', list_field(a, ',', dict_field(k, ']', close_t(rest)))),
            ),
        ),
        MessageV::Error(rid, u) => u64_field(rid, ',', str_field(u, ']', close_t(rest))),
    }
}

/// Parse one message of the text format. The decoder accepts exactly the
/// canonical rendering of one message and inverts the encoder.
#[verifier::rlimit(100)]
fn read_msg_t(buf: &Vec<char>, pos: usize) -> (r: Option<(Message, usize)>)
    requires
        pos <= buf@.len(),
    ensures
        r matches Some(p) ==> pos <= p.1 <= buf@.len(),
        forall|m: MessageV, rest: Seq<char>| #![trigger enc_msg_t(m).add(rest)]
            suffix_of(buf@, pos as int) == enc_msg_t(m).add(rest) ==> (r matches Some(p)
                && p.0.deep_view() == m && suffix_of(buf@, p.1 as int) == rest),
{
    proof {
        assert forall|m: MessageV, rest: Seq<char>| #![trigger enc_msg_t(m).add(rest)]
            suffix_of(buf@, pos as int) == enc_msg_t(m).add(rest) implies {
            let pn = pos + 1 + enc_str_t(msg_name(m)).len() as int;
            &&& buf@[pos as int] == '{'
            &&& pos + 1 <= buf@.len()
            &&& suffix_of(buf@, pos + 1) == enc_str_t(msg_name(m)).add(
                seq![':'].add(seq!['['].add(chain_t(m, rest))),
            )
            &&& buf@[pn] == ':'
            &&& buf@[pn + 1] == '['
            &&& pn + 2 <= buf@.len()
            &&& suffix_of(buf@, pn + 2) == chain_t(m, rest)
            &&& ((msg_name(m) == "Hello"@) == (m is Hello))
            &&& ((msg_name(m) == "Welcome"@) == (m is Welcome))
            &&& ((msg_name(m) == "Abort"@) == (m is Abort))
            &&& ((msg_name(m) == "Goodbye"@) == (m is Goodbye))
            &&& ((msg_name(m) == "Subscribe"@) == (m is Subscribe))
            &&& ((msg_name(m) == "Subscribed"@) == (m is Subscribed))
            &&& ((msg_name(m) == "Event"@) == (m is Event))
            &&& ((msg_name(m) == "EventArgs"@) == (m is EventArgs))
            &&& ((msg_name(m) == "EventKwArgs"@) == (m is EventKwArgs))
            &&& ((msg_name(m) == "Publish"@) == (m is Publish))
            &&& ((msg_name(m) == "PublishArgs"@) == (m is PublishArgs))
            &&& ((msg_name(m) == "PublishKwArgs"@) == (m is PublishKwArgs))
            &&& ((msg_name(m) == "Error"@) == (m is Error))
        } by {
            lemma_name_inv(m);
            let nm = enc_str_t(msg_name(m));
            let tail = seq![':'].add(seq!['['].add(chain_t(m, rest)));
            assert(enc_fields_t(m).add(seq![']'].add(seq!['}'].add(rest))) =~= chain_t(m, rest));
            assert(suffix_of(buf@, pos as int) =~= seq!['{'].add(
                nm.add(seq![':'].add(seq!['['].add(enc_fields_t(m).add(seq![']'].add(seq!['}'].add(rest)))))),
            ));
            assert(suffix_of(buf@, pos as int) =~= seq!['{'].add(nm.add(tail)));
            lemma_chop(buf@, pos as int, seq!['{'], nm.add(tail));
            assert(buf@.subrange(pos as int, pos + 1)[0] == buf@[pos as int]);
            lemma_chop(buf@, pos + 1, nm, tail);
            let pn = pos + 1 + nm.len() as int;
            lemma_chop(buf@, pn, seq![':'], seq!['['].add(chain_t(m, rest)));
            assert(buf@.subrange(pn, pn + 1)[0] == buf@[pn]);
            lemma_chop(buf@, pn + 1, seq!['['], chain_t(m, rest));
            assert(buf@.subrange(pn + 1, pn + 2)[0] == buf@[pn + 1]);
        }
    }
    let p0 = match expect_char(buf, pos, '{') {
        None => {
            return None;
        },
        Some(p) => p,
    };
    let (name, pn) = match read_string_t(buf, p0) {
        None => {
            return None;
        },
        Some(x) => x,
    };
    let p1 = match expect_char(buf, pn, ':') {
        None => {
            return None;
        },
        Some(p) => p,
    };
    let pf = match expect_char(buf, p1, '[') {
        None => {
            return None;
        },
        Some(p) => p,
    };
    if str_eq(name.as_str(), "Hello") {
        match fld_str(buf, pf, ',') {
            None => None,
            Some((realm, q1)) => match fld_roles(buf, q1, ']') {
                None => None,
                Some(q2) => match fld_close(buf, q2) {
                    None => None,
                    Some(q3) => Some(
                        (
                            Message::Hello(
                                URI { uri: realm },
                                HelloDetails { roles: ClientRoles {  } },
                            ),
                            q3,
                        ),
                    ),
                },
            },
        }
    } else if str_eq(name.as_str(), "Welcome") {
        match fld_u64(buf, pf, ',') {
            None => None,
            Some((sid, q1)) => match fld_dict(buf, q1, ']') {
                None => None,
                Some((d, q2)) => match fld_close(buf, q2) {
                    None => None,
                    Some(q3) => Some((Message::Welcome(sid, d), q3)),
                },
            },
        }
    } else if str_eq(name.as_str(), "Abort") {
        match fld_dict(buf, pf, ',') {
            None => None,
            Some((d, q1)) => match fld_reason(buf, q1, ']') {
                None => None,
                Some((rs, q2)) => match fld_close(buf, q2) {
                    None => None,
                    Some(q3) => Some((Message::Abort(d, rs), q3)),
                },
            },
        }
    } else if str_eq(name.as_str(), "Goodbye") {
        match fld_empty(buf, pf, ',') {
            None => None,
            Some(q1) => match fld_reason(buf, q1, ']') {
                None => None,
                Some((rs, q2)) => match fld_close(buf, q2) {
                    None => None,
                    Some(q3) => Some((Message::Goodbye(ErrorDetails {  }, rs), q3)),
                },
            },
        }
    } else if str_eq(name.as_str(), "Subscribe") {
        match fld_u64(buf, pf, ',') {
            None => None,
            Some((rid, q1)) => match fld_empty(buf, q1, ',') {
                None => None,
                Some(q2) => match fld_str(buf, q2, ']') {
                    None => None,
                    Some((t, q3)) => match fld_close(buf, q3) {
                        None => None,
                        Some(q4) => Some(
                            (Message::Subscribe(rid, SubscribeOptions {  }, URI { uri: t }), q4),
                        ),
                    },
                },
            },
        }
    } else if str_eq(name.as_str(), "Subscribed") {
        match fld_u64(buf, pf, ',') {
            None => None,
            Some((rid, q1)) => match fld_u64(buf, q1, ']') {
                None => None,
                Some((sid, q2)) => match fld_close(buf, q2) {
                    None => None,
                    Some(q3) => Some((Message::Subscribed(rid, sid), q3)),
                },
            },
        }
    } else if str_eq(name.as_str(), "Event") {
        match fld_u64(buf, pf, ',') {
            None => None,
            Some((sid, q1)) => match fld_u64(buf, q1, ',') {
                None => None,
                Some((pid, q2)) => match fld_dict(buf, q2, ']') {
                    None => None,
                    Some((d, q3)) => match fld_close(buf, q3) {
                        None => None,
                        Some(q4) => Some((Message::Event(sid, pid, d), q4)),
                    },
                },
            },
        }
    } else if str_eq(name.as_str(), "EventArgs") {
        match fld_u64(buf, pf, ',') {
            None => None,
            Some((sid, q1)) => match fld_u64(buf, q1, ',') {
                None => None,
                Some((pid, q2)) => match fld_dict(buf, q2, ',') {
                    None => None,
                    Some((d, q3)) => match fld_list(buf, q3, ']') {
                        None => None,
                        Some((a, q4)) => match fld_close(buf, q4) {
                            None => None,
                            Some(q5) => Some((Message::EventArgs(sid, pid, d, a), q5)),
                        },
                    },
                },
            },
        }
    } else if str_eq(name.as_str(), "EventKwArgs") {
        match fld_u64(buf, pf, ',') {
            None => None,
            Some((sid, q1)) => match fld_u64(buf, q1, ',') {
                None => None,
                Some((pid, q2)) => match fld_dict(buf, q2, ',') {
                    None => None,
                    Some((d, q3)) => match fld_list(buf, q3, ',') {
                        None => None,
                        Some((a, q4)) => match fld_dict(buf, q4, ']') {
                            None => None,
                            Some((k, q5)) => match fld_close(buf, q5) {
                                None => None,
                                Some(q6) => Some((Message::EventKwArgs(sid, pid, d, a, k), q6)),
                            },
                        },
                    },
                },
            },
        }
    } else if str_eq(name.as_str(), "Publish") {
        match fld_u64(buf, pf, ',') {
            None => None,
            Some((rid, q1)) => match fld_popts(buf, q1, ',') {
                None => None,
                Some((o, q2)) => match fld_str(buf, q2, ']') {
                    None => None,
                    Some((t, q3)) => match fld_close(buf, q3) {
                        None => None,
                        Some(q4) => Some((Message::Publish(rid, o, URI { uri: t }), q4)),
                    },
                },
            },
        }
    } else if str_eq(name.as_str(), "PublishArgs") {
        match fld_u64(buf, pf, ',') {
            None => None,
            Some((rid, q1)) => match fld_popts(buf, q1, ',') {
                None => None,
                Some((o, q2)) => match fld_str(buf, q2, ',') {
                    None => None,
                    Some((t, q3)) => match fld_list(buf, q3, ']') {
                        None => None,
                        Some((a, q4)) => match fld_close(buf, q4) {
                            None => None,
                            Some(q5) => Some(
                                (Message::PublishArgs(rid, o, URI { uri: t }, a), q5),
                            ),
                        },
                    },
                },
            },
        }
    } else if str_eq(name.as_str(), "PublishKwArgs") {
        match fld_u64(buf, pf, ',') {
            None => None,
            Some((rid, q1)) => match fld_popts(buf, q1, ',') {
                None => None,
                Some((o, q2)) => match fld_str(buf, q2, ',') {
                    None => None,
                    Some((t, q3)) => match fld_list(buf, q3, ',') {
                        None => None,
                        Some((a, q4)) => match fld_dict(buf, q4, ']') {
                            None => None,
                            Some((k, q5)) => match fld_close(buf, q5) {
                                None => None,
                                Some(q6) => Some(
                                    (Message::PublishKwArgs(rid, o, URI { uri: t }, a, k), q6),
                                ),
                            },
                        },
                    },
                },
            },
        }
    } else if str_eq(name.as_str(), "Error") {
        match fld_u64(buf, pf, ',') {
            None => None,
            Some((rid, q1)) => match fld_str(buf, q1, ']') {
                None => None,
                Some((u, q2)) => match fld_close(buf, q2) {
                    None => None,
                    Some(q3) => Some((Message::Error(rid, URI { uri: u }), q3)),
                },
            },
        }
    } else {
        None
    }
}


/// Decode one text frame: exactly the canonical rendering of one message,
/// with nothing following it; in particular, for every message `m`, the
/// frame holding `enc_msg_t(m)` decodes to `m`.
pub fn decode_text(buf: &Vec<char>) -> (r: Option<Message>)
    ensures
        forall|m: MessageV| #[trigger] enc_msg_t(m) == buf@ ==> (r matches Some(msg)
            && msg.deep_view() == m),
{
    proof {
        assert forall|m: MessageV| #[trigger] enc_msg_t(m) == buf@ implies suffix_of(buf@, 0)
            == enc_msg_t(m).add(Seq::<char>::empty()) by {
            assert(suffix_of(buf@, 0) =~= enc_msg_t(m).add(Seq::<char>::empty()));
        }
    }
    match read_msg_t(buf, 0) {
        None => None,
        Some((m, p)) => {
            if p == buf.len() {
                Some(m)
            } else {
                None
            }
        },
    }
}

} // verus!
