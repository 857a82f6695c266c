use vstd::prelude::*;
use vstd::utf8::{decode_utf8, encode_utf8, valid_utf8};
use crate::command::{Command, CommandView};
use crate::value::{ResultValue, ResultView, entries_set, unique_keys, IntegerValue, StringValue, Value, ValueMap, ValueView};

verus! {

/// The eight little-endian bytes of `n`.
pub open spec fn enc_u64(n: u64) -> Seq<u8> {
    seq![
        (n & 0xff) as u8,
        ((n >> 8u64) & 0xff) as u8,
        ((n >> 16u64) & 0xff) as u8,
        ((n >> 24u64) & 0xff) as u8,
        ((n >> 32u64) & 0xff) as u8,
        ((n >> 40u64) & 0xff) as u8,
        ((n >> 48u64) & 0xff) as u8,
        ((n >> 56u64) & 0xff) as u8,
    ]
}

/// The number whose little-endian bytes start `b`.
pub open spec fn dec_u64(b: Seq<u8>) -> u64 {
    (b[0] as u64) | ((b[1] as u64) << 8u64) | ((b[2] as u64) << 16u64) | ((b[3] as u64) << 24u64)
        | ((b[4] as u64) << 32u64) | ((b[5] as u64) << 40u64) | ((b[6] as u64) << 48u64) | ((
    b[7] as u64) << 56u64)
}

/// A variant's position in its declaration, as a four-byte little-endian number.
pub open spec fn enc_tag(t: u8) -> Seq<u8> {
    seq![t, 0u8, 0u8, 0u8]
}

/// The variant position that starts `s`, when it is one that fits in a byte.
pub open spec fn dec_tag(s: Seq<u8>) -> Option<u8> {
    if s.len() >= 4 && s[1] == 0 && s[2] == 0 && s[3] == 0 {
        Some(s[0])
    } else {
        None
    }
}

/// A string: its UTF-8 length, then its UTF-8 bytes.
pub open spec fn enc_str(s: Seq<char>) -> Seq<u8> {
    enc_u64(encode_utf8(s).len() as u64) + encode_utf8(s)
}

/// The string that starts `s`, with the number of bytes it takes.
pub open spec fn parse_str(s: Seq<u8>) -> Option<(Seq<char>, nat)> {
    if s.len() < 8 {
        None
    } else {
        let n = dec_u64(s);
        if n > s.len() - 8 {
            None
        } else {
            let b = s.subrange(8, 8 + n);
            if valid_utf8(b) {
                Some((decode_utf8(b), (8 + n) as nat))
            } else {
                None
            }
        }
    }
}

pub open spec fn enc_value(v: ValueView) -> Seq<u8>
    decreases v,
{
    match v {
        ValueView::Str(s) => enc_tag(0) + enc_str(s),
        ValueView::Int(n) => enc_tag(1) + enc_u64(n),
        ValueView::Dict(es) => enc_tag(2) + enc_u64(es.len() as u64) + enc_entries(es),
        ValueView::Absent => enc_tag(3),
    }
}

/// Each entry in order: its key, then its value.
pub open spec fn enc_entries(es: Seq<(Seq<char>, ValueView)>) -> Seq<u8>
    decreases es,
{
    if es.len() == 0 {
        Seq::empty()
    } else {
        enc_str(es[0].0) + enc_value(es[0].1) + enc_entries(es.subrange(1, es.len() as int))
    }
}

/// The value that starts `s`, with the number of bytes it takes.
pub open spec fn parse_value(s: Seq<u8>) -> Option<(ValueView, nat)>
    decreases s.len(), 0nat,
{
    match dec_tag(s) {
        Some(0u8) => match parse_str(s.skip(4)) {
            Some((t, n)) => Some((ValueView::Str(t), n + 4)),
            None => None,
        },
        Some(1u8) => if s.len() >= 12 {
            Some((ValueView::Int(dec_u64(s.skip(4))), 12nat))
        } else {
            None
        },
        Some(2u8) => if s.len() >= 12 {
            match parse_entries(s.skip(12), dec_u64(s.skip(4)) as nat, Seq::empty()) {
                Some((es, n)) => Some((ValueView::Dict(es), n + 12)),
                None => None,
            }
        } else {
            None
        },
        Some(3u8) => Some((ValueView::Absent, 4nat)),
        _ => None,
    }
}

/// `n` entries that start `s`, each set in turn on top of `acc`, with the
/// number of bytes they take.
pub open spec fn parse_entries(s: Seq<u8>, n: nat, acc: Seq<(Seq<char>, ValueView)>) -> Option<
    (Seq<(Seq<char>, ValueView)>, nat),
>
    decreases s.len(), n,
{
    if n == 0 {
        Some((acc, 0nat))
    } else {
        match parse_str(s) {
            Some((k, a)) => match parse_value(s.skip(a as int)) {
                Some((v, b)) => if b <= s.len() - a {
                    match parse_entries(
                        s.skip((a + b) as int),
                        (n - 1) as nat,
                        entries_set(acc, k, v),
                    ) {
                        Some((es, c)) => Some((es, a + b + c)),
                        None => None,
                    }
                } else {
                    None
                },
                None => None,
            },
            None => None,
        }
    }
}

pub proof fn lemma_u64_round_trip(n: u64)
    ensures
        enc_u64(n).len() == 8,
        dec_u64(enc_u64(n)) == n,
{
    let b = enc_u64(n);
    let b0 = (n & 0xff) as u8;
    let b1 = ((n >> 8u64) & 0xff) as u8;
    let b2 = ((n >> 16u64) & 0xff) as u8;
    let b3 = ((n >> 24u64) & 0xff) as u8;
    let b4 = ((n >> 32u64) & 0xff) as u8;
    let b5 = ((n >> 40u64) & 0xff) as u8;
    let b6 = ((n >> 48u64) & 0xff) as u8;
    let b7 = ((n >> 56u64) & 0xff) as u8;
    assert(b[0] == b0 && b[1] == b1 && b[2] == b2 && b[3] == b3);
    assert(b[4] == b4 && b[5] == b5 && b[6] == b6 && b[7] == b7);
    assert((b0 as u64) | ((b1 as u64) << 8u64) | ((b2 as u64) << 16u64) | ((b3 as u64) << 24u64)
        | ((b4 as u64) << 32u64) | ((b5 as u64) << 40u64) | ((b6 as u64) << 48u64) | ((
    b7 as u64) << 56u64) == n) by (bit_vector)
        requires
            b0 == (n & 0xff) as u8,
            b1 == ((n >> 8u64) & 0xff) as u8,
            b2 == ((n >> 16u64) & 0xff) as u8,
            b3 == ((n >> 24u64) & 0xff) as u8,
            b4 == ((n >> 32u64) & 0xff) as u8,
            b5 == ((n >> 40u64) & 0xff) as u8,
            b6 == ((n >> 48u64) & 0xff) as u8,
            b7 == ((n >> 56u64) & 0xff) as u8,
    ;
}

fn put_u64(out: &mut Vec<u8>, n: u64)
    ensures
        final(out)@ == old(out)@ + enc_u64(n),
{
    out.push((n & 0xff) as u8);
    out.push(((n >> 8u64) & 0xff) as u8);
    out.push(((n >> 16u64) & 0xff) as u8);
    out.push(((n >> 24u64) & 0xff) as u8);
    out.push(((n >> 32u64) & 0xff) as u8);
    out.push(((n >> 40u64) & 0xff) as u8);
    out.push(((n >> 48u64) & 0xff) as u8);
    out.push(((n >> 56u64) & 0xff) as u8);
    assert(out@ =~= old(out)@ + enc_u64(n));
}

fn get_u64(buf: &Vec<u8>, pos: usize) -> (r: u64)
    requires
        pos + 8 <= buf@.len(),
    ensures
        r == dec_u64(buf@.skip(pos as int)),
{
    let _len = buf.len();
    let s = Ghost(buf@.skip(pos as int));
    assert(s@[0] == buf@[pos as int] && s@[7] == buf@[pos + 7]);
    assert(s@[1] == buf@[pos + 1] && s@[2] == buf@[pos + 2] && s@[3] == buf@[pos + 3]);
    assert(s@[4] == buf@[pos + 4] && s@[5] == buf@[pos + 5] && s@[6] == buf@[pos + 6]);
    (buf[pos] as u64) | ((buf[pos + 1] as u64) << 8u64) | ((buf[pos + 2] as u64) << 16u64) | ((
    buf[pos + 3] as u64) << 24u64) | ((buf[pos + 4] as u64) << 32u64) | ((buf[pos + 5] as u64)
        << 40u64) | ((buf[pos + 6] as u64) << 48u64) | ((buf[pos + 7] as u64) << 56u64)
}

fn put_tag(out: &mut Vec<u8>, t: u8)
    ensures
        final(out)@ == old(out)@ + enc_tag(t),
{
    out.push(t);
    out.push(0u8);
    out.push(0u8);
    out.push(0u8);
    assert(out@ =~= old(out)@ + enc_tag(t));
}

fn get_tag(buf: &Vec<u8>, pos: usize) -> (r: Option<u8>)
    requires
        pos <= buf@.len(),
    ensures
        r == dec_tag(buf@.skip(pos as int)),
{
    if buf.len() - pos < 4 {
        return None;
    }
    let s = Ghost(buf@.skip(pos as int));
    assert(s@[0] == buf@[pos as int] && s@[1] == buf@[pos + 1] && s@[2] == buf@[pos + 2] && s@[3]
        == buf@[pos + 3]);
    if buf[pos + 1] == 0 && buf[pos + 2] == 0 && buf[pos + 3] == 0 {
        Some(buf[pos])
    } else {
        None
    }
}

fn put_str(out: &mut Vec<u8>, s: &String)
    ensures
        final(out)@ == old(out)@ + enc_str(s@),
        encode_utf8(s@).len() <= u64::MAX,
{
    let b = s.as_str().as_bytes();
    put_u64(out, b.len() as u64);
    let ghost mid = out@;
    let mut i: usize = 0;
    while i < b.len()
        invariant
            i <= b@.len(),
            b@ == encode_utf8(s@),
            out@ == mid + b@.subrange(0, i as int),
        decreases b@.len() - i,
    {
        out.push(b[i]);
        i = i + 1;
        assert(out@ =~= mid + b@.subrange(0, i as int));
    }
    assert(b@.subrange(0, i as int) =~= b@);
    assert(out@ =~= old(out)@ + enc_str(s@));
}

/// Relies on String::from_utf8: it accepts exactly the valid UTF-8 byte
/// sequences, and the string it returns is made of those bytes.
#[verifier::external_body]
fn utf8_string(b: Vec<u8>) -> (r: Option<String>)
    ensures
        r is Some <==> valid_utf8(b@),
        r matches Some(s) ==> encode_utf8(s@) == b@,
{
    String::from_utf8(b).ok()
}

fn read_str(buf: &Vec<u8>, pos: usize) -> (r: Option<(String, usize)>)
    requires
        pos <= buf@.len(),
    ensures
        match parse_str(buf@.skip(pos as int)) {
            Some((t, n)) => r matches Some((x, p)) && x@ == t && p == pos + n,
            None => r is None,
        },
{
    let ghost s = buf@.skip(pos as int);
    if buf.len() - pos < 8 {
        return None;
    }
    let n = get_u64(buf, pos);
    if n > (buf.len() - pos - 8) as u64 {
        return None;
    }
    let n = n as usize;
    let start = pos + 8;
    let mut bytes: Vec<u8> = Vec::new();
    let mut i: usize = 0;
    while i < n
        invariant
            i <= n,
            start + n <= buf@.len(),
            buf@.len() <= usize::MAX,
            bytes@ == buf@.subrange(start as int, start + i),
        decreases n - i,
    {
        bytes.push(buf[start + i]);
        i = i + 1;
        assert(bytes@ =~= buf@.subrange(start as int, start + i));
    }
    assert(bytes@ =~= s.subrange(8, 8 + n));
    let ghost b = bytes@;
    match utf8_string(bytes) {
        Some(x) => {
            proof {
                vstd::utf8::encode_utf8_decode_utf8(x@);
            }
            Some((x, start + n))
        },
        None => None,
    }
}

proof fn lemma_enc_entries_push(a: Seq<(Seq<char>, ValueView)>, x: (Seq<char>, ValueView))
    ensures
        enc_entries(a.push(x)) == enc_entries(a) + enc_str(x.0) + enc_value(x.1),
    decreases a.len(),
{
    if a.len() == 0 {
        assert(a.push(x).subrange(1, 1) =~= Seq::<(Seq<char>, ValueView)>::empty());
        assert(enc_entries(a.push(x).subrange(1, 1)) =~= Seq::<u8>::empty());
        assert(a.push(x)[0] == x);
        assert(enc_entries(a.push(x)) =~= enc_entries(a) + enc_str(x.0) + enc_value(x.1));
    } else {
        let rest = a.subrange(1, a.len() as int);
        lemma_enc_entries_push(rest, x);
        assert(a.push(x).subrange(1, a.len() as int + 1) =~= rest.push(x));
        assert(enc_entries(a.push(x)) =~= enc_entries(a) + enc_str(x.0) + enc_value(x.1));
    }
}

proof fn lemma_wf_entries_push(a: Seq<(Seq<char>, ValueView)>, x: (Seq<char>, ValueView))
    ensures
        wf_entries(a.push(x)) == (wf_entries(a) && encode_utf8(x.0).len() <= u64::MAX && wf_value(
            x.1,
        )),
    decreases a.len(),
{
    if a.len() == 0 {
        assert(a.push(x).subrange(1, 1) =~= Seq::<(Seq<char>, ValueView)>::empty());
        assert(wf_entries(a.push(x).subrange(1, 1)));
        assert(a.push(x)[0] == x);
    } else {
        let rest = a.subrange(1, a.len() as int);
        lemma_wf_entries_push(rest, x);
        assert(a.push(x).subrange(1, a.len() as int + 1) =~= rest.push(x));
        assert(a.push(x)[0] == a[0]);
    }
}

/// Appends the encoding of `v` to `out`; every value the library can hold
/// is one the encoding carries.
pub fn write_value(out: &mut Vec<u8>, v: &Value)
    ensures
        final(out)@ == old(out)@ + enc_value(v@),
        wf_value(v@),
    decreases v@,
{
    match v {
        Value::String(s) => {
            put_tag(out, 0);
            put_str(out, &s.value);
        },
        Value::Integer(n) => {
            put_tag(out, 1);
            put_u64(out, n.value);
        },
        Value::Dict(m) => {
            put_tag(out, 2);
            let n = m.len();
            put_u64(out, n as u64);
            proof {
                let ghost d = ValueView::Dict(m@);
                assert(v@ == d);
                assert(decreases_to!(d => d->Dict_0));
            }
            write_entries(out, m);
        },
        Value::Nil => {
            put_tag(out, 3);
        },
    }
    assert(out@ =~= old(out)@ + enc_value(v@));
}

/// Appends the encoding of each entry of `m`, in stored order.
pub fn write_entries(out: &mut Vec<u8>, m: &ValueMap)
    ensures
        final(out)@ == old(out)@ + enc_entries(m@),
        wf_entries(m@),
        unique_keys(m@),
        m@.len() <= u64::MAX,
    decreases m@,
{
    let ghost start = out@;
    let n = m.len();
    let mut i: usize = 0;
    assert(m@.subrange(0, 0) =~= Seq::<(Seq<char>, ValueView)>::empty());
    while i < n
        invariant
            i <= n,
            n == m@.len(),
            out@ == start + enc_entries(m@.subrange(0, i as int)),
            wf_entries(m@.subrange(0, i as int)),
        decreases n - i,
    {
        let (k, v) = m.entry(i);
        proof {
            assert(decreases_to!(m@ => m@[i as int]));
            assert(decreases_to!(m@[i as int] => m@[i as int].1));
            assert(decreases_to!(m@ => v@));
        }
        put_str(out, k);
        write_value(out, v);
        proof {
            lemma_enc_entries_push(m@.subrange(0, i as int), m@[i as int]);
            lemma_wf_entries_push(m@.subrange(0, i as int), m@[i as int]);
            assert(m@.subrange(0, i + 1) =~= m@.subrange(0, i as int).push(m@[i as int]));
        }
        i = i + 1;
        assert(out@ =~= start + enc_entries(m@.subrange(0, i as int)));
    }
    assert(m@.subrange(0, i as int) =~= m@);
}

/// The entries and length of a parse, with `d` more bytes counted.
pub open spec fn shifted(o: Option<(Seq<(Seq<char>, ValueView)>, nat)>, d: int) -> Option<
    (Seq<(Seq<char>, ValueView)>, nat),
> {
    match o {
        Some((es, c)) => Some((es, (c + d) as nat)),
        None => None,
    }
}

/// Decodes the value that starts at `pos`; gives it with the position just
/// past it.
#[verifier::rlimit(40)]
pub fn read_value(buf: &Vec<u8>, pos: usize) -> (r: Option<(Value, usize)>)
    requires
        pos <= buf@.len(),
    ensures
        match parse_value(buf@.skip(pos as int)) {
            Some((t, n)) => r matches Some((x, p)) && x@ == t && p == pos + n,
            None => r is None,
        },
        r matches Some((x, p)) ==> pos < p <= buf@.len(),
    decreases buf@.len() - pos,
{
    let ghost s = buf@.skip(pos as int);
    let len = buf.len();
    let tag = get_tag(buf, pos);
    match tag {
        Some(0u8) => {
            proof {
                assert(s.skip(4) =~= buf@.skip(pos + 4));
            }
            match read_str(buf, pos + 4) {
                Some((x, p)) => Some((Value::String(StringValue { value: x }), p)),
                None => None,
            }
        },
        Some(1u8) => {
            if len - pos < 12 {
                return None;
            }
            proof {
                assert(s.skip(4) =~= buf@.skip(pos + 4));
            }
            let n = get_u64(buf, pos + 4);
            Some((Value::Integer(IntegerValue { value: n }), pos + 12))
        },
        Some(2u8) => {
            if len - pos < 12 {
                return None;
            }
            proof {
                assert(s.skip(4) =~= buf@.skip(pos + 4));
                assert(s.skip(12) =~= buf@.skip(pos + 12));
            }
            let count = get_u64(buf, pos + 4);
            match read_entries(buf, pos + 12, count) {
                Some((m, p)) => Some((Value::Dict(m), p)),
                None => None,
            }
        },
        Some(3u8) => Some((Value::Nil, pos + 4)),
        _ => None,
    }
}

/// A value that the encoding can carry: every length fits in 64 bits, and no
/// map repeats a key.
pub open spec fn wf_value(v: ValueView) -> bool
    decreases v,
{
    match v {
        ValueView::Str(s) => encode_utf8(s).len() <= u64::MAX,
        ValueView::Int(_) => true,
        ValueView::Dict(es) => es.len() <= u64::MAX && unique_keys(es) && wf_entries(es),
        ValueView::Absent => true,
    }
}

pub open spec fn wf_entries(es: Seq<(Seq<char>, ValueView)>) -> bool
    decreases es,
{
    es.len() == 0 || (encode_utf8(es[0].0).len() <= u64::MAX && wf_value(es[0].1) && wf_entries(
        es.subrange(1, es.len() as int),
    ))
}

proof fn lemma_dec_u64_prefix(a: Seq<u8>, b: Seq<u8>)
    requires
        a.len() >= 8,
        b.len() >= 8,
        forall|i: int| 0 <= i < 8 ==> a[i] == b[i],
    ensures
        dec_u64(a) == dec_u64(b),
{
    assert(a[0] == b[0] && a[1] == b[1] && a[2] == b[2] && a[3] == b[3]);
    assert(a[4] == b[4] && a[5] == b[5] && a[6] == b[6] && a[7] == b[7]);
}

proof fn lemma_str_round_trip(s: Seq<char>, rest: Seq<u8>)
    requires
        encode_utf8(s).len() <= u64::MAX,
    ensures
        enc_str(s).len() == 8 + encode_utf8(s).len(),
        parse_str(enc_str(s) + rest) == Some((s, enc_str(s).len())),
{
    let b = encode_utf8(s);
    let n = b.len() as u64;
    let x = enc_str(s) + rest;
    lemma_u64_round_trip(n);
    lemma_dec_u64_prefix(x, enc_u64(n));
    assert(x.subrange(8, 8 + n) =~= b);
    vstd::utf8::encode_utf8_valid_utf8(s);
    vstd::utf8::encode_utf8_decode_utf8(s);
}

proof fn lemma_value_round_trip_rest(v: ValueView, rest: Seq<u8>)
    requires
        wf_value(v),
    ensures
        parse_value(enc_value(v) + rest) == Some((v, enc_value(v).len())),
    decreases v,
{
    let x = enc_value(v) + rest;
    assert(x[0] == enc_value(v)[0] && x[1] == enc_value(v)[1] && x[2] == enc_value(v)[2] && x[3]
        == enc_value(v)[3]);
    match v {
        ValueView::Str(s) => {
            lemma_str_round_trip(s, rest);
            assert(x.skip(4) =~= enc_str(s) + rest);
        },
        ValueView::Int(n) => {
            lemma_u64_round_trip(n);
            lemma_dec_u64_prefix(x.skip(4), enc_u64(n));
        },
        ValueView::Dict(es) => {
            let n = es.len() as u64;
            lemma_u64_round_trip(n);
            lemma_dec_u64_prefix(x.skip(4), enc_u64(n));
            assert(x.skip(12) =~= enc_entries(es) + rest);
            assert(Seq::<(Seq<char>, ValueView)>::empty() + es =~= es);
            lemma_entries_round_trip(es, Seq::empty(), rest);
        },
        ValueView::Absent => {},
    }
}

#[verifier::rlimit(60)]
proof fn lemma_entries_round_trip(
    es: Seq<(Seq<char>, ValueView)>,
    acc: Seq<(Seq<char>, ValueView)>,
    rest: Seq<u8>,
)
    requires
        wf_entries(es),
        unique_keys(acc + es),
    ensures
        parse_entries(enc_entries(es) + rest, es.len(), acc) == Some((acc + es, enc_entries(es).len())),
    decreases es,
{
    if es.len() == 0 {
        assert(acc + es =~= acc);
    } else {
        let k = es[0].0;
        let v = es[0].1;
        let tail = es.subrange(1, es.len() as int);
        let x = enc_entries(es) + rest;
        let a = enc_str(k).len();
        let b = enc_value(v).len();
        assert(decreases_to!(es => es[0]));
        lemma_str_round_trip(k, enc_value(v) + enc_entries(tail) + rest);
        assert(x =~= enc_str(k) + (enc_value(v) + enc_entries(tail) + rest));
        assert(x.skip(a as int) =~= enc_value(v) + (enc_entries(tail) + rest));
        lemma_value_round_trip_rest(v, enc_entries(tail) + rest);
        assert(x.skip((a + b) as int) =~= enc_entries(tail) + rest);
        lemma_fresh_key(acc, es);
        assert(acc.push((k, v)) + tail =~= acc + es);
        assert(parse_str(x) == Some((k, a)));
        assert(parse_value(x.skip(a as int)) == Some((v, b)));
        lemma_entries_round_trip(tail, acc.push((k, v)), rest);
        assert(enc_entries(es).len() == a + b + enc_entries(tail).len());
    }
}

proof fn lemma_fresh_key(acc: Seq<(Seq<char>, ValueView)>, es: Seq<(Seq<char>, ValueView)>)
    requires
        es.len() > 0,
        unique_keys(acc + es),
    ensures
        entries_set(acc, es[0].0, es[0].1) == acc.push(es[0]),
{
    let k = es[0].0;
    crate::value::lemma_find_key_range(acc, k);
    if crate::value::find_key(acc, k) >= 0 {
        let j = crate::value::find_key(acc, k);
        assert((acc + es)[j] == acc[j]);
        assert((acc + es)[acc.len() as int] == es[0]);
    }
}

/// Decoding the encoding of a well-formed value gives back that value, and
/// takes all of its bytes.
pub proof fn lemma_value_round_trip(v: ValueView)
    requires
        wf_value(v),
    ensures
        parse_value(enc_value(v)) == Some((v, enc_value(v).len())),
{
    lemma_value_round_trip_rest(v, Seq::empty());
    assert(enc_value(v) + Seq::<u8>::empty() =~= enc_value(v));
}

/// Decodes `count` entries that start at `start` into a map, each set in
/// turn; gives the map with the position just past them.
pub fn read_entries(buf: &Vec<u8>, start: usize, count: u64) -> (r: Option<(ValueMap, usize)>)
    requires
        start <= buf@.len(),
    ensures
        match parse_entries(buf@.skip(start as int), count as nat, Seq::empty()) {
            Some((es, n)) => r matches Some((m, p)) && m@ == es && p == start + n,
            None => r is None,
        },
        r matches Some((m, p)) ==> start <= p <= buf@.len(),
    decreases buf@.len() - start,
{
    let len = buf.len();
    let mut map = ValueMap::new();
    let mut p = start;
    let mut i: u64 = 0;
    while i < count
        invariant
            start <= p <= buf@.len(),
            buf@.len() == len,
            i <= count,
            parse_entries(buf@.skip(start as int), count as nat, Seq::empty()) == shifted(
                parse_entries(buf@.skip(p as int), (count - i) as nat, map@),
                p - start,
            ),
        decreases count - i,
    {
        let ghost t = buf@.skip(p as int);
        let ghost acc = map@;
        let (k, a) = match read_str(buf, p) {
            Some(x) => x,
            None => {
                proof {
                    assert(parse_entries(t, (count - i) as nat, acc) is None);
                }
                return None;
            },
        };
        proof {
            assert(t.skip(a - p) =~= buf@.skip(a as int));
        }
        let (v, b) = match read_value(buf, a) {
            Some(x) => x,
            None => {
                proof {
                    assert(parse_entries(t, (count - i) as nat, acc) is None);
                }
                return None;
            },
        };
        proof {
            assert(t.skip((a - p) + (b - a)) =~= buf@.skip(b as int));
        }
        map.insert(k, v);
        p = b;
        i = i + 1;
    }
    Some((map, p))
}

/// The encoding of a whole map: its number of entries, then the entries.
pub open spec fn enc_map(es: Seq<(Seq<char>, ValueView)>) -> Seq<u8> {
    enc_u64(es.len() as u64) + enc_entries(es)
}

pub open spec fn parse_map(s: Seq<u8>) -> Option<(Seq<(Seq<char>, ValueView)>, nat)> {
    if s.len() >= 8 {
        shifted(parse_entries(s.skip(8), dec_u64(s) as nat, Seq::empty()), 8)
    } else {
        None
    }
}

pub open spec fn enc_result(r: ResultView) -> Seq<u8> {
    match r {
        ResultView::OkValue(v) => enc_tag(0) + enc_value(v),
        ResultView::Done => enc_tag(1),
        ResultView::Absent => enc_tag(2),
    }
}

pub open spec fn parse_result(s: Seq<u8>) -> Option<(ResultView, nat)> {
    match dec_tag(s) {
        Some(0u8) => match parse_value(s.skip(4)) {
            Some((v, n)) => Some((ResultView::OkValue(v), n + 4)),
            None => None,
        },
        Some(1u8) => Some((ResultView::Done, 4nat)),
        Some(2u8) => Some((ResultView::Absent, 4nat)),
        _ => None,
    }
}

pub open spec fn enc_command(c: CommandView) -> Seq<u8> {
    match c {
        CommandView::Get(k) => enc_tag(0) + enc_str(k),
        CommandView::Put(k, v) => enc_tag(1) + enc_str(k) + enc_value(v),
        CommandView::Del(k) => enc_tag(2) + enc_str(k),
        CommandView::MapGet(m, k) => enc_tag(3) + enc_str(m) + enc_str(k),
        CommandView::MapSet(m, k, v) => enc_tag(4) + enc_str(m) + enc_str(k) + enc_value(v),
        CommandView::MapDel(m, k) => enc_tag(5) + enc_str(m) + enc_str(k),
        CommandView::GetAll => enc_tag(6),
        CommandView::NoOp => enc_tag(7),
    }
}

/// A string, then whatever `tail` reads after it.
pub open spec fn parse_str_then<T>(s: Seq<u8>, tail: spec_fn(Seq<char>, Seq<u8>) -> Option<(T, nat)>) -> Option<(T, nat)> {
    match parse_str(s) {
        Some((k, a)) => match tail(k, s.skip(a as int)) {
            Some((t, b)) => Some((t, a + b)),
            None => None,
        },
        None => None,
    }
}

pub open spec fn parse_command(s: Seq<u8>) -> Option<(CommandView, nat)> {
    let body = s.skip(4);
    let r = match dec_tag(s) {
        Some(0u8) => parse_str_then(body, |k: Seq<char>, _t: Seq<u8>| Some((CommandView::Get(k), 0nat))),
        Some(1u8) => parse_str_then(body, |k: Seq<char>, t: Seq<u8>|
            match parse_value(t) {
                Some((v, n)) => Some((CommandView::Put(k, v), n)),
                None => None,
            }),
        Some(2u8) => parse_str_then(body, |k: Seq<char>, _t: Seq<u8>| Some((CommandView::Del(k), 0nat))),
        Some(3u8) => parse_str_then(body, |m: Seq<char>, t: Seq<u8>|
            parse_str_then(t, |k: Seq<char>, _u: Seq<u8>| Some((CommandView::MapGet(m, k), 0nat)))),
        Some(4u8) => parse_str_then(body, |m: Seq<char>, t: Seq<u8>|
            parse_str_then(t, |k: Seq<char>, u: Seq<u8>|
                match parse_value(u) {
                    Some((v, n)) => Some((CommandView::MapSet(m, k, v), n)),
                    None => None,
                })),
        Some(5u8) => parse_str_then(body, |m: Seq<char>, t: Seq<u8>|
            parse_str_then(t, |k: Seq<char>, _u: Seq<u8>| Some((CommandView::MapDel(m, k), 0nat)))),
        Some(6u8) => Some((CommandView::GetAll, 0nat)),
        Some(7u8) => Some((CommandView::NoOp, 0nat)),
        _ => None,
    };
    match r {
        Some((c, n)) => Some((c, n + 4)),
        None => None,
    }
}

/// What `parse` gives when it reads the whole of `s`.
pub open spec fn whole<T>(s: Seq<u8>, parsed: Option<(T, nat)>) -> Option<T> {
    match parsed {
        Some((t, n)) => if n == s.len() {
            Some(t)
        } else {
            None
        },
        None => None,
    }
}

/// The bytes of `v`.
pub fn encode_value(v: &Value) -> (r: Vec<u8>)
    ensures
        r@ == enc_value(v@),
        wf_value(v@),
{
    let mut out: Vec<u8> = Vec::new();
    write_value(&mut out, v);
    assert(out@ =~= enc_value(v@));
    out
}

/// The value that `b` holds, when `b` holds exactly one.
pub fn decode_value(b: &Vec<u8>) -> (r: Option<Value>)
    ensures
        r matches Some(x) ==> whole(b@, parse_value(b@)) == Some(x@),
        r is None ==> whole(b@, parse_value(b@)) is None,
{
    assert(b@.skip(0) =~= b@);
    match read_value(b, 0) {
        Some((x, p)) => if p == b.len() {
            Some(x)
        } else {
            None
        },
        None => None,
    }
}

/// The bytes of a map: its entries in stored order.
pub fn encode_map(m: &ValueMap) -> (r: Vec<u8>)
    ensures
        r@ == enc_map(m@),
        m@.len() <= u64::MAX && unique_keys(m@) && wf_entries(m@),
{
    let mut out: Vec<u8> = Vec::new();
    put_u64(&mut out, m.len() as u64);
    write_entries(&mut out, m);
    assert(out@ =~= enc_map(m@));
    out
}

/// The map that `b` holds, when `b` holds exactly one.
pub fn decode_map(b: &Vec<u8>) -> (r: Option<ValueMap>)
    ensures
        r matches Some(x) ==> whole(b@, parse_map(b@)) == Some(x@),
        r is None ==> whole(b@, parse_map(b@)) is None,
{
    if b.len() < 8 {
        return None;
    }
    let count = get_u64(b, 0);
    assert(b@.skip(0) =~= b@);
    match read_entries(b, 8, count) {
        Some((m, p)) => if p == b.len() {
            Some(m)
        } else {
            None
        },
        None => None,
    }
}

/// The bytes of a reply.
pub fn encode_result(r: &ResultValue) -> (out: Vec<u8>)
    ensures
        out@ == enc_result(r@),
        r@ matches ResultView::OkValue(v) ==> wf_value(v),
{
    let mut out: Vec<u8> = Vec::new();
    match r {
        ResultValue::OkValue(v) => {
            put_tag(&mut out, 0);
            write_value(&mut out, v);
        },
        ResultValue::Done => put_tag(&mut out, 1),
        ResultValue::Nil => put_tag(&mut out, 2),
    }
    assert(out@ =~= enc_result(r@));
    out
}

/// The reply that `b` holds, when `b` holds exactly one.
pub fn decode_result(b: &Vec<u8>) -> (r: Option<ResultValue>)
    ensures
        r matches Some(x) ==> whole(b@, parse_result(b@)) == Some(x@),
        r is None ==> whole(b@, parse_result(b@)) is None,
{
    assert(b@.skip(0) =~= b@);
    let (x, p) = match get_tag(b, 0) {
        Some(0u8) => {
            assert(b@.skip(0).skip(4) =~= b@.skip(4));
            match read_value(b, 4) {
                Some((v, p)) => (ResultValue::OkValue(v), p),
                None => {
                    return None;
                },
            }
        },
        Some(1u8) => (ResultValue::Done, 4),
        Some(2u8) => (ResultValue::Nil, 4),
        _ => {
            return None;
        },
    };
    if p == b.len() {
        Some(x)
    } else {
        None
    }
}

/// The bytes of a command.
pub fn encode_command(c: &Command) -> (r: Vec<u8>)
    ensures
        r@ == enc_command(c@),
        wf_command(c@),
{
    let mut out: Vec<u8> = Vec::new();
    match c {
        Command::Get(k) => {
            put_tag(&mut out, 0);
            put_str(&mut out, k);
        },
        Command::Put(k, v) => {
            put_tag(&mut out, 1);
            put_str(&mut out, k);
            write_value(&mut out, v);
        },
        Command::Del(k) => {
            put_tag(&mut out, 2);
            put_str(&mut out, k);
        },
        Command::MapGet(m, k) => {
            put_tag(&mut out, 3);
            put_str(&mut out, m);
            put_str(&mut out, k);
        },
        Command::MapSet(m, k, v) => {
            put_tag(&mut out, 4);
            put_str(&mut out, m);
            put_str(&mut out, k);
            write_value(&mut out, v);
        },
        Command::MapDel(m, k) => {
            put_tag(&mut out, 5);
            put_str(&mut out, m);
            put_str(&mut out, k);
        },
        Command::GetAll => put_tag(&mut out, 6),
        Command::NoOp => put_tag(&mut out, 7),
    }
    assert(out@ =~= enc_command(c@));
    out
}

/// The command that `b` holds, when `b` holds exactly one.
#[verifier::rlimit(80)]
pub fn decode_command(b: &Vec<u8>) -> (r: Option<Command>)
    ensures
        r matches Some(x) ==> whole(b@, parse_command(b@)) == Some(x@),
        r is None ==> whole(b@, parse_command(b@)) is None,
{
    let ghost s = b@;
    assert(b@.skip(0) =~= b@);
    let tag = match get_tag(b, 0) {
        Some(t) => t,
        None => {
            return None;
        },
    };
    let ghost body = s.skip(4);
    if tag >= 6 {
        if tag > 7 {
            return None;
        }
        if b.len() != 4 {
            return None;
        }
        return if tag == 6 {
            Some(Command::GetAll)
        } else {
            Some(Command::NoOp)
        };
    }
    let (first, p) = match read_str(b, 4) {
        Some(x) => x,
        None => {
            assert(body =~= b@.skip(4));
            return None;
        },
    };
    proof {
        assert(body =~= b@.skip(4));
        assert(body.skip(p - 4) =~= b@.skip(p as int));
    }
    let (c, q) = if tag == 0 {
        (Command::Get(first), p)
    } else if tag == 2 {
        (Command::Del(first), p)
    } else if tag == 1 {
        match read_value(b, p) {
            Some((v, q)) => (Command::Put(first, v), q),
            None => {
                return None;
            },
        }
    } else {
        let (second, q) = match read_str(b, p) {
            Some(x) => x,
            None => {
                return None;
            },
        };
        proof {
            assert(b@.skip(p as int).skip(q - p) =~= b@.skip(q as int));
        }
        if tag == 3 {
            (Command::MapGet(first, second), q)
        } else if tag == 5 {
            (Command::MapDel(first, second), q)
        } else {
            match read_value(b, q) {
                Some((v, r)) => (Command::MapSet(first, second, v), r),
                None => {
                    return None;
                },
            }
        }
    };
    if q == b.len() {
        Some(c)
    } else {
        None
    }
}

/// Decoding the encoding of a reply whose value is well formed gives back
/// that reply.
pub proof fn lemma_result_round_trip(r: ResultView)
    requires
        r matches ResultView::OkValue(v) ==> wf_value(v),
    ensures
        parse_result(enc_result(r)) == Some((r, enc_result(r).len())),
{
    let x = enc_result(r);
    assert(x[0] == enc_result(r)[0] && x[1] == 0 && x[2] == 0 && x[3] == 0);
    if let ResultView::OkValue(v) = r {
        assert(x.skip(4) =~= enc_value(v));
        lemma_value_round_trip(v);
    }
}

/// Decoding the encoding of a map with distinct keys and well-formed
/// entries gives back its entries in the same order.
pub proof fn lemma_map_round_trip(es: Seq<(Seq<char>, ValueView)>)
    requires
        es.len() <= u64::MAX,
        unique_keys(es),
        wf_entries(es),
    ensures
        parse_map(enc_map(es)) == Some((es, enc_map(es).len())),
{
    let x = enc_map(es);
    let n = es.len() as u64;
    lemma_u64_round_trip(n);
    lemma_dec_u64_prefix(x, enc_u64(n));
    assert(x.skip(8) =~= enc_entries(es) + Seq::<u8>::empty());
    assert(Seq::<(Seq<char>, ValueView)>::empty() + es =~= es);
    lemma_entries_round_trip(es, Seq::empty(), Seq::empty());
}

/// The string's UTF-8 form has a length that fits in 64 bits.
pub open spec fn short(s: Seq<char>) -> bool {
    encode_utf8(s).len() <= u64::MAX
}

/// A command that the encoding can carry.
pub open spec fn wf_command(c: CommandView) -> bool {
    match c {
        CommandView::Get(k) => short(k),
        CommandView::Put(k, v) => short(k) && wf_value(v),
        CommandView::Del(k) => short(k),
        CommandView::MapGet(m, k) => short(m) && short(k),
        CommandView::MapSet(m, k, v) => short(m) && short(k) && wf_value(v),
        CommandView::MapDel(m, k) => short(m) && short(k),
        CommandView::GetAll => true,
        CommandView::NoOp => true,
    }
}

proof fn lemma_tag_of(c: CommandView, t: u8)
    requires
        enc_command(c).subrange(0, 4) == enc_tag(t),
    ensures
        dec_tag(enc_command(c)) == Some(t),
{
    assert(enc_command(c)[0] == enc_tag(t)[0]);
    assert(enc_command(c)[1] == enc_tag(t)[1]);
    assert(enc_command(c)[2] == enc_tag(t)[2]);
    assert(enc_command(c)[3] == enc_tag(t)[3]);
}

#[verifier::rlimit(60)]
proof fn lemma_key_command_round_trip(c: CommandView)
    requires
        wf_command(c),
        c is Get || c is Del,
    ensures
        parse_command(enc_command(c)) == Some((c, enc_command(c).len())),
{
    let x = enc_command(c);
    let k = if let CommandView::Get(k) = c { k } else { c->Del_0 };
    let t: u8 = if c is Get { 0 } else { 2 };
    assert(x =~= enc_tag(t) + enc_str(k));
    assert(x.subrange(0, 4) =~= enc_tag(t));
    lemma_tag_of(c, t);
    lemma_str_round_trip(k, Seq::empty());
    assert(x.skip(4) =~= enc_str(k) + Seq::<u8>::empty());
}

#[verifier::rlimit(60)]
proof fn lemma_put_command_round_trip(c: CommandView)
    requires
        wf_command(c),
        c is Put,
    ensures
        parse_command(enc_command(c)) == Some((c, enc_command(c).len())),
{
    let x = enc_command(c);
    let k = c->Put_0;
    let v = c->Put_1;
    assert(x =~= enc_tag(1) + enc_str(k) + enc_value(v));
    assert(x.subrange(0, 4) =~= enc_tag(1));
    lemma_tag_of(c, 1);
    let body = x.skip(4);
    lemma_str_round_trip(k, enc_value(v));
    assert(body =~= enc_str(k) + enc_value(v));
    assert(body.skip(enc_str(k).len() as int) =~= enc_value(v));
    lemma_value_round_trip(v);
}

proof fn lemma_pair_body(m: Seq<char>, k: Seq<char>)
    requires
        short(m),
        short(k),
    ensures
        ({
            let body = enc_str(m) + enc_str(k);
            &&& parse_str(body) == Some((m, enc_str(m).len()))
            &&& parse_str(body.skip(enc_str(m).len() as int)) == Some((k, enc_str(k).len()))
        }),
{
    let body = enc_str(m) + enc_str(k);
    lemma_str_round_trip(m, enc_str(k));
    assert(body.skip(enc_str(m).len() as int) =~= enc_str(k) + Seq::<u8>::empty());
    lemma_str_round_trip(k, Seq::empty());
}

#[verifier::rlimit(40)]
proof fn lemma_pair_command_round_trip(c: CommandView)
    requires
        wf_command(c),
        c is MapGet || c is MapDel,
    ensures
        parse_command(enc_command(c)) == Some((c, enc_command(c).len())),
{
    let x = enc_command(c);
    let (m, k) = if let CommandView::MapGet(m, k) = c { (m, k) } else { (c->MapDel_0, c->MapDel_1) };
    let t: u8 = if c is MapGet { 3 } else { 5 };
    assert(x =~= enc_tag(t) + enc_str(m) + enc_str(k));
    assert(x.subrange(0, 4) =~= enc_tag(t));
    lemma_tag_of(c, t);
    assert(x.skip(4) =~= enc_str(m) + enc_str(k));
    lemma_pair_body(m, k);
}

proof fn lemma_map_set_body(m: Seq<char>, k: Seq<char>, v: ValueView)
    requires
        short(m),
        short(k),
        wf_value(v),
    ensures
        ({
            let body = enc_str(m) + enc_str(k) + enc_value(v);
            let rest = body.skip(enc_str(m).len() as int);
            &&& parse_str(body) == Some((m, enc_str(m).len()))
            &&& parse_str(rest) == Some((k, enc_str(k).len()))
            &&& parse_value(rest.skip(enc_str(k).len() as int)) == Some((v, enc_value(v).len()))
        }),
{
    let body = enc_str(m) + enc_str(k) + enc_value(v);
    lemma_str_round_trip(m, enc_str(k) + enc_value(v));
    assert(body =~= enc_str(m) + (enc_str(k) + enc_value(v)));
    let rest = body.skip(enc_str(m).len() as int);
    assert(rest =~= enc_str(k) + enc_value(v));
    lemma_str_round_trip(k, enc_value(v));
    assert(rest.skip(enc_str(k).len() as int) =~= enc_value(v));
    lemma_value_round_trip(v);
}

#[verifier::rlimit(40)]
proof fn lemma_map_set_command_round_trip(c: CommandView)
    requires
        wf_command(c),
        c is MapSet,
    ensures
        parse_command(enc_command(c)) == Some((c, enc_command(c).len())),
{
    let x = enc_command(c);
    let m = c->MapSet_0;
    let k = c->MapSet_1;
    let v = c->MapSet_2;
    assert(x =~= enc_tag(4) + enc_str(m) + enc_str(k) + enc_value(v));
    assert(x.subrange(0, 4) =~= enc_tag(4));
    lemma_tag_of(c, 4);
    assert(x.skip(4) =~= enc_str(m) + enc_str(k) + enc_value(v));
    lemma_map_set_body(m, k, v);
}

/// Decoding the encoding of a well-formed command gives back that command,
/// and takes all of its bytes.
pub proof fn lemma_command_round_trip(c: CommandView)
    requires
        wf_command(c),
    ensures
        parse_command(enc_command(c)) == Some((c, enc_command(c).len())),
{
    match c {
        CommandView::Get(_) | CommandView::Del(_) => lemma_key_command_round_trip(c),
        CommandView::Put(_, _) => lemma_put_command_round_trip(c),
        CommandView::MapGet(_, _) | CommandView::MapDel(_, _) => lemma_pair_command_round_trip(c),
        CommandView::MapSet(_, _, _) => lemma_map_set_command_round_trip(c),
        CommandView::GetAll | CommandView::NoOp => {
            let t: u8 = if c is GetAll { 6 } else { 7 };
            assert(enc_command(c).subrange(0, 4) =~= enc_tag(t));
            lemma_tag_of(c, t);
        },
    }
}

} // verus!
