//! What holds across the encoder and the decoder.
use vstd::prelude::*;
use vstd::utf8::*;
use crate::cid::cid_valid;
use crate::dict::{lemma_bytes_lt_order, lemma_map_insert_sorted, lemma_map_insert_twice};
use crate::endian::{be_bytes, lemma_be_bytes_len, lemma_be_round_trip, lemma_be_value_bound, pow256};
use crate::error::CodecError;
use crate::float::{frac64, lemma_widen_narrow, narrow, non_finite64, sign64};
use crate::value::Node;
use crate::wire::{
    bytes_lt, dec, dec_dict, dec_list, dec_text, dict_encodable, enc, enc_dict, enc_list, enc_text, encodable, head,
    head_arg, key_lt, list_encodable, map_insert, sorted, width,
};

verus! {

proof fn lemma_pow256_values()
    ensures
        pow256(1) == 0x100,
        pow256(2) == 0x1_0000,
        pow256(4) == 0x1_0000_0000,
        pow256(8) == 0x1_0000_0000_0000_0000,
{
    reveal_with_fuel(pow256, 9);
}

/// The canonical head is read back as the argument it was written for, whatever
/// follows it.
pub proof fn lemma_head_round_trip(major: u8, n: nat, rest: Seq<u8>)
    requires
        major < 8,
        n < 0x1_0000_0000_0000_0000,
    ensures
        (head(major, n) + rest)[0] / 32 == major,
        (head(major, n) + rest)[0] % 32 == (if n <= 23 { n } else if n < 0x100 { 24 } else if n < 0x1_0000 { 25 } else if n < 0x1_0000_0000 { 26 } else { 27 }),
        head_arg(head(major, n) + rest) == Some((n, head(major, n).len())),
{
    lemma_pow256_values();
    let b = head(major, n) + rest;
    let k: nat = if n <= 23 { 0 } else if n < 0x100 { 1 } else if n < 0x1_0000 { 2 } else if n < 0x1_0000_0000 { 4 } else { 8 };
    lemma_be_bytes_len(n, k);
    if k > 0 {
        lemma_be_round_trip(n, k);
        assert(b.subrange(1, 1 + k as int) =~= be_bytes(n, k));
    }
}

/// Canonical minimality: no head that reads as `n` is shorter than the one the
/// encoder writes for `n`.
pub proof fn lemma_head_minimal(major: u8, b: Seq<u8>, n: nat, h: nat)
    requires
        major < 8,
        b.len() > 0,
        b[0] / 32 == major,
        b[0] % 32 <= 27,
        head_arg(b) == Some((n, h)),
    ensures
        n < 0x1_0000_0000_0000_0000,
        head(major, n).len() <= h,
{
    lemma_pow256_values();
    let info = (b[0] % 32) as nat;
    if info >= 24 {
        lemma_be_value_bound(b.subrange(1, 1 + width(info) as int));
    }
    lemma_be_bytes_len(n, 1);
    lemma_be_bytes_len(n, 2);
    lemma_be_bytes_len(n, 4);
    lemma_be_bytes_len(n, 8);
}

/// Binding a key twice keeps only the later value.
pub proof fn law_duplicate_key(m: Seq<(Seq<char>, Node)>, k: Seq<char>, v1: Node, v2: Node)
    ensures
        map_insert(map_insert(m, k, v1), k, v2) == map_insert(m, k, v2),
{
    lemma_map_insert_twice(m, k, v1, v2);
}

proof fn lemma_dec_dict_sorted(b: Seq<u8>, n: nat, acc: Seq<(Seq<char>, Node)>)
    requires
        sorted(acc),
        dec_dict(b, n, acc) is Ok,
    ensures
        sorted(dec_dict(b, n, acc)->Ok_0.0),
    decreases b.len(), n,
{
    if n > 0 {
        let (key, k1) = dec_text(b)->Ok_0;
        let (v, k2) = dec(b.subrange(k1 as int, b.len() as int))->Ok_0;
        lemma_map_insert_sorted(acc, key, v);
        lemma_dec_dict_sorted(b.subrange((k1 + k2) as int, b.len() as int), (n - 1) as nat, map_insert(acc, key, v));
    }
}

/// Every decoded map has its keys in increasing order, whatever the order on
/// the wire.
pub proof fn law_decoded_map_sorted(b: Seq<u8>)
    requires
        dec(b) is Ok,
        dec(b)->Ok_0.0 is Dict,
    ensures
        sorted(dec(b)->Ok_0.0->Dict_0),
{
    let (n, h) = head_arg(b)->Some_0;
    lemma_dec_dict_sorted(b.subrange(h as int, b.len() as int), n, Seq::empty());
}

/// A leading byte with a reserved additional information (28 to 31) under major
/// types 0 to 5 is rejected.
pub proof fn law_reserved_code(b: Seq<u8>)
    requires
        b.len() > 0,
        b[0] / 32 <= 5,
        b[0] % 32 >= 28,
    ensures
        dec(b) == Err::<(Node, nat), CodecError>(CodecError::UnexpectedCode),
{
}

/// A text or byte string whose content is cut short is an I/O error.
pub proof fn law_truncated_string(major: u8, n: nat, content: Seq<u8>)
    requires
        major == 2 || major == 3,
        n < 0x1_0000_0000_0000_0000,
        n <= usize::MAX,
        content.len() < n,
    ensures
        dec(head(major, n) + content) == Err::<(Node, nat), CodecError>(CodecError::Io),
{
    lemma_head_round_trip(major, n, content);
    let b = head(major, n) + content;
    assert(b.subrange(head(major, n).len() as int, b.len() as int) =~= content);
}

/// An infinite or NaN float is written in the half-precision form, which the
/// decoder does not take.
pub proof fn law_non_finite_float(x: u64)
    requires
        non_finite64(x),
    ensures
        enc(Node::Float(x))[0] == 0xf9,
        enc(Node::Float(x)).len() == 3,
        enc(Node::Float(x))[1] == (if frac64(x) != 0 { 0x7eu8 } else if sign64(x) == 1 { 0xfcu8 } else { 0x7cu8 }),
        dec(enc(Node::Float(x))) == Err::<(Node, nat), CodecError>(CodecError::UnexpectedCode),
{
}

/// A link whose identifier is 23 to 254 bytes long is read back as written.
pub proof fn law_link_round_trip(c: Seq<u8>, rest: Seq<u8>)
    requires
        cid_valid(c),
        23 <= c.len() <= 254,
    ensures
        dec(enc(Node::Link(c)) + rest) == Ok::<(Node, nat), CodecError>((Node::Link(c), enc(Node::Link(c)).len())),
{
    reveal_with_fuel(be_bytes, 2);
    let n = (c.len() + 1) as nat;
    assert(head(2, n) =~= seq![0x58u8, n as u8]);
    let b = enc(Node::Link(c)) + rest;
    assert(b.drop_first().subrange(4, 3 + n as int) =~= c);
}

/// A link whose identifier is at most 22 bytes long is written with an inline
/// length, which the decoder refuses.
pub proof fn law_short_link_refused(c: Seq<u8>, rest: Seq<u8>)
    requires
        c.len() <= 22,
    ensures
        dec(enc(Node::Link(c)) + rest) == Err::<(Node, nat), CodecError>(CodecError::UnknownTag),
{
    let n = (c.len() + 1) as nat;
    assert(head(2, n) =~= seq![(64 + n) as u8]);
}

proof fn lemma_bytes_lt_trans(a: Seq<u8>, b: Seq<u8>, c: Seq<u8>)
    requires
        bytes_lt(a, b),
        bytes_lt(b, c),
    ensures
        bytes_lt(a, c),
    decreases a.len(),
{
    if a.len() > 0 && b.len() > 0 && c.len() > 0 && a[0] == b[0] && b[0] == c[0] {
        lemma_bytes_lt_trans(a.drop_first(), b.drop_first(), c.drop_first());
    }
}

proof fn lemma_sorted_below_last(m: Seq<(Seq<char>, Node)>, j: int)
    requires
        sorted(m),
        0 <= j < m.len() - 1,
    ensures
        key_lt(m[j].0, m.last().0),
    decreases m.len() - j,
{
    if j < m.len() - 2 {
        lemma_sorted_below_last(m, j + 1);
        lemma_bytes_lt_trans(encode_utf8(m[j].0), encode_utf8(m[j + 1].0), encode_utf8(m.last().0));
    }
}

proof fn lemma_insert_after_last(m: Seq<(Seq<char>, Node)>, k: Seq<char>, v: Node)
    requires
        forall|j: int| 0 <= j < m.len() ==> key_lt(#[trigger] m[j].0, k),
    ensures
        map_insert(m, k, v) == m.push((k, v)),
    decreases m.len(),
{
    if m.len() > 0 {
        lemma_bytes_lt_order(encode_utf8(m[0].0), encode_utf8(k));
        assert(key_lt(m[0].0, k));
        assert forall|j: int| 0 <= j < m.drop_first().len() implies key_lt(#[trigger] m.drop_first()[j].0, k) by {
            assert(m.drop_first()[j] == m[j + 1]);
        }
        lemma_insert_after_last(m.drop_first(), k, v);
        assert(map_insert(m, k, v) =~= m.push((k, v)));
    }
}

/// A value that the decoder gives back exactly as the encoder wrote it: integers
/// in `[-2^64, 2^64 - 1]`, finite floats, lengths that fit in `usize`, maps with
/// keys in increasing order, and links to valid identifiers of 23 to 254 bytes.
pub open spec fn representable(v: Node) -> bool
    decreases v,
{
    match v {
        Node::Integer(i) => -0x1_0000_0000_0000_0000 <= i < 0x1_0000_0000_0000_0000,
        Node::Float(x) => !non_finite64(x),
        Node::Bytes(b) => b.len() <= usize::MAX,
        Node::Text(s) => encode_utf8(s).len() <= usize::MAX,
        Node::List(vs) => vs.len() <= usize::MAX && list_representable(vs),
        Node::Dict(es) => es.len() <= usize::MAX && sorted(es) && dict_representable(es),
        Node::Link(c) => cid_valid(c) && 23 <= c.len() <= 254,
        _ => true,
    }
}

pub open spec fn list_representable(vs: Seq<Node>) -> bool
    decreases vs,
{
    if vs.len() == 0 {
        true
    } else {
        representable(vs[0]) && list_representable(vs.drop_first())
    }
}

pub open spec fn dict_representable(es: Seq<(Seq<char>, Node)>) -> bool
    decreases es,
{
    if es.len() == 0 {
        true
    } else {
        encode_utf8(es[0].0).len() <= usize::MAX && representable(es[0].1) && dict_representable(es.drop_first())
    }
}

proof fn lemma_enc_list_front(vs: Seq<Node>)
    requires
        vs.len() > 0,
    ensures
        enc_list(vs) == enc(vs[0]) + enc_list(vs.drop_first()),
    decreases vs.len(),
{
    if vs.len() > 1 {
        lemma_enc_list_front(vs.drop_last());
        assert(vs.drop_last().drop_first() =~= vs.drop_first().drop_last());
        assert(vs.drop_first().last() == vs.last());
        assert(vs.drop_last()[0] == vs[0]);
        assert(enc_list(vs) =~= enc(vs[0]) + enc_list(vs.drop_first()));
    } else {
        assert(vs.drop_first().len() == 0);
        assert(vs.drop_last().len() == 0);
        assert(enc_list(vs.drop_last()) == Seq::<u8>::empty());
        assert(enc_list(vs.drop_first()) == Seq::<u8>::empty());
        assert(vs.last() == vs[0]);
        assert(enc_list(vs) =~= enc(vs[0]) + enc_list(vs.drop_first()));
    }
}

proof fn lemma_enc_dict_front(es: Seq<(Seq<char>, Node)>)
    requires
        es.len() > 0,
    ensures
        enc_dict(es) == enc_text(es[0].0) + enc(es[0].1) + enc_dict(es.drop_first()),
    decreases es.len(),
{
    if es.len() > 1 {
        lemma_enc_dict_front(es.drop_last());
        assert(es.drop_last().drop_first() =~= es.drop_first().drop_last());
        assert(es.drop_first().last() == es.last());
        assert(es.drop_last()[0] == es[0]);
        assert(enc_dict(es) =~= enc_text(es[0].0) + enc(es[0].1) + enc_dict(es.drop_first()));
    } else {
        assert(es.drop_first().len() == 0);
        assert(es.drop_last().len() == 0);
        assert(enc_dict(es.drop_last()) == Seq::<u8>::empty());
        assert(enc_dict(es.drop_first()) == Seq::<u8>::empty());
        assert(es.last() == es[0]);
        assert(enc_dict(es) =~= enc_text(es[0].0) + enc(es[0].1) + enc_dict(es.drop_first()));
    }
}

proof fn lemma_text_round_trip(s: Seq<char>, rest: Seq<u8>)
    requires
        encode_utf8(s).len() <= usize::MAX,
    ensures
        dec_text(enc_text(s) + rest) == Ok::<(Seq<char>, nat), CodecError>((s, enc_text(s).len())),
{
    let u = encode_utf8(s);
    lemma_head_round_trip(3, u.len(), u + rest);
    let b = enc_text(s) + rest;
    assert(b =~= head(3, u.len()) + (u + rest));
    let h = head(3, u.len()).len();
    assert(b.subrange(h as int, (h + u.len()) as int) =~= u);
    encode_utf8_valid_utf8(s);
    encode_utf8_decode_utf8(s);
}

proof fn lemma_list_round_trip(vs: Seq<Node>, rest: Seq<u8>)
    requires
        list_representable(vs),
    ensures
        dec_list(enc_list(vs) + rest, vs.len()) == Ok::<(Seq<Node>, nat), CodecError>((vs, enc_list(vs).len())),
    decreases vs, 0nat,
{
    if vs.len() == 0 {
        assert(vs =~= Seq::<Node>::empty());
    } else {
        lemma_enc_list_front(vs);
        let tail = vs.drop_first();
        let b = enc_list(vs) + rest;
        let t = enc_list(tail) + rest;
        assert(b =~= enc(vs[0]) + t);
        lemma_round_trip(vs[0], t);
        lemma_list_round_trip(tail, rest);
        let k = enc(vs[0]).len();
        assert(b.subrange(k as int, b.len() as int) =~= t);
        assert(seq![vs[0]] + tail =~= vs);
    }
}

#[verifier::spinoff_prover]
#[verifier::rlimit(100)]
proof fn lemma_dict_round_trip(acc: Seq<(Seq<char>, Node)>, es: Seq<(Seq<char>, Node)>, rest: Seq<u8>)
    requires
        dict_representable(es),
        sorted(acc + es),
    ensures
        dec_dict(enc_dict(es) + rest, es.len(), acc) == Ok::<(Seq<(Seq<char>, Node)>, nat), CodecError>((acc + es, enc_dict(es).len())),
    decreases es, 0nat,
{
    if es.len() == 0 {
        assert(acc + es =~= acc);
    } else {
        lemma_enc_dict_front(es);
        let tail = es.drop_first();
        let b = enc_dict(es) + rest;
        let t = enc_dict(tail) + rest;
        let kt = enc_text(es[0].0);
        let kv = enc(es[0].1);
        assert(b =~= kt + (kv + t));
        lemma_text_round_trip(es[0].0, kv + t);
        assert(b.subrange(kt.len() as int, b.len() as int) =~= kv + t);
        lemma_round_trip(es[0].1, t);
        assert(b.subrange((kt.len() + kv.len()) as int, b.len() as int) =~= t);
        let all = acc + es;
        assert forall|j: int| 0 <= j < acc.len() implies key_lt(#[trigger] acc[j].0, es[0].0) by {
            let pre = all.take(acc.len() + 1 as int);
            assert(sorted(pre)) by {
                assert forall|i: int| 0 <= i < pre.len() - 1 implies key_lt(#[trigger] pre[i].0, pre[i + 1].0) by {
                    assert(pre[i] == all[i]);
                    assert(pre[i + 1] == all[i + 1]);
                }
            }
            assert(pre[j] == acc[j]);
            assert(pre.last() == es[0]);
            lemma_sorted_below_last(pre, j);
        }
        lemma_insert_after_last(acc, es[0].0, es[0].1);
        let acc2 = acc.push(es[0]);
        assert(acc2 + tail =~= all);
        assert(kt.len() > 0);
        lemma_dict_round_trip(acc2, tail, rest);
    }
}

/// Round trip: a representable value is read back as written, and reading takes
/// exactly the bytes written, whatever follows them.
proof fn lemma_float_round_trip(x: u64, rest: Seq<u8>)
    requires
        !non_finite64(x),
    ensures
        dec(enc(Node::Float(x)) + rest) == Ok::<(Node, nat), CodecError>((Node::Float(x), enc(Node::Float(x)).len())),
{
    let b = enc(Node::Float(x)) + rest;
    lemma_pow256_values();
    match narrow(x) {
        Some(n) => {
            lemma_widen_narrow(x);
            lemma_be_bytes_len(n as nat, 4);
            lemma_be_round_trip(n as nat, 4);
            assert(b.subrange(1, 5) =~= be_bytes(n as nat, 4));
        },
        None => {
            lemma_be_bytes_len(x as nat, 8);
            lemma_be_round_trip(x as nat, 8);
            assert(b.subrange(1, 9) =~= be_bytes(x as nat, 8));
        },
    }
}

proof fn lemma_bytes_round_trip(c: Seq<u8>, rest: Seq<u8>)
    requires
        c.len() <= usize::MAX,
    ensures
        dec(enc(Node::Bytes(c)) + rest) == Ok::<(Node, nat), CodecError>((Node::Bytes(c), enc(Node::Bytes(c)).len())),
{
    let b = enc(Node::Bytes(c)) + rest;
    lemma_head_round_trip(2, c.len(), c + rest);
    assert(b =~= head(2, c.len()) + (c + rest));
    let h = head(2, c.len()).len();
    assert(b.subrange(h as int, b.len() as int).take(c.len() as int) =~= c);
}

proof fn lemma_int_round_trip(i: int, rest: Seq<u8>)
    requires
        -0x1_0000_0000_0000_0000 <= i < 0x1_0000_0000_0000_0000,
    ensures
        dec(enc(Node::Integer(i)) + rest) == Ok::<(Node, nat), CodecError>((Node::Integer(i), enc(Node::Integer(i)).len())),
{
    if i >= 0 {
        lemma_head_round_trip(0, i as nat, rest);
    } else {
        lemma_head_round_trip(1, (-1 - i) as nat, rest);
    }
}

proof fn lemma_dec_list_head(b: Seq<u8>, n: nat, h: nat)
    requires
        b.len() > 0,
        b[0] / 32 == 4,
        b[0] % 32 <= 27,
        head_arg(b) == Some((n, h)),
        n <= usize::MAX,
    ensures
        dec(b) == match dec_list(b.subrange(h as int, b.len() as int), n) {
            Ok((vs, k)) => Ok::<(Node, nat), CodecError>((Node::List(vs), h + k)),
            Err(e) => Err(e),
        },
{
}

#[verifier::spinoff_prover]
proof fn lemma_dec_dict_head(b: Seq<u8>, n: nat, h: nat)
    requires
        b.len() > 0,
        b[0] / 32 == 5,
        b[0] % 32 <= 27,
        head_arg(b) == Some((n, h)),
        n <= usize::MAX,
    ensures
        dec(b) == match dec_dict(b.subrange(h as int, b.len() as int), n, Seq::empty()) {
            Ok((es, k)) => Ok::<(Node, nat), CodecError>((Node::Dict(es), h + k)),
            Err(e) => Err(e),
        },
{
}

proof fn lemma_list_value_round_trip(vs: Seq<Node>, rest: Seq<u8>)
    requires
        vs.len() <= usize::MAX,
        list_representable(vs),
    ensures
        dec(enc(Node::List(vs)) + rest) == Ok::<(Node, nat), CodecError>((Node::List(vs), enc(Node::List(vs)).len())),
    decreases vs, 1nat,
{
    let b = enc(Node::List(vs)) + rest;
    lemma_head_round_trip(4, vs.len(), enc_list(vs) + rest);
    assert(b =~= head(4, vs.len()) + (enc_list(vs) + rest));
    let h = head(4, vs.len()).len();
    assert(b.subrange(h as int, b.len() as int) =~= enc_list(vs) + rest);
    lemma_dec_list_head(b, vs.len(), h);
    lemma_list_round_trip(vs, rest);
}

#[verifier::spinoff_prover]
#[verifier::rlimit(100)]
proof fn lemma_dict_value_round_trip(es: Seq<(Seq<char>, Node)>, rest: Seq<u8>)
    requires
        es.len() <= usize::MAX,
        sorted(es),
        dict_representable(es),
    ensures
        dec(enc(Node::Dict(es)) + rest) == Ok::<(Node, nat), CodecError>((Node::Dict(es), enc(Node::Dict(es)).len())),
    decreases es, 2nat,
{
    let b = enc(Node::Dict(es)) + rest;
    lemma_head_round_trip(5, es.len(), enc_dict(es) + rest);
    assert(b =~= head(5, es.len()) + (enc_dict(es) + rest));
    let h = head(5, es.len()).len();
    assert(b.subrange(h as int, b.len() as int) =~= enc_dict(es) + rest);
    lemma_dec_dict_head(b, es.len(), h);
    lemma_dict_entries_round_trip(es, rest);
}

proof fn lemma_dict_entries_round_trip(es: Seq<(Seq<char>, Node)>, rest: Seq<u8>)
    requires
        sorted(es),
        dict_representable(es),
    ensures
        dec_dict(enc_dict(es) + rest, es.len(), Seq::empty()) == Ok::<(Seq<(Seq<char>, Node)>, nat), CodecError>((es, enc_dict(es).len())),
    decreases es, 1nat,
{
    assert(Seq::<(Seq<char>, Node)>::empty() + es =~= es);
    lemma_dict_round_trip(Seq::empty(), es, rest);
}

/// Round trip: a representable value is read back as written, and reading takes
/// exactly the bytes written, whatever follows them.
pub proof fn lemma_round_trip(v: Node, rest: Seq<u8>)
    requires
        representable(v),
    ensures
        dec(enc(v) + rest) == Ok::<(Node, nat), CodecError>((v, enc(v).len())),
    decreases v, 3nat,
{
    match v {
        Node::Integer(i) => lemma_int_round_trip(i, rest),
        Node::Float(x) => lemma_float_round_trip(x, rest),
        Node::Bytes(c) => lemma_bytes_round_trip(c, rest),
        Node::Text(s) => lemma_text_round_trip(s, rest),
        Node::List(vs) => lemma_list_value_round_trip(vs, rest),
        Node::Dict(es) => lemma_dict_value_round_trip(es, rest),
        Node::Link(c) => law_link_round_trip(c, rest),
        _ => {},
    }
}

proof fn lemma_list_encodable_front(vs: Seq<Node>)
    requires
        vs.len() > 0,
    ensures
        list_encodable(vs) == (encodable(vs[0]) && list_encodable(vs.drop_first())),
    decreases vs.len(),
{
    if vs.len() > 1 {
        lemma_list_encodable_front(vs.drop_last());
        assert(vs.drop_last().drop_first() =~= vs.drop_first().drop_last());
        assert(vs.drop_first().last() == vs.last());
        assert(vs.drop_last()[0] == vs[0]);
        assert(list_encodable(vs) == (list_encodable(vs.drop_last()) && encodable(vs.last())));
        assert(list_encodable(vs.drop_first()) == (list_encodable(vs.drop_first().drop_last()) && encodable(vs.last())));
    } else {
        assert(vs.drop_last().len() == 0);
        assert(vs.drop_first().len() == 0);
        assert(vs.last() == vs[0]);
        assert(list_encodable(vs.drop_last()));
        assert(list_encodable(vs.drop_first()));
        assert(list_encodable(vs) == (list_encodable(vs.drop_last()) && encodable(vs.last())));
    }
}

proof fn lemma_dict_encodable_front(es: Seq<(Seq<char>, Node)>)
    requires
        es.len() > 0,
    ensures
        dict_encodable(es) == (encodable(es[0].1) && dict_encodable(es.drop_first())),
    decreases es.len(),
{
    if es.len() > 1 {
        lemma_dict_encodable_front(es.drop_last());
        assert(es.drop_last().drop_first() =~= es.drop_first().drop_last());
        assert(es.drop_first().last() == es.last());
        assert(es.drop_last()[0] == es[0]);
        assert(dict_encodable(es) == (dict_encodable(es.drop_last()) && encodable(es.last().1)));
        assert(dict_encodable(es.drop_first()) == (dict_encodable(es.drop_first().drop_last()) && encodable(es.last().1)));
    } else {
        assert(es.drop_last().len() == 0);
        assert(es.drop_first().len() == 0);
        assert(es.last() == es[0]);
        assert(dict_encodable(es.drop_last()));
        assert(dict_encodable(es.drop_first()));
        assert(dict_encodable(es) == (dict_encodable(es.drop_last()) && encodable(es.last().1)));
    }
}

proof fn lemma_list_representable_encodable(vs: Seq<Node>)
    requires
        list_representable(vs),
    ensures
        list_encodable(vs),
    decreases vs, 0nat,
{
    if vs.len() > 0 {
        lemma_representable_encodable(vs[0]);
        lemma_list_representable_encodable(vs.drop_first());
        lemma_list_encodable_front(vs);
    }
}

proof fn lemma_dict_representable_encodable(es: Seq<(Seq<char>, Node)>)
    requires
        dict_representable(es),
    ensures
        dict_encodable(es),
    decreases es, 0nat,
{
    if es.len() > 0 {
        lemma_representable_encodable(es[0].1);
        lemma_dict_representable_encodable(es.drop_first());
        lemma_dict_encodable_front(es);
    }
}

proof fn lemma_representable_encodable(v: Node)
    requires
        representable(v),
    ensures
        encodable(v),
    decreases v, 1nat,
{
    match v {
        Node::List(vs) => lemma_list_representable_encodable(vs),
        Node::Dict(es) => lemma_dict_representable_encodable(es),
        _ => {},
    }
}

/// Round trip: a representable value encodes, and decoding its encoding gives
/// the value back.
pub proof fn law_encode_decode(v: Node)
    requires
        representable(v),
    ensures
        encodable(v),
        dec(enc(v)) == Ok::<(Node, nat), CodecError>((v, enc(v).len())),
{
    lemma_representable_encodable(v);
    lemma_round_trip(v, Seq::empty());
    assert(enc(v) + Seq::<u8>::empty() =~= enc(v));
}

/// Canonical re-encoding: an integer read from any valid head, minimal or not,
/// is written back in a form no longer than the one it was read from, and that
/// form reads back as the same integer.
pub proof fn law_integer_canonical(b: Seq<u8>)
    requires
        dec(b) is Ok,
        dec(b)->Ok_0.0 is Integer,
    ensures
        enc(dec(b)->Ok_0.0).len() <= dec(b)->Ok_0.1,
        dec(enc(dec(b)->Ok_0.0)) == Ok::<(Node, nat), CodecError>((dec(b)->Ok_0.0, enc(dec(b)->Ok_0.0).len())),
{
    let major = (b[0] / 32) as u8;
    let (n, h) = head_arg(b)->Some_0;
    lemma_head_minimal(major, b, n, h);
    let v = dec(b)->Ok_0.0;
    law_encode_decode(v);
}

} // verus!
