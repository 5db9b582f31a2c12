//! The wire format as mathematics: what each value encodes to, and what a byte
//! sequence decodes to.
use vstd::prelude::*;
use vstd::utf8::*;
use crate::cid::cid_valid;
use crate::endian::{be_bytes, be_value};
use crate::error::CodecError;
use crate::float::{frac64, narrow, non_finite64, sign64, widen};
use crate::value::Node;

verus! {

/// The canonical head of an item: the major type in the high three bits, and the
/// argument `n` inline when it is at most 23, else in the smallest of 1, 2, 4 or 8
/// following bytes that holds it.
pub open spec fn head(major: u8, n: nat) -> Seq<u8> {
    let m = (major as nat) * 32;
    if n <= 23 {
        seq![(m + n) as u8]
    } else if n < 0x100 {
        seq![(m + 24) as u8] + be_bytes(n, 1)
    } else if n < 0x1_0000 {
        seq![(m + 25) as u8] + be_bytes(n, 2)
    } else if n < 0x1_0000_0000 {
        seq![(m + 26) as u8] + be_bytes(n, 4)
    } else {
        seq![(m + 27) as u8] + be_bytes(n, 8)
    }
}

/// Lexicographic order on byte strings.
pub open spec fn bytes_lt(a: Seq<u8>, b: Seq<u8>) -> bool
    decreases a.len(),
{
    if a.len() == 0 {
        b.len() > 0
    } else if b.len() == 0 {
        false
    } else if a[0] != b[0] {
        a[0] < b[0]
    } else {
        bytes_lt(a.drop_first(), b.drop_first())
    }
}

/// Map keys are ordered by their UTF-8 bytes.
pub open spec fn key_lt(a: Seq<char>, b: Seq<char>) -> bool {
    bytes_lt(encode_utf8(a), encode_utf8(b))
}

/// Each key is smaller than the next.
pub open spec fn sorted(m: Seq<(Seq<char>, Node)>) -> bool {
    forall|i: int| 0 <= i < m.len() - 1 ==> key_lt(#[trigger] m[i].0, m[i + 1].0)
}

/// `m` with `k` bound to `v`: an entry with key `k` is replaced, else one is added
/// before the first greater key.
pub open spec fn map_insert<V>(m: Seq<(Seq<char>, V)>, k: Seq<char>, v: V) -> Seq<(Seq<char>, V)>
    decreases m.len(),
{
    if m.len() == 0 {
        seq![(k, v)]
    } else if m[0].0 == k {
        m.update(0, (k, v))
    } else if key_lt(k, m[0].0) {
        seq![(k, v)] + m
    } else {
        seq![m[0]] + map_insert(m.drop_first(), k, v)
    }
}

pub open spec fn enc_float(x: u64) -> Seq<u8> {
    if non_finite64(x) {
        if frac64(x) != 0 {
            seq![0xf9u8, 0x7e, 0x00]
        } else if sign64(x) == 1 {
            seq![0xf9u8, 0xfc, 0x00]
        } else {
            seq![0xf9u8, 0x7c, 0x00]
        }
    } else {
        match narrow(x) {
            Some(n) => seq![0xfau8] + be_bytes(n as nat, 4),
            None => seq![0xfbu8] + be_bytes(x as nat, 8),
        }
    }
}

pub open spec fn enc_text(s: Seq<char>) -> Seq<u8> {
    head(3, encode_utf8(s).len()) + encode_utf8(s)
}

/// The encoding of a value.
pub open spec fn enc(v: Node) -> Seq<u8>
    decreases v,
{
    match v {
        Node::Null => seq![0xf6u8],
        Node::Bool(b) => if b {
            seq![0xf5u8]
        } else {
            seq![0xf4u8]
        },
        Node::Integer(i) => if i >= 0 {
            head(0, i as nat)
        } else {
            head(1, (-1 - i) as nat)
        },
        Node::Float(x) => enc_float(x),
        Node::Bytes(b) => head(2, b.len()) + b,
        Node::Text(s) => enc_text(s),
        Node::List(vs) => head(4, vs.len()) + enc_list(vs),
        Node::Dict(es) => head(5, es.len()) + enc_dict(es),
        Node::Link(c) => seq![0xd8u8, 42u8] + head(2, c.len() + 1) + seq![0u8] + c,
    }
}

pub open spec fn enc_list(vs: Seq<Node>) -> Seq<u8>
    decreases vs,
{
    if vs.len() == 0 {
        Seq::empty()
    } else {
        enc_list(vs.drop_last()) + enc(vs.last())
    }
}

pub open spec fn enc_dict(es: Seq<(Seq<char>, Node)>) -> Seq<u8>
    decreases es,
{
    if es.len() == 0 {
        Seq::empty()
    } else {
        enc_dict(es.drop_last()) + enc_text(es.last().0) + enc(es.last().1)
    }
}

/// Every integer in the value lies in `[-2^64, 2^64 - 1]`, and every link's
/// length plus one fits in 64 bits.
pub open spec fn encodable(v: Node) -> bool
    decreases v,
{
    match v {
        Node::Integer(i) => -0x1_0000_0000_0000_0000 <= i < 0x1_0000_0000_0000_0000,
        Node::List(vs) => list_encodable(vs),
        Node::Dict(es) => dict_encodable(es),
        Node::Link(c) => c.len() < 0xffff_ffff_ffff_ffff,
        _ => true,
    }
}

pub open spec fn list_encodable(vs: Seq<Node>) -> bool
    decreases vs,
{
    if vs.len() == 0 {
        true
    } else {
        list_encodable(vs.drop_last()) && encodable(vs.last())
    }
}

pub open spec fn dict_encodable(es: Seq<(Seq<char>, Node)>) -> bool
    decreases es,
{
    if es.len() == 0 {
        true
    } else {
        dict_encodable(es.drop_last()) && encodable(es.last().1)
    }
}

pub proof fn lemma_list_encodable(vs: Seq<Node>, i: int)
    requires
        list_encodable(vs),
        0 <= i < vs.len(),
    ensures
        encodable(vs[i]),
    decreases vs.len(),
{
    if i < vs.len() - 1 {
        lemma_list_encodable(vs.drop_last(), i);
    }
}

pub proof fn lemma_dict_encodable(es: Seq<(Seq<char>, Node)>, i: int)
    requires
        dict_encodable(es),
        0 <= i < es.len(),
    ensures
        encodable(es[i].1),
    decreases es.len(),
{
    if i < es.len() - 1 {
        lemma_dict_encodable(es.drop_last(), i);
    }
}

/// Every map in the value has its keys in increasing order.
pub open spec fn maps_sorted(v: Node) -> bool
    decreases v,
{
    match v {
        Node::List(vs) => list_maps_sorted(vs),
        Node::Dict(es) => sorted(es) && dict_maps_sorted(es),
        _ => true,
    }
}

pub open spec fn list_maps_sorted(vs: Seq<Node>) -> bool
    decreases vs,
{
    if vs.len() == 0 {
        true
    } else {
        list_maps_sorted(vs.drop_last()) && maps_sorted(vs.last())
    }
}

pub open spec fn dict_maps_sorted(es: Seq<(Seq<char>, Node)>) -> bool
    decreases es,
{
    if es.len() == 0 {
        true
    } else {
        dict_maps_sorted(es.drop_last()) && maps_sorted(es.last().1)
    }
}

pub proof fn lemma_list_maps_sorted(vs: Seq<Node>, i: int)
    requires
        list_maps_sorted(vs),
        0 <= i < vs.len(),
    ensures
        maps_sorted(vs[i]),
    decreases vs.len(),
{
    if i < vs.len() - 1 {
        lemma_list_maps_sorted(vs.drop_last(), i);
    }
}

pub proof fn lemma_dict_maps_sorted(es: Seq<(Seq<char>, Node)>, i: int)
    requires
        dict_maps_sorted(es),
        0 <= i < es.len(),
    ensures
        maps_sorted(es[i].1),
    decreases es.len(),
{
    if i < es.len() - 1 {
        lemma_dict_maps_sorted(es.drop_last(), i);
    }
}

pub open spec fn width(info: nat) -> nat {
    if info == 24 {
        1
    } else if info == 25 {
        2
    } else if info == 26 {
        4
    } else {
        8
    }
}

/// The argument of the head that `b` starts with (additional information at most
/// 27), and the head's length; `None` where the input ends inside the head.
pub open spec fn head_arg(b: Seq<u8>) -> Option<(nat, nat)> {
    let info = (b[0] % 32) as nat;
    if info < 24 {
        Some((info, 1))
    } else if b.len() >= 1 + width(info) {
        Some((be_value(b.subrange(1, 1 + width(info) as int)), 1 + width(info)))
    } else {
        None
    }
}

/// A text string at the front of `b`, and how many bytes it takes.
pub open spec fn dec_text(b: Seq<u8>) -> Result<(Seq<char>, nat), CodecError> {
    if b.len() == 0 {
        Err(CodecError::Io)
    } else if b[0] < 0x60 || b[0] > 0x7b {
        Err(CodecError::UnexpectedCode)
    } else {
        match head_arg(b) {
            None => Err(CodecError::Io),
            Some((n, h)) => if n > usize::MAX {
                Err(CodecError::LengthOutOfRange)
            } else if b.len() < h + n {
                Err(CodecError::Io)
            } else if !valid_utf8(b.subrange(h as int, (h + n) as int)) {
                Err(CodecError::Utf8)
            } else {
                Ok((decode_utf8(b.subrange(h as int, (h + n) as int)), h + n))
            },
        }
    }
}

/// A link at the front of `b`, which follows the byte 0xd8.
pub open spec fn dec_link(b: Seq<u8>) -> Result<(Seq<u8>, nat), CodecError> {
    if b.len() < 1 {
        Err(CodecError::Io)
    } else if b[0] != 42 {
        Err(CodecError::UnknownTag)
    } else if b.len() < 2 {
        Err(CodecError::Io)
    } else if b[1] != 0x58 {
        Err(CodecError::UnknownTag)
    } else if b.len() < 3 {
        Err(CodecError::Io)
    } else if b[2] == 0 {
        Err(CodecError::LengthOutOfRange)
    } else if b.len() < 3 + b[2] {
        Err(CodecError::Io)
    } else if b[3] != 0 {
        Err(CodecError::InvalidCidPrefix(b[3]))
    } else if !cid_valid(b.subrange(4, 3 + b[2] as int)) {
        Err(CodecError::InvalidCid)
    } else {
        Ok((b.subrange(4, 3 + b[2] as int), 3 + b[2] as nat))
    }
}

/// The value at the front of `b`, and how many bytes it takes.
pub open spec fn dec(b: Seq<u8>) -> Result<(Node, nat), CodecError>
    decreases b.len(), 0nat,
{
    if b.len() == 0 {
        Err(CodecError::Io)
    } else {
        let lead = b[0];
        let major = lead / 32;
        let info = lead % 32;
        if major <= 5 && info >= 28 {
            Err(CodecError::UnexpectedCode)
        } else if major == 3 {
            match dec_text(b) {
                Ok((s, k)) => Ok((Node::Text(s), k)),
                Err(e) => Err(e),
            }
        } else if major <= 5 {
            match head_arg(b) {
                None => Err(CodecError::Io),
                Some((n, h)) => {
                    let rest = b.subrange(h as int, b.len() as int);
                    if major == 0 {
                        Ok((Node::Integer(n as int), h))
                    } else if major == 1 {
                        Ok((Node::Integer(-1 - n), h))
                    } else if n > usize::MAX {
                        Err(CodecError::LengthOutOfRange)
                    } else if major == 2 {
                        if rest.len() < n {
                            Err(CodecError::Io)
                        } else {
                            Ok((Node::Bytes(rest.take(n as int)), h + n))
                        }
                    } else if major == 4 {
                        match dec_list(rest, n) {
                            Ok((vs, k)) => Ok((Node::List(vs), h + k)),
                            Err(e) => Err(e),
                        }
                    } else {
                        match dec_dict(rest, n, Seq::empty()) {
                            Ok((es, k)) => Ok((Node::Dict(es), h + k)),
                            Err(e) => Err(e),
                        }
                    }
                },
            }
        } else if lead == 0xd8 {
            match dec_link(b.drop_first()) {
                Ok((c, k)) => Ok((Node::Link(c), k + 1)),
                Err(e) => Err(e),
            }
        } else if major == 6 {
            Err(CodecError::UnknownTag)
        } else if lead == 0xf4 {
            Ok((Node::Bool(false), 1))
        } else if lead == 0xf5 {
            Ok((Node::Bool(true), 1))
        } else if lead == 0xf6 || lead == 0xf7 {
            Ok((Node::Null, 1))
        } else if lead == 0xfa {
            if b.len() < 5 {
                Err(CodecError::Io)
            } else {
                Ok((Node::Float(widen(be_value(b.subrange(1, 5)) as u32)), 5))
            }
        } else if lead == 0xfb {
            if b.len() < 9 {
                Err(CodecError::Io)
            } else {
                Ok((Node::Float(be_value(b.subrange(1, 9)) as u64), 9))
            }
        } else {
            Err(CodecError::UnexpectedCode)
        }
    }
}

/// `n` values one after the other at the front of `b`.
pub open spec fn dec_list(b: Seq<u8>, n: nat) -> Result<(Seq<Node>, nat), CodecError>
    decreases b.len(), n,
{
    if n == 0 {
        Ok((Seq::empty(), 0))
    } else {
        match dec(b) {
            Err(e) => Err(e),
            Ok((v, k)) => if k > b.len() {
                Err(CodecError::Io)
            } else {
                match dec_list(b.subrange(k as int, b.len() as int), (n - 1) as nat) {
                    Err(e) => Err(e),
                    Ok((vs, k2)) => Ok((seq![v] + vs, k + k2)),
                }
            },
        }
    }
}

/// `n` key-value pairs at the front of `b`, bound in turn into `acc`.
pub open spec fn dec_dict(b: Seq<u8>, n: nat, acc: Seq<(Seq<char>, Node)>) -> Result<(Seq<(Seq<char>, Node)>, nat), CodecError>
    decreases b.len(), n,
{
    if n == 0 {
        Ok((acc, 0))
    } else {
        match dec_text(b) {
            Err(e) => Err(e),
            Ok((key, k1)) => if k1 > b.len() || k1 == 0 {
                Err(CodecError::Io)
            } else {
                match dec(b.subrange(k1 as int, b.len() as int)) {
                    Err(e) => Err(e),
                    Ok((v, k2)) => if k1 + k2 > b.len() {
                        Err(CodecError::Io)
                    } else {
                        match dec_dict(b.subrange((k1 + k2) as int, b.len() as int), (n - 1) as nat, map_insert(acc, key, v)) {
                            Err(e) => Err(e),
                            Ok((es, k3)) => Ok((es, k1 + k2 + k3)),
                        }
                    },
                }
            },
        }
    }
}

} // verus!
