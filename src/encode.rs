//! Writing values as bytes, always in the shortest form.
use vstd::prelude::*;
use vstd::utf8::*;
use crate::endian::{be_bytes, be_write_u16, be_write_u32, be_write_u64, lemma_be_bytes_len};
use crate::error::CodecError;
use crate::float::{lemma_widen_narrow, narrow_f64};
use crate::value::{entries, lemma_dict_node, lemma_list_node, nodes, Ipld, Node};
use crate::wire::{
    dict_encodable, enc, enc_dict, enc_float, enc_list, enc_text, encodable, head, lemma_dict_encodable,
    lemma_dict_maps_sorted, lemma_list_encodable, lemma_list_maps_sorted, list_encodable, list_maps_sorted,
    maps_sorted, dict_maps_sorted,
};

verus! {

broadcast use vstd::std_specs::vec::group_vec_axioms;

/// Writes null.
pub fn write_null(w: &mut Vec<u8>)
    ensures
        final(w)@ == old(w)@ + seq![0xf6u8],
{
    w.push(0xf6);
    assert(w@ =~= old(w)@ + seq![0xf6u8]);
}

/// Writes a head of major type `major` with argument `value`.
pub fn write_u8(w: &mut Vec<u8>, major: u8, value: u8)
    requires
        major < 8,
    ensures
        final(w)@ == old(w)@ + head(major, value as nat),
{
    if value <= 0x17 {
        w.push(major * 32 + value);
        assert(w@ =~= old(w)@ + head(major, value as nat));
    } else {
        w.push(major * 32 + 24);
        w.push(value);
        proof {
            reveal_with_fuel(be_bytes, 2);
            assert(be_bytes(value as nat, 1) =~= seq![value]);
        }
        assert(w@ =~= old(w)@ + head(major, value as nat));
    }
}

/// Writes a head of major type `major` with argument `value`.
pub fn write_u16(w: &mut Vec<u8>, major: u8, value: u16)
    requires
        major < 8,
    ensures
        final(w)@ == old(w)@ + head(major, value as nat),
{
    if value <= 0xff {
        write_u8(w, major, value as u8);
    } else {
        let mut buf: Vec<u8> = vec![0u8, 0u8];
        be_write_u16(&mut buf, value);
        proof {
            lemma_be_bytes_len(value as nat, 2);
            assert(buf@ =~= buf@.subrange(0, 2));
        }
        w.push(major * 32 + 25);
        w.append(&mut buf);
        assert(w@ =~= old(w)@ + head(major, value as nat));
    }
}

/// Writes a head of major type `major` with argument `value`.
pub fn write_u32(w: &mut Vec<u8>, major: u8, value: u32)
    requires
        major < 8,
    ensures
        final(w)@ == old(w)@ + head(major, value as nat),
{
    if value <= 0xffff {
        write_u16(w, major, value as u16);
    } else {
        let mut buf: Vec<u8> = vec![0u8, 0u8, 0u8, 0u8];
        be_write_u32(&mut buf, value);
        proof {
            lemma_be_bytes_len(value as nat, 4);
            assert(buf@ =~= buf@.subrange(0, 4));
        }
        w.push(major * 32 + 26);
        w.append(&mut buf);
        assert(w@ =~= old(w)@ + head(major, value as nat));
    }
}

/// Writes a head of major type `major` with argument `value`, in the shortest
/// of the five forms that holds it.
pub fn write_u64(w: &mut Vec<u8>, major: u8, value: u64)
    requires
        major < 8,
    ensures
        final(w)@ == old(w)@ + head(major, value as nat),
{
    if value <= 0xffff_ffff {
        write_u32(w, major, value as u32);
    } else {
        let mut buf: Vec<u8> = vec![0u8, 0u8, 0u8, 0u8, 0u8, 0u8, 0u8, 0u8];
        be_write_u64(&mut buf, value);
        proof {
            lemma_be_bytes_len(value as nat, 8);
            assert(buf@ =~= buf@.subrange(0, 8));
        }
        w.push(major * 32 + 27);
        w.append(&mut buf);
        assert(w@ =~= old(w)@ + head(major, value as nat));
    }
}

/// Writes a tag.
pub fn write_tag(w: &mut Vec<u8>, tag: u64)
    ensures
        final(w)@ == old(w)@ + head(6, tag as nat),
{
    write_u64(w, 6, tag)
}

/// Writes a boolean.
pub fn encode_bool(w: &mut Vec<u8>, b: bool)
    ensures
        final(w)@ == old(w)@ + enc(Node::Bool(b)),
{
    w.push(if b { 0xf5 } else { 0xf4 });
    assert(w@ =~= old(w)@ + enc(Node::Bool(b)));
}

/// Writes an integer; fails with `NumberOutOfRange` outside `[-2^64, 2^64 - 1]`.
pub fn encode_int(w: &mut Vec<u8>, i: i128) -> (res: Result<(), CodecError>)
    ensures
        res is Ok <==> encodable(Node::Integer(i as int)),
        res is Ok ==> final(w)@ == old(w)@ + enc(Node::Integer(i as int)),
        res is Err ==> res == Err::<(), CodecError>(CodecError::NumberOutOfRange) && final(w)@ == old(w)@,
{
    if i < 0 {
        if -(i + 1) > 0xffff_ffff_ffff_ffff {
            return Err(CodecError::NumberOutOfRange);
        }
        write_u64(w, 1, (-(i + 1)) as u64);
    } else {
        if i > 0xffff_ffff_ffff_ffff {
            return Err(CodecError::NumberOutOfRange);
        }
        write_u64(w, 0, i as u64);
    }
    Ok(())
}

/// Writes a binary32 float given by its bits: infinities and NaN in the
/// three-byte half-precision form, anything else in five bytes.
pub fn encode_f32(w: &mut Vec<u8>, bits: u32)
    ensures
        final(w)@ == old(w)@ + f32_bytes(bits),
{
    let e = (bits / 0x80_0000) % 256;
    let m = bits % 0x80_0000;
    if e == 255 {
        if m == 0 {
            if bits >= 0x8000_0000 {
                w.push(0xf9);
                w.push(0xfc);
                w.push(0x00);
            } else {
                w.push(0xf9);
                w.push(0x7c);
                w.push(0x00);
            }
        } else {
            w.push(0xf9);
            w.push(0x7e);
            w.push(0x00);
        }
        assert(w@ =~= old(w)@ + f32_bytes(bits));
    } else {
        let mut buf: Vec<u8> = vec![0u8, 0u8, 0u8, 0u8];
        be_write_u32(&mut buf, bits);
        proof {
            lemma_be_bytes_len(bits as nat, 4);
            assert(buf@ =~= buf@.subrange(0, 4));
        }
        w.push(0xfa);
        w.append(&mut buf);
        assert(w@ =~= old(w)@ + f32_bytes(bits));
    }
}

/// The bytes that `encode_f32` writes.
pub open spec fn f32_bytes(bits: u32) -> Seq<u8> {
    if (bits as nat / 0x80_0000) % 256 == 255 {
        if bits as nat % 0x80_0000 != 0 {
            seq![0xf9u8, 0x7e, 0x00]
        } else if bits >= 0x8000_0000 {
            seq![0xf9u8, 0xfc, 0x00]
        } else {
            seq![0xf9u8, 0x7c, 0x00]
        }
    } else {
        seq![0xfau8] + be_bytes(bits as nat, 4)
    }
}

/// Writes a binary64 float given by its bits: in binary32 where that holds the
/// same number, infinities and NaN as binary32 does, else in nine bytes.
pub fn encode_f64(w: &mut Vec<u8>, bits: u64)
    ensures
        final(w)@ == old(w)@ + enc_float(bits),
{
    let e = (bits / 0x10_0000_0000_0000) % 2048;
    let m = bits % 0x10_0000_0000_0000;
    if e == 2047 {
        if m == 0 {
            if bits >= 0x8000_0000_0000_0000 {
                encode_f32(w, 0xff80_0000);
            } else {
                encode_f32(w, 0x7f80_0000);
            }
        } else {
            encode_f32(w, 0x7fc0_0000);
        }
        return;
    }
    match narrow_f64(bits) {
        Some(n) => {
            proof {
                lemma_widen_narrow(bits);
            }
            encode_f32(w, n);
        },
        None => {
            let mut buf: Vec<u8> = vec![0u8, 0u8, 0u8, 0u8, 0u8, 0u8, 0u8, 0u8];
            be_write_u64(&mut buf, bits);
            proof {
                lemma_be_bytes_len(bits as nat, 8);
                assert(buf@ =~= buf@.subrange(0, 8));
            }
            w.push(0xfb);
            w.append(&mut buf);
            assert(w@ =~= old(w)@ + enc_float(bits));
        },
    }
}

fn push_all(w: &mut Vec<u8>, b: &[u8])
    ensures
        final(w)@ == old(w)@ + b@,
{
    let mut i: usize = 0;
    while i < b.len()
        invariant
            i <= b@.len(),
            w@ == old(w)@ + b@.take(i as int),
        decreases b@.len() - i,
    {
        w.push(b[i]);
        i = i + 1;
        assert(w@ =~= old(w)@ + b@.take(i as int));
    }
    assert(b@.take(i as int) =~= b@);
}

/// Writes a byte string.
pub fn encode_bytes(w: &mut Vec<u8>, b: &[u8])
    ensures
        final(w)@ == old(w)@ + head(2, b@.len()) + b@,
{
    write_u64(w, 2, b.len() as u64);
    push_all(w, b);
}

/// Writes a text string.
pub fn encode_str(w: &mut Vec<u8>, s: &str)
    ensures
        final(w)@ == old(w)@ + enc_text(s@),
{
    let b = s.as_bytes();
    write_u64(w, 3, b.len() as u64);
    push_all(w, b);
    assert(w@ =~= old(w)@ + enc_text(s@));
}

/// Writes a link: the tag 42, then a byte string of a zero byte and the
/// identifier's bytes `c`.
pub fn encode_link(w: &mut Vec<u8>, c: &[u8])
    requires
        c@.len() < 0xffff_ffff_ffff_ffff,
    ensures
        final(w)@ == old(w)@ + enc(Node::Link(c@)),
{
    write_tag(w, 42);
    proof {
        reveal_with_fuel(be_bytes, 2);
        assert(head(6, 42) =~= seq![0xd8u8, 42u8]);
    }
    write_u64(w, 2, c.len() as u64 + 1);
    w.push(0);
    push_all(w, c);
    assert(w@ =~= old(w)@ + enc(Node::Link(c@)));
}

/// Writes a value whose maps all have their keys in increasing order; fails with `NumberOutOfRange` where an integer in it lies
/// outside `[-2^64, 2^64 - 1]`, and with `LengthOutOfRange` where a link's
/// length does not fit the head.
pub fn encode_ipld(w: &mut Vec<u8>, v: &Ipld) -> (res: Result<(), CodecError>)
    requires
        maps_sorted(v.node()),
    ensures
        res is Ok <==> encodable(v.node()),
        res is Ok ==> final(w)@ == old(w)@ + enc(v.node()),
        res is Err ==> res == Err::<(), CodecError>(CodecError::NumberOutOfRange)
            || res == Err::<(), CodecError>(CodecError::LengthOutOfRange),
    decreases v,
{
    match v {
        Ipld::Null => {
            write_null(w);
            Ok(())
        },
        Ipld::Bool(b) => {
            encode_bool(w, *b);
            Ok(())
        },
        Ipld::Integer(i) => encode_int(w, *i),
        Ipld::Float(f) => {
            encode_f64(w, *f);
            Ok(())
        },
        Ipld::Bytes(b) => {
            encode_bytes(w, b.as_slice());
            Ok(())
        },
        Ipld::String(s) => {
            encode_str(w, s.as_str());
            Ok(())
        },
        Ipld::Link(c) => {
            if c.len() as u64 >= 0xffff_ffff_ffff_ffff {
                return Err(CodecError::LengthOutOfRange);
            }
            encode_link(w, c.as_slice());
            Ok(())
        },
        Ipld::List(l) => {
            proof {
                lemma_list_node(*l);
            }
            let ghost vs = nodes(l@);
            write_u64(w, 4, l.len() as u64);
            let ghost w1 = w@;
            let mut i: usize = 0;
            assert(vs.take(0) =~= Seq::<Node>::empty());
            while i < l.len()
                invariant
                    vs == nodes(l@),
                    *v == Ipld::List(*l),
                    v.node() == Node::List(vs),
                    i <= l@.len(),
                    w@ == w1 + enc_list(vs.take(i as int)),
                    w1 == old(w)@ + head(4, vs.len()),
                    list_encodable(vs.take(i as int)),
                    list_maps_sorted(vs),
                decreases l@.len() - i,
            {
                proof {
                    assert(decreases_to!(*l => l[i as int]));
                    assert(vs[i as int] == l@[i as int].node());
                    lemma_list_maps_sorted(vs, i as int);
                }
                match encode_ipld(w, &l[i]) {
                    Ok(()) => {},
                    Err(e) => {
                        assert(!encodable(vs[i as int]));
                        assert(0 <= i < vs.len());
                        proof {
                            if list_encodable(vs) {
                                lemma_list_encodable(vs, i as int);
                            }
                        }
                        return Err(e);
                    },
                }
                assert(vs.take(i + 1).drop_last() =~= vs.take(i as int));
                i = i + 1;
            }
            assert(vs.take(i as int) =~= vs);
            Ok(())
        },
        Ipld::Dict(m) => {
            proof {
                lemma_dict_node(*m);
            }
            let ghost es = entries(m@);
            write_u64(w, 5, m.len() as u64);
            let ghost w1 = w@;
            let mut i: usize = 0;
            assert(es.take(0) =~= Seq::<(Seq<char>, Node)>::empty());
            while i < m.len()
                invariant
                    es == entries(m@),
                    *v == Ipld::Dict(*m),
                    v.node() == Node::Dict(es),
                    i <= m@.len(),
                    w@ == w1 + enc_dict(es.take(i as int)),
                    w1 == old(w)@ + head(5, es.len()),
                    dict_encodable(es.take(i as int)),
                    dict_maps_sorted(es),
                decreases m@.len() - i,
            {
                let ghost before = w@;
                encode_str(w, m[i].0.as_str());
                proof {
                    assert(decreases_to!(*m => m[i as int]));
                    assert(es[i as int].1 == m@[i as int].1.node());
                    lemma_dict_maps_sorted(es, i as int);
                }
                match encode_ipld(w, &m[i].1) {
                    Ok(()) => {},
                    Err(e) => {
                        assert(!encodable(es[i as int].1));
                        assert(0 <= i < es.len());
                        proof {
                            if dict_encodable(es) {
                                lemma_dict_encodable(es, i as int);
                            }
                        }
                        return Err(e);
                    },
                }
                assert(es.take(i + 1).drop_last() =~= es.take(i as int));
                assert(w@ =~= before + enc_text(es[i as int].0) + enc(es[i as int].1));
                i = i + 1;
            }
            assert(es.take(i as int) =~= es);
            Ok(())
        },
    }
}

} // verus!
