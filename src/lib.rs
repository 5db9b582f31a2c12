//! A canonical CBOR codec for content-addressed data: every value has exactly one
//! encoding, and every integer and length is written in its shortest form.
use vstd::prelude::*;

pub mod cid;
pub mod decode;
pub mod dict;
pub mod encode;
pub mod endian;
pub mod error;
pub mod float;
pub mod laws;
pub mod typed;
pub mod value;
pub mod wire;

use crate::decode::{read, ByteReader};
use crate::encode::encode_ipld;
use crate::error::CodecError;
use crate::value::{Ipld, Node};
use crate::wire::{dec, enc, encodable, maps_sorted};

verus! {

broadcast use vstd::std_specs::vec::group_vec_axioms;

/// The raw CBOR codec, registered under the multicodec code 0x51.
#[derive(Clone, Copy, Debug, PartialEq, Eq, Structural)]
pub struct RawCborCodec;

/// The links in a value, in the order in which they are written.
pub open spec fn links(v: Node) -> Seq<Seq<u8>>
    decreases v,
{
    match v {
        Node::Link(c) => seq![c],
        Node::List(vs) => list_links(vs),
        Node::Dict(es) => dict_links(es),
        _ => Seq::empty(),
    }
}

pub open spec fn list_links(vs: Seq<Node>) -> Seq<Seq<u8>>
    decreases vs,
{
    if vs.len() == 0 {
        Seq::empty()
    } else {
        list_links(vs.drop_last()) + links(vs.last())
    }
}

pub open spec fn dict_links(es: Seq<(Seq<char>, Node)>) -> Seq<Seq<u8>>
    decreases es,
{
    if es.len() == 0 {
        Seq::empty()
    } else {
        dict_links(es.drop_last()) + links(es.last().1)
    }
}

fn copy_bytes(c: &Vec<u8>) -> (r: Vec<u8>)
    ensures
        r@ == c@,
{
    let mut r: Vec<u8> = Vec::new();
    let mut i: usize = 0;
    while i < c.len()
        invariant
            i <= c@.len(),
            r@ == c@.take(i as int),
        decreases c@.len() - i,
    {
        r.push(c[i]);
        i = i + 1;
        assert(r@ =~= c@.take(i as int));
    }
    assert(c@.take(i as int) =~= c@);
    r
}

/// Appends the links in `v` to `out`.
pub fn collect_links(v: &Ipld, out: &mut Vec<Vec<u8>>)
    ensures
        final(out).deep_view() == old(out).deep_view() + links(v.node()),
    decreases v,
{
    match v {
        Ipld::Link(c) => {
            let c2 = copy_bytes(c);
            assert(c2.deep_view() =~= c@);
            out.push(c2);
            assert(out.deep_view() =~= old(out).deep_view() + links(v.node()));
        },
        Ipld::List(l) => {
            proof {
                crate::value::lemma_list_node(*l);
            }
            let ghost vs = crate::value::nodes(l@);
            let mut i: usize = 0;
            assert(old(out).deep_view() + list_links(vs.take(0)) =~= old(out).deep_view());
            while i < l.len()
                invariant
                    vs == crate::value::nodes(l@),
                    *v == Ipld::List(*l),
                    v.node() == Node::List(vs),
                    i <= l@.len(),
                    out.deep_view() == old(out).deep_view() + list_links(vs.take(i as int)),
                decreases l@.len() - i,
            {
                proof {
                    assert(decreases_to!(*l => l[i as int]));
                    assert(vs[i as int] == l@[i as int].node());
                }
                collect_links(&l[i], out);
                assert(vs.take(i + 1).drop_last() =~= vs.take(i as int));
                assert(out.deep_view() =~= old(out).deep_view() + list_links(vs.take(i + 1)));
                i = i + 1;
            }
            assert(vs.take(i as int) =~= vs);
        },
        Ipld::Dict(m) => {
            proof {
                crate::value::lemma_dict_node(*m);
            }
            let ghost es = crate::value::entries(m@);
            let mut i: usize = 0;
            assert(old(out).deep_view() + dict_links(es.take(0)) =~= old(out).deep_view());
            while i < m.len()
                invariant
                    es == crate::value::entries(m@),
                    *v == Ipld::Dict(*m),
                    v.node() == Node::Dict(es),
                    i <= m@.len(),
                    out.deep_view() == old(out).deep_view() + dict_links(es.take(i as int)),
                decreases m@.len() - i,
            {
                proof {
                    assert(decreases_to!(*m => m[i as int]));
                    assert(es[i as int].1 == m@[i as int].1.node());
                }
                collect_links(&m[i].1, out);
                assert(es.take(i + 1).drop_last() =~= es.take(i as int));
                assert(out.deep_view() =~= old(out).deep_view() + dict_links(es.take(i + 1)));
                i = i + 1;
            }
            assert(es.take(i as int) =~= es);
        },
        _ => {
            assert(out.deep_view() =~= old(out).deep_view() + links(v.node()));
        },
    }
}

impl RawCborCodec {
    /// The multicodec code of this codec.
    pub fn code(&self) -> (r: u64)
        ensures
            r == 0x51,
    {
        0x51
    }

    /// Encodes a value whose maps all have their keys in increasing order (as
    /// every decoded value and every map built by `dict_from` has); fails exactly where an integer in it lies outside
    /// `[-2^64, 2^64 - 1]` (or a link is too long for any head).
    pub fn encode(&self, v: &Ipld) -> (res: Result<Vec<u8>, CodecError>)
        requires
            maps_sorted(v.node()),
        ensures
            res is Ok <==> encodable(v.node()),
            res is Ok ==> res->Ok_0@ == enc(v.node()),
    {
        let mut w: Vec<u8> = Vec::new();
        match encode_ipld(&mut w, v) {
            Ok(()) => {
                assert(w@ =~= enc(v.node()));
                Ok(w)
            },
            Err(e) => Err(e),
        }
    }

    /// Decodes the value at the front of `bytes`.
    pub fn decode(&self, bytes: &[u8]) -> (res: Result<Ipld, CodecError>)
        ensures
            match dec(bytes@) {
                Ok((v, k)) => res is Ok && res->Ok_0.node() == v,
                Err(e) => res == Err::<Ipld, CodecError>(e),
            },
    {
        let mut data: Vec<u8> = Vec::new();
        let mut i: usize = 0;
        while i < bytes.len()
            invariant
                i <= bytes@.len(),
                data@ == bytes@.take(i as int),
            decreases bytes@.len() - i,
        {
            data.push(bytes[i]);
            i = i + 1;
            assert(data@ =~= bytes@.take(i as int));
        }
        assert(bytes@.take(i as int) =~= bytes@);
        let mut r = ByteReader::new(data);
        read(&mut r)
    }

    /// The links in the value at the front of `bytes`, in the order in which
    /// they are written.
    pub fn references(&self, bytes: &[u8]) -> (res: Result<Vec<Vec<u8>>, CodecError>)
        ensures
            match dec(bytes@) {
                Ok((v, k)) => res is Ok && res->Ok_0.deep_view() == links(v),
                Err(e) => res == Err::<Vec<Vec<u8>>, CodecError>(e),
            },
    {
        match self.decode(bytes) {
            Ok(v) => {
                let mut out: Vec<Vec<u8>> = Vec::new();
                collect_links(&v, &mut out);
                assert(out.deep_view() =~= links(v.node()));
                Ok(out)
            },
            Err(e) => Err(e),
        }
    }
}

} // verus!
