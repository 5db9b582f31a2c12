//! Reading values from bytes.
use vstd::prelude::*;
use vstd::utf8::*;
use crate::cid::check_cid;
use crate::dict::{compare_keys, dict_insert};
use crate::endian::{be_read_u16, be_read_u32, be_read_u64, be_value, lemma_be_value_bound, pow256};
use crate::error::CodecError;
use crate::float::widen_f32;
use crate::value::{entries, lemma_dict_node, lemma_list_node, nodes, Ipld};
use crate::wire::{dec, dec_dict, dec_link, dec_list, dec_text, head_arg, width};

verus! {

/// Bytes to be read, and how far reading has come.
pub struct ByteReader {
    pub data: Vec<u8>,
    pub pos: usize,
}

impl ByteReader {
    pub open spec fn wf(&self) -> bool {
        self.pos <= self.data.len()
    }

    /// What is still to be read.
    pub open spec fn rest(&self) -> Seq<u8> {
        self.data@.subrange(self.pos as int, self.data@.len() as int)
    }

    /// `self` is `old` with `k` more bytes read.
    pub open spec fn advanced(&self, old: ByteReader, k: int) -> bool {
        &&& self.wf()
        &&& self.data@ == old.data@
        &&& self.pos == old.pos + k
    }

    pub fn new(data: Vec<u8>) -> (r: ByteReader)
        ensures
            r.wf(),
            r.pos == 0,
            r.data@ == data@,
            r.rest() == data@,
    {
        let r = ByteReader { data, pos: 0 };
        assert(r.rest() =~= r.data@);
        r
    }

    /// The number of bytes still to be read.
    pub fn remaining(&self) -> (n: usize)
        requires
            self.wf(),
        ensures
            n == self.rest().len(),
    {
        self.data.len() - self.pos
    }

    /// Reads `buf.len()` bytes into `buf`, or fails with `Io` where fewer are left,
    /// reading none.
    fn take(&mut self, n: usize) -> (res: Result<Vec<u8>, CodecError>)
        requires
            old(self).wf(),
        ensures
            final(self).wf(),
            final(self).data@ == old(self).data@,
            n <= old(self).rest().len() ==> res is Ok && res->Ok_0@ == old(self).rest().take(n as int)
                && final(self).advanced(*old(self), n as int),
            n > old(self).rest().len() ==> res == Err::<Vec<u8>, CodecError>(CodecError::Io) && *final(self) == *old(self),
    {
        if n > self.data.len() - self.pos {
            return Err(CodecError::Io);
        }
        let mut out: Vec<u8> = Vec::new();
        let mut i: usize = 0;
        while i < n
            invariant
                self.wf(),
                n <= self.data.len() - self.pos,
                i <= n,
                out@ == self.rest().take(i as int),
            decreases n - i,
        {
            out.push(self.data[self.pos + i]);
            i = i + 1;
            assert(out@ =~= self.rest().take(i as int));
        }
        self.pos = self.pos + n;
        Ok(out)
    }
}

/// Relies on `String::from_utf8`: succeeds exactly on valid UTF-8, with the
/// characters that the bytes spell.
#[verifier::external_body]
fn utf8_string(b: Vec<u8>) -> (r: Option<String>)
    ensures
        r is Some <==> valid_utf8(b@),
        r is Some ==> r->Some_0@ == decode_utf8(b@),
{
    String::from_utf8(b).ok()
}

/// Reads one byte.
pub fn read_u8(r: &mut ByteReader) -> (res: Result<u8, CodecError>)
    requires
        old(r).wf(),
    ensures
        final(r).wf(),
        final(r).data@ == old(r).data@,
        old(r).rest().len() >= 1 ==> res == Ok::<u8, CodecError>(old(r).rest()[0]) && final(r).advanced(*old(r), 1),
        old(r).rest().len() < 1 ==> res == Err::<u8, CodecError>(CodecError::Io) && *final(r) == *old(r),
{
    if r.pos >= r.data.len() {
        return Err(CodecError::Io);
    }
    let b = r.data[r.pos];
    r.pos = r.pos + 1;
    Ok(b)
}

/// Reads a big-endian `u16`.
pub fn read_u16(r: &mut ByteReader) -> (res: Result<u16, CodecError>)
    requires
        old(r).wf(),
    ensures
        final(r).wf(),
        final(r).data@ == old(r).data@,
        old(r).rest().len() >= 2 ==> res is Ok && res->Ok_0 as nat == be_value(old(r).rest().take(2))
            && final(r).advanced(*old(r), 2),
        old(r).rest().len() < 2 ==> res == Err::<u16, CodecError>(CodecError::Io) && *final(r) == *old(r),
{
    match r.take(2) {
        Ok(buf) => {
            assert(buf@.subrange(0, 2) =~= buf@);
            Ok(be_read_u16(buf.as_slice()))
        },
        Err(e) => Err(e),
    }
}

/// Reads a big-endian `u32`.
pub fn read_u32(r: &mut ByteReader) -> (res: Result<u32, CodecError>)
    requires
        old(r).wf(),
    ensures
        final(r).wf(),
        final(r).data@ == old(r).data@,
        old(r).rest().len() >= 4 ==> res is Ok && res->Ok_0 as nat == be_value(old(r).rest().take(4))
            && final(r).advanced(*old(r), 4),
        old(r).rest().len() < 4 ==> res == Err::<u32, CodecError>(CodecError::Io) && *final(r) == *old(r),
{
    match r.take(4) {
        Ok(buf) => {
            assert(buf@.subrange(0, 4) =~= buf@);
            Ok(be_read_u32(buf.as_slice()))
        },
        Err(e) => Err(e),
    }
}

/// Reads a big-endian `u64`.
pub fn read_u64(r: &mut ByteReader) -> (res: Result<u64, CodecError>)
    requires
        old(r).wf(),
    ensures
        final(r).wf(),
        final(r).data@ == old(r).data@,
        old(r).rest().len() >= 8 ==> res is Ok && res->Ok_0 as nat == be_value(old(r).rest().take(8))
            && final(r).advanced(*old(r), 8),
        old(r).rest().len() < 8 ==> res == Err::<u64, CodecError>(CodecError::Io) && *final(r) == *old(r),
{
    match r.take(8) {
        Ok(buf) => {
            assert(buf@.subrange(0, 8) =~= buf@);
            Ok(be_read_u64(buf.as_slice()))
        },
        Err(e) => Err(e),
    }
}

/// Reads exactly `len` bytes.
pub fn read_bytes(r: &mut ByteReader, len: usize) -> (res: Result<Vec<u8>, CodecError>)
    requires
        old(r).wf(),
    ensures
        final(r).wf(),
        final(r).data@ == old(r).data@,
        len <= old(r).rest().len() ==> res is Ok && res->Ok_0@ == old(r).rest().take(len as int)
            && final(r).advanced(*old(r), len as int),
        len > old(r).rest().len() ==> res == Err::<Vec<u8>, CodecError>(CodecError::Io) && *final(r) == *old(r),
{
    r.take(len)
}

/// Reads exactly `len` bytes of UTF-8 text.
pub fn read_str(r: &mut ByteReader, len: usize) -> (res: Result<String, CodecError>)
    requires
        old(r).wf(),
    ensures
        final(r).wf(),
        final(r).data@ == old(r).data@,
        len > old(r).rest().len() ==> res == Err::<String, CodecError>(CodecError::Io),
        len <= old(r).rest().len() ==> final(r).advanced(*old(r), len as int) && {
            let b = old(r).rest().take(len as int);
            &&& valid_utf8(b) ==> res is Ok && res->Ok_0@ == decode_utf8(b)
            &&& !valid_utf8(b) ==> res == Err::<String, CodecError>(CodecError::Utf8)
        },
{
    match read_bytes(r, len) {
        Ok(bytes) => match utf8_string(bytes) {
            Some(s) => Ok(s),
            None => Err(CodecError::Utf8),
        },
        Err(e) => Err(e),
    }
}



/// Reads the argument of a head whose leading byte `lead` (additional
/// information at most 27) was just read.
fn read_arg(r: &mut ByteReader, lead: u8) -> (res: Result<u64, CodecError>)
    requires
        old(r).wf(),
        lead % 32 <= 27,
    ensures
        final(r).wf(),
        final(r).data@ == old(r).data@,
        match head_arg(seq![lead] + old(r).rest()) {
            None => res == Err::<u64, CodecError>(CodecError::Io),
            Some((n, h)) => res == Ok::<u64, CodecError>(n as u64) && n < 0x1_0000_0000_0000_0000
                && final(r).advanced(*old(r), h - 1),
        },
{
    let info = lead % 32;
    let ghost b = seq![lead] + r.rest();
    let ghost r0 = *r;
    assert(b.subrange(1, b.len() as int) =~= r.rest());
    proof {
        reveal_with_fuel(pow256, 9);
        if info >= 24 && b.len() >= 1 + width(info as nat) {
            lemma_be_value_bound(b.subrange(1, 1 + width(info as nat) as int));
        }
    }
    if info < 24 {
        Ok(info as u64)
    } else if info == 24 {
        let res = read_u8(r);
        proof {
            if res is Ok {
                assert(b.subrange(1, 2) =~= seq![b[1]]);
                assert(b.subrange(1, 2).drop_last() =~= Seq::<u8>::empty());
            }
        }
        match res {
            Ok(v) => Ok(v as u64),
            Err(e) => Err(e),
        }
    } else if info == 25 {
        let res = read_u16(r);
        proof {
            if b.len() >= 1 + 2 {
                assert(b.subrange(1, 1 + width(info as nat) as int) =~= r0.rest().take(2));
            }
        }
        match res {
            Ok(v) => Ok(v as u64),
            Err(e) => Err(e),
        }
    } else if info == 26 {
        let res = read_u32(r);
        proof {
            if b.len() >= 1 + 4 {
                assert(b.subrange(1, 1 + width(info as nat) as int) =~= r0.rest().take(4));
            }
        }
        match res {
            Ok(v) => Ok(v as u64),
            Err(e) => Err(e),
        }
    } else {
        let res = read_u64(r);
        proof {
            if b.len() >= 1 + 8 {
                assert(b.subrange(1, 1 + width(info as nat) as int) =~= r0.rest().take(8));
            }
        }
        match res {
            Ok(v) => Ok(v),
            Err(e) => Err(e),
        }
    }
}

/// Reads the rest of a text string whose leading byte `lead` was just read.
pub(crate) fn read_text_body(r: &mut ByteReader, lead: u8) -> (res: Result<String, CodecError>)
    requires
        old(r).wf(),
        0x60 <= lead <= 0x7b,
    ensures
        final(r).wf(),
        final(r).data@ == old(r).data@,
        match dec_text(seq![lead] + old(r).rest()) {
            Ok((s, k)) => res is Ok && res->Ok_0@ == s && final(r).advanced(*old(r), k - 1),
            Err(e) => res == Err::<String, CodecError>(e),
        },
{
    let ghost b = seq![lead] + r.rest();
    let n = match read_arg(r, lead) {
        Ok(n) => n,
        Err(e) => return Err(e),
    };
    if n > usize::MAX as u64 {
        return Err(CodecError::LengthOutOfRange);
    }
    let ghost h = (b.len() - r.rest().len()) as nat;
    assert(r.rest() =~= b.subrange(h as int, b.len() as int));
    proof {
        if r.rest().len() >= n {
            assert(r.rest().take(n as int) =~= b.subrange(h as int, (h + n) as int));
        }
    }
    read_str(r, n as usize)
}

/// Reads a text string.
pub fn read_text(r: &mut ByteReader) -> (res: Result<String, CodecError>)
    requires
        old(r).wf(),
    ensures
        final(r).wf(),
        final(r).data@ == old(r).data@,
        match dec_text(old(r).rest()) {
            Ok((s, k)) => res is Ok && res->Ok_0@ == s && final(r).advanced(*old(r), k as int),
            Err(e) => res == Err::<String, CodecError>(e),
        },
{
    let ghost r0 = *r;
    let lead = match read_u8(r) {
        Ok(b) => b,
        Err(e) => return Err(e),
    };
    assert(seq![lead] + r.rest() =~= r0.rest());
    if lead < 0x60 || lead > 0x7b {
        return Err(CodecError::UnexpectedCode);
    }
    read_text_body(r, lead)
}

/// Reads a link, after its leading byte 0xd8: the tag 42, a byte string with a
/// one-byte length, a zero byte, and the identifier's bytes, which are returned.
pub fn read_link(r: &mut ByteReader) -> (res: Result<Vec<u8>, CodecError>)
    requires
        old(r).wf(),
    ensures
        final(r).wf(),
        final(r).data@ == old(r).data@,
        match dec_link(old(r).rest()) {
            Ok((c, k)) => res is Ok && res->Ok_0@ == c && final(r).advanced(*old(r), k as int),
            Err(e) => res == Err::<Vec<u8>, CodecError>(e),
        },
{
    let ghost b = r.rest();
    let tag = match read_u8(r) {
        Ok(t) => t,
        Err(e) => return Err(e),
    };
    if tag != 42 {
        return Err(CodecError::UnknownTag);
    }
    let ty = match read_u8(r) {
        Ok(t) => t,
        Err(e) => return Err(e),
    };
    if ty != 0x58 {
        return Err(CodecError::UnknownTag);
    }
    let len = match read_u8(r) {
        Ok(l) => l,
        Err(e) => return Err(e),
    };
    if len == 0 {
        return Err(CodecError::LengthOutOfRange);
    }
    assert(r.rest() =~= b.subrange(3, b.len() as int));
    let bytes = match read_bytes(r, len as usize) {
        Ok(v) => v,
        Err(e) => return Err(e),
    };
    if bytes[0] != 0 {
        return Err(CodecError::InvalidCidPrefix(bytes[0]));
    }
    let mut id: Vec<u8> = Vec::new();
    let mut i: usize = 1;
    while i < bytes.len()
        invariant
            1 <= i <= bytes@.len(),
            id@ == bytes@.subrange(1, i as int),
        decreases bytes@.len() - i,
    {
        id.push(bytes[i]);
        i = i + 1;
        assert(id@ =~= bytes@.subrange(1, i as int));
    }
    assert(id@ =~= b.subrange(4, 3 + len as int));
    match check_cid(id.as_slice()) {
        Ok(()) => Ok(id),
        Err(_) => Err(CodecError::InvalidCid),
    }
}

/// Reads one value.
#[verifier::spinoff_prover]
#[verifier::rlimit(50)]
pub fn read(r: &mut ByteReader) -> (res: Result<Ipld, CodecError>)
    requires
        old(r).wf(),
    ensures
        final(r).wf(),
        final(r).data@ == old(r).data@,
        match dec(old(r).rest()) {
            Ok((v, k)) => res is Ok && res->Ok_0.node() == v && final(r).advanced(*old(r), k as int),
            Err(e) => res == Err::<Ipld, CodecError>(e),
        },
    decreases old(r).rest().len(), 0nat,
{
    let ghost b = r.rest();
    let lead = match read_u8(r) {
        Ok(x) => x,
        Err(e) => return Err(e),
    };
    assert(seq![lead] + r.rest() =~= b);
    read_after(r, lead)
}

/// Reads the rest of a value whose leading byte `lead` was just read.
#[verifier::spinoff_prover]
#[verifier::rlimit(50)]
pub fn read_after(r: &mut ByteReader, lead: u8) -> (res: Result<Ipld, CodecError>)
    requires
        old(r).wf(),
    ensures
        final(r).wf(),
        final(r).data@ == old(r).data@,
        match dec(seq![lead] + old(r).rest()) {
            Ok((v, k)) => res is Ok && res->Ok_0.node() == v && final(r).advanced(*old(r), k - 1),
            Err(e) => res == Err::<Ipld, CodecError>(e),
        },
    decreases old(r).rest().len(), 2nat,
{
    let ghost b = seq![lead] + r.rest();
    let major = lead / 32;
    let info = lead % 32;
    if major <= 5 && info >= 28 {
        return Err(CodecError::UnexpectedCode);
    }
    if major == 3 {
        return match read_text_body(r, lead) {
            Ok(s) => Ok(Ipld::String(s)),
            Err(e) => Err(e),
        };
    }
    if major <= 5 {
        let n = match read_arg(r, lead) {
            Ok(n) => n,
            Err(e) => return Err(e),
        };
        let ghost h = (b.len() - r.rest().len()) as nat;
        assert(r.rest() =~= b.subrange(h as int, b.len() as int));
        if major == 0 {
            return Ok(Ipld::Integer(n as i128));
        } else if major == 1 {
            return Ok(Ipld::Integer(-1 - n as i128));
        }
        if n > usize::MAX as u64 {
            return Err(CodecError::LengthOutOfRange);
        }
        if major == 2 {
            match read_bytes(r, n as usize) {
                Ok(v) => Ok(Ipld::Bytes(v)),
                Err(e) => Err(e),
            }
        } else if major == 4 {
            match read_list(r, n as usize) {
                Ok(v) => {
                    proof {
                        lemma_list_node(v);
                    }
                    Ok(Ipld::List(v))
                },
                Err(e) => Err(e),
            }
        } else {
            match read_map(r, n as usize) {
                Ok(m) => {
                    proof {
                        lemma_dict_node(m);
                    }
                    Ok(Ipld::Dict(m))
                },
                Err(e) => Err(e),
            }
        }
    } else {
        read_simple(r, lead)
    }
}

/// Reads the rest of a value whose leading byte `lead`, of major type 6 or 7,
/// was just read.
fn read_simple(r: &mut ByteReader, lead: u8) -> (res: Result<Ipld, CodecError>)
    requires
        old(r).wf(),
        lead / 32 >= 6,
    ensures
        final(r).wf(),
        final(r).data@ == old(r).data@,
        match dec(seq![lead] + old(r).rest()) {
            Ok((v, k)) => res is Ok && res->Ok_0.node() == v && final(r).advanced(*old(r), k - 1),
            Err(e) => res == Err::<Ipld, CodecError>(e),
        },
{
    let ghost r0 = *r;
    let ghost b = seq![lead] + r.rest();
    let major = lead / 32;
    assert(r.rest() =~= b.drop_first());
    if lead == 0xd8 {
        match read_link(r) {
            Ok(c) => Ok(Ipld::Link(c)),
            Err(e) => Err(e),
        }
    } else if major == 6 {
        Err(CodecError::UnknownTag)
    } else if lead == 0xf4 {
        Ok(Ipld::Bool(false))
    } else if lead == 0xf5 {
        Ok(Ipld::Bool(true))
    } else if lead == 0xf6 || lead == 0xf7 {
        Ok(Ipld::Null)
    } else if lead == 0xfa {
        let res = read_u32(r);
        proof {
            if b.len() >= 5 {
                assert(b.subrange(1, 5) =~= r0.rest().take(4));
            }
        }
        match res {
            Ok(x) => Ok(Ipld::Float(widen_f32(x))),
            Err(e) => Err(e),
        }
    } else if lead == 0xfb {
        let res = read_u64(r);
        proof {
            if b.len() >= 9 {
                assert(b.subrange(1, 9) =~= r0.rest().take(8));
            }
        }
        match res {
            Ok(x) => Ok(Ipld::Float(x)),
            Err(e) => Err(e),
        }
    } else {
        Err(CodecError::UnexpectedCode)
    }
}

/// Reads `len` values one after the other.
pub fn read_list(r: &mut ByteReader, len: usize) -> (res: Result<Vec<Ipld>, CodecError>)
    requires
        old(r).wf(),
    ensures
        final(r).wf(),
        final(r).data@ == old(r).data@,
        match dec_list(old(r).rest(), len as nat) {
            Ok((vs, k)) => res is Ok && nodes(res->Ok_0@) == vs && final(r).advanced(*old(r), k as int),
            Err(e) => res == Err::<Vec<Ipld>, CodecError>(e),
        },
    decreases old(r).rest().len(), 1nat,
{
    let ghost b0 = r.rest();
    let ghost p0 = r.pos as int;
    let mut list: Vec<Ipld> = Vec::new();
    let mut i: usize = 0;
    assert(nodes(list@) =~= Seq::<crate::value::Node>::empty());
    while i < len
        invariant
            r.wf(),
            r.data@ == old(r).data@,
            p0 == old(r).pos,
            b0 == old(r).rest(),
            r.pos >= p0,
            i <= len,
            dec_list(b0, len as nat) == match dec_list(r.rest(), (len - i) as nat) {
                Ok((vs, k)) => Ok((nodes(list@) + vs, (r.pos - p0 + k) as nat)),
                Err(e) => Err(e),
            },
        decreases len - i,
    {
        let ghost before = *r;
        let ghost before_list = list@;
        match read(r) {
            Ok(v) => {
                list.push(v);
            },
            Err(e) => return Err(e),
        }
        i = i + 1;
        proof {
            assert(r.rest() =~= before.rest().subrange(r.pos - before.pos, before.rest().len() as int));
            assert(nodes(list@) =~= nodes(before_list) + seq![list@.last().node()]);
            match dec_list(r.rest(), (len - i) as nat) {
                Ok((vs, k)) => {
                    assert(nodes(before_list) + (seq![list@.last().node()] + vs) =~= nodes(list@) + vs);
                },
                Err(e) => {},
            }
        }
    }
    proof {
        assert(nodes(list@) + Seq::<crate::value::Node>::empty() =~= nodes(list@));
    }
    Ok(list)
}

/// Reads `len` key-value pairs into a map; a later pair with the same key
/// replaces an earlier one.
pub fn read_map(r: &mut ByteReader, len: usize) -> (res: Result<Vec<(String, Ipld)>, CodecError>)
    requires
        old(r).wf(),
    ensures
        final(r).wf(),
        final(r).data@ == old(r).data@,
        match dec_dict(old(r).rest(), len as nat, Seq::empty()) {
            Ok((es, k)) => res is Ok && entries(res->Ok_0@) == es && final(r).advanced(*old(r), k as int),
            Err(e) => res == Err::<Vec<(String, Ipld)>, CodecError>(e),
        },
    decreases old(r).rest().len(), 1nat,
{
    let ghost b0 = r.rest();
    let ghost p0 = r.pos as int;
    let mut map: Vec<(String, Ipld)> = Vec::new();
    let mut i: usize = 0;
    assert(entries(map@) =~= Seq::<(Seq<char>, crate::value::Node)>::empty());
    while i < len
        invariant
            r.wf(),
            r.data@ == old(r).data@,
            p0 == old(r).pos,
            b0 == old(r).rest(),
            r.pos >= p0,
            i <= len,
            dec_dict(b0, len as nat, Seq::empty()) == match dec_dict(r.rest(), (len - i) as nat, entries(map@)) {
                Ok((es, k)) => Ok((es, (r.pos - p0 + k) as nat)),
                Err(e) => Err(e),
            },
        decreases len - i,
    {
        let ghost before = *r;
        let key = match read_text(r) {
            Ok(k) => k,
            Err(e) => return Err(e),
        };
        proof {
            assert(r.rest() =~= before.rest().subrange(r.pos - before.pos, before.rest().len() as int));
        }
        let value = match read(r) {
            Ok(v) => v,
            Err(e) => return Err(e),
        };
        dict_insert(&mut map, key, value);
        i = i + 1;
        proof {
            assert(r.rest() =~= before.rest().subrange(r.pos - before.pos, before.rest().len() as int));
        }
    }
    Ok(map)
}

/// Reads a text string and fails with `UnexpectedKey` unless it is `key`.
pub fn read_key(r: &mut ByteReader, key: &str) -> (res: Result<(), CodecError>)
    requires
        old(r).wf(),
    ensures
        final(r).wf(),
        final(r).data@ == old(r).data@,
        match dec_text(old(r).rest()) {
            Ok((s, k)) => final(r).advanced(*old(r), k as int) && (s == key@ ==> res == Ok::<(), CodecError>(()))
                && (s != key@ ==> res == Err::<(), CodecError>(CodecError::UnexpectedKey)),
            Err(e) => res == Err::<(), CodecError>(e),
        },
{
    let s = match read_text(r) {
        Ok(s) => s,
        Err(e) => return Err(e),
    };
    if compare_keys(s.as_str(), key) == 0 {
        Ok(())
    } else {
        Err(CodecError::UnexpectedKey)
    }
}

} // verus!
