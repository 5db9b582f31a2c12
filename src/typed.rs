//! Reading into a given Rust type: each type claims the leading bytes that can
//! stand for a value of it, and declines the others so that the caller can tell
//! a mismatch of types from malformed input.
use vstd::prelude::*;
use crate::decode::{read_after, read_text, read_text_body, read_u16, read_u32, read_u64, read_u8, ByteReader};
use crate::endian::{be_value, lemma_be_value_bound, pow256};
use crate::error::CodecError;
use crate::value::{Ipld, Node};
use crate::dict::{compare_keys, lemma_map_insert_skip};
use crate::wire::{dec, dec_text, key_lt, map_insert, width};

verus! {

/// The argument of a head with additional information `info` (at most 27) whose
/// leading byte has been read, and how many further bytes it takes.
pub open spec fn arg_after(info: nat, b: Seq<u8>) -> Result<(nat, nat), CodecError> {
    if info < 24 {
        Ok((info, 0))
    } else if b.len() < width(info) {
        Err(CodecError::Io)
    } else {
        Ok((be_value(b.take(width(info) as int)), width(info)))
    }
}

/// What a type makes of the bytes `b` that follow the leading byte `major`:
/// `Ok(None)` where it declines the byte.
pub open spec fn read_result<T>(claimed: bool, arg: Result<(nat, nat), CodecError>, f: spec_fn(nat) -> T) -> Result<Option<(T, nat)>, CodecError> {
    if !claimed {
        Ok(None)
    } else {
        match arg {
            Ok((n, k)) => Ok(Some((f(n), k))),
            Err(e) => Err(e),
        }
    }
}

/// A negative integer `-1 - n` from the argument `n`, where `n` is at most `max`.
pub open spec fn negative_outcome(claimed: bool, arg: Result<(nat, nat), CodecError>, max: nat) -> Result<Option<(int, nat)>, CodecError> {
    if !claimed {
        Ok(None)
    } else {
        match arg {
            Ok((n, k)) => if n > max {
                Err(CodecError::NumberOutOfRange)
            } else {
                Ok(Some((-1 - n, k)))
            },
            Err(e) => Err(e),
        }
    }
}

/// A type that can be read from its leading byte `major` and the bytes after it.
pub trait TryReadCbor: Sized {
    /// What a value of the type stands for.
    type Model;

    spec fn model(v: Self) -> Self::Model;

    /// The outcome of reading after the leading byte `major` from `b`: what the
    /// value read stands for and the bytes taken, `None` where the type declines
    /// `major`, or an error.
    spec fn outcome(major: u8, b: Seq<u8>) -> Result<Option<(Self::Model, nat)>, CodecError>;

    fn try_read_cbor(r: &mut ByteReader, major: u8) -> (res: Result<Option<Self>, CodecError>)
        requires
            old(r).wf(),
        ensures
            final(r).wf(),
            final(r).data@ == old(r).data@,
            match Self::outcome(major, old(r).rest()) {
                Ok(Some((m, k))) => res is Ok && res->Ok_0 is Some && Self::model(res->Ok_0->Some_0) == m
                    && final(r).advanced(*old(r), k as int),
                Ok(None) => res == Ok::<Option<Self>, CodecError>(None) && *final(r) == *old(r),
                Err(e) => res == Err::<Option<Self>, CodecError>(e),
            },
    ;
}

/// Reads the argument of a head with additional information `info` (at most 27)
/// whose leading byte has been read.
fn read_arg_after(r: &mut ByteReader, info: u8) -> (res: Result<u64, CodecError>)
    requires
        old(r).wf(),
        info <= 27,
    ensures
        final(r).wf(),
        final(r).data@ == old(r).data@,
        match arg_after(info as nat, old(r).rest()) {
            Ok((n, k)) => res == Ok::<u64, CodecError>(n as u64) && n < 0x1_0000_0000_0000_0000
                && final(r).advanced(*old(r), k as int),
            Err(e) => res == Err::<u64, CodecError>(e),
        },
{
    let ghost b = r.rest();
    proof {
        reveal_with_fuel(pow256, 9);
        if info >= 24 && b.len() >= width(info as nat) {
            lemma_be_value_bound(b.take(width(info as nat) as int));
        }
    }
    if info < 24 {
        Ok(info as u64)
    } else if info == 24 {
        let res = read_u8(r);
        proof {
            if b.len() >= 1 {
                assert(b.take(1) =~= seq![b[0]]);
                assert(b.take(1).drop_last() =~= Seq::<u8>::empty());
            }
        }
        match res {
            Ok(v) => Ok(v as u64),
            Err(e) => Err(e),
        }
    } else if info == 25 {
        match read_u16(r) {
            Ok(v) => Ok(v as u64),
            Err(e) => Err(e),
        }
    } else if info == 26 {
        match read_u32(r) {
            Ok(v) => Ok(v as u64),
            Err(e) => Err(e),
        }
    } else {
        read_u64(r)
    }
}

impl TryReadCbor for bool {
    type Model = bool;

    open spec fn model(v: bool) -> bool {
        v
    }

    open spec fn outcome(major: u8, b: Seq<u8>) -> Result<Option<(bool, nat)>, CodecError> {
        if major == 0xf4 {
            Ok(Some((false, 0)))
        } else if major == 0xf5 {
            Ok(Some((true, 0)))
        } else {
            Ok(None)
        }
    }

    fn try_read_cbor(r: &mut ByteReader, major: u8) -> (res: Result<Option<bool>, CodecError>) {
        if major == 0xf4 {
            Ok(Some(false))
        } else if major == 0xf5 {
            Ok(Some(true))
        } else {
            Ok(None)
        }
    }
}

impl TryReadCbor for u64 {
    type Model = u64;

    open spec fn model(v: u64) -> u64 {
        v
    }

    open spec fn outcome(major: u8, b: Seq<u8>) -> Result<Option<(u64, nat)>, CodecError> {
        read_result(major <= 0x1b, arg_after(major as nat, b), |n: nat| n as u64)
    }

    fn try_read_cbor(r: &mut ByteReader, major: u8) -> (res: Result<Option<u64>, CodecError>) {
        if major > 0x1b {
            return Ok(None);
        }
        match read_arg_after(r, major) {
            Ok(n) => Ok(Some(n)),
            Err(e) => Err(e),
        }
    }
}

impl TryReadCbor for u32 {
    type Model = u32;

    open spec fn model(v: u32) -> u32 {
        v
    }

    open spec fn outcome(major: u8, b: Seq<u8>) -> Result<Option<(u32, nat)>, CodecError> {
        read_result(major <= 0x1a, arg_after(major as nat, b), |n: nat| n as u32)
    }

    fn try_read_cbor(r: &mut ByteReader, major: u8) -> (res: Result<Option<u32>, CodecError>) {
        if major > 0x1a {
            return Ok(None);
        }
        proof {
            reveal_with_fuel(pow256, 5);
            if major >= 24 && r.rest().len() >= width(major as nat) {
                lemma_be_value_bound(r.rest().take(width(major as nat) as int));
            }
        }
        match read_arg_after(r, major) {
            Ok(n) => Ok(Some(n as u32)),
            Err(e) => Err(e),
        }
    }
}

impl TryReadCbor for u16 {
    type Model = u16;

    open spec fn model(v: u16) -> u16 {
        v
    }

    open spec fn outcome(major: u8, b: Seq<u8>) -> Result<Option<(u16, nat)>, CodecError> {
        read_result(major <= 0x19, arg_after(major as nat, b), |n: nat| n as u16)
    }

    fn try_read_cbor(r: &mut ByteReader, major: u8) -> (res: Result<Option<u16>, CodecError>) {
        if major > 0x19 {
            return Ok(None);
        }
        proof {
            reveal_with_fuel(pow256, 5);
            if major >= 24 && r.rest().len() >= width(major as nat) {
                lemma_be_value_bound(r.rest().take(width(major as nat) as int));
            }
        }
        match read_arg_after(r, major) {
            Ok(n) => Ok(Some(n as u16)),
            Err(e) => Err(e),
        }
    }
}

impl TryReadCbor for u8 {
    type Model = u8;

    open spec fn model(v: u8) -> u8 {
        v
    }

    open spec fn outcome(major: u8, b: Seq<u8>) -> Result<Option<(u8, nat)>, CodecError> {
        read_result(major <= 0x18, arg_after(major as nat, b), |n: nat| n as u8)
    }

    fn try_read_cbor(r: &mut ByteReader, major: u8) -> (res: Result<Option<u8>, CodecError>) {
        if major > 0x18 {
            return Ok(None);
        }
        proof {
            reveal_with_fuel(pow256, 5);
            if major >= 24 && r.rest().len() >= width(major as nat) {
                lemma_be_value_bound(r.rest().take(width(major as nat) as int));
            }
        }
        match read_arg_after(r, major) {
            Ok(n) => Ok(Some(n as u8)),
            Err(e) => Err(e),
        }
    }
}

impl TryReadCbor for i64 {
    type Model = i64;

    open spec fn model(v: i64) -> i64 {
        v
    }

    /// A negative integer `-1 - n`; fails with `NumberOutOfRange` where that is
    /// below `i64::MIN`.
    open spec fn outcome(major: u8, b: Seq<u8>) -> Result<Option<(i64, nat)>, CodecError> {
        match negative_outcome(0x20 <= major <= 0x3b, arg_after((major as nat) % 32, b), 0x7fff_ffff_ffff_ffff) {
            Ok(Some((x, k))) => Ok(Some((x as i64, k))),
            Ok(None) => Ok(None),
            Err(e) => Err(e),
        }
    }

    fn try_read_cbor(r: &mut ByteReader, major: u8) -> (res: Result<Option<i64>, CodecError>) {
        if major < 0x20 || major > 0x3b {
            return Ok(None);
        }
        match read_arg_after(r, major - 0x20) {
            Ok(n) => if n > 0x7fff_ffff_ffff_ffff {
                Err(CodecError::NumberOutOfRange)
            } else {
                Ok(Some(-1 - (n as i64)))
            },
            Err(e) => Err(e),
        }
    }
}

impl TryReadCbor for i32 {
    type Model = i32;

    open spec fn model(v: i32) -> i32 {
        v
    }

    /// A negative integer `-1 - n`; fails with `NumberOutOfRange` where that is
    /// below `i32::MIN`.
    open spec fn outcome(major: u8, b: Seq<u8>) -> Result<Option<(i32, nat)>, CodecError> {
        match negative_outcome(0x20 <= major <= 0x3a, arg_after((major as nat) % 32, b), 0x7fff_ffff) {
            Ok(Some((x, k))) => Ok(Some((x as i32, k))),
            Ok(None) => Ok(None),
            Err(e) => Err(e),
        }
    }

    fn try_read_cbor(r: &mut ByteReader, major: u8) -> (res: Result<Option<i32>, CodecError>) {
        if major < 0x20 || major > 0x3a {
            return Ok(None);
        }
        match read_arg_after(r, major - 0x20) {
            Ok(n) => if n > 0x7fff_ffff {
                Err(CodecError::NumberOutOfRange)
            } else {
                Ok(Some(-1 - (n as i32)))
            },
            Err(e) => Err(e),
        }
    }
}

impl TryReadCbor for i16 {
    type Model = i16;

    open spec fn model(v: i16) -> i16 {
        v
    }

    /// A negative integer `-1 - n`; fails with `NumberOutOfRange` where that is
    /// below `i16::MIN`.
    open spec fn outcome(major: u8, b: Seq<u8>) -> Result<Option<(i16, nat)>, CodecError> {
        match negative_outcome(0x20 <= major <= 0x39, arg_after((major as nat) % 32, b), 0x7fff) {
            Ok(Some((x, k))) => Ok(Some((x as i16, k))),
            Ok(None) => Ok(None),
            Err(e) => Err(e),
        }
    }

    fn try_read_cbor(r: &mut ByteReader, major: u8) -> (res: Result<Option<i16>, CodecError>) {
        if major < 0x20 || major > 0x39 {
            return Ok(None);
        }
        match read_arg_after(r, major - 0x20) {
            Ok(n) => if n > 0x7fff {
                Err(CodecError::NumberOutOfRange)
            } else {
                Ok(Some(-1 - (n as i16)))
            },
            Err(e) => Err(e),
        }
    }
}

impl TryReadCbor for i8 {
    type Model = i8;

    open spec fn model(v: i8) -> i8 {
        v
    }

    /// A negative integer `-1 - n`; fails with `NumberOutOfRange` where that is
    /// below `i8::MIN`.
    open spec fn outcome(major: u8, b: Seq<u8>) -> Result<Option<(i8, nat)>, CodecError> {
        match negative_outcome(0x20 <= major <= 0x38, arg_after((major as nat) % 32, b), 0x7f) {
            Ok(Some((x, k))) => Ok(Some((x as i8, k))),
            Ok(None) => Ok(None),
            Err(e) => Err(e),
        }
    }

    fn try_read_cbor(r: &mut ByteReader, major: u8) -> (res: Result<Option<i8>, CodecError>) {
        if major < 0x20 || major > 0x38 {
            return Ok(None);
        }
        match read_arg_after(r, major - 0x20) {
            Ok(n) => if n > 0x7f {
                Err(CodecError::NumberOutOfRange)
            } else {
                Ok(Some(-1 - (n as i8)))
            },
            Err(e) => Err(e),
        }
    }
}

impl<T: TryReadCbor> TryReadCbor for Option<T> {
    type Model = Option<T::Model>;

    open spec fn model(v: Option<T>) -> Option<T::Model> {
        match v {
            Some(x) => Some(T::model(x)),
            None => None,
        }
    }

    /// Null (0xf6 or 0xf7) is `None`; any byte that `T` claims is `Some`.
    open spec fn outcome(major: u8, b: Seq<u8>) -> Result<Option<(Option<T::Model>, nat)>, CodecError> {
        if major == 0xf6 || major == 0xf7 {
            Ok(Some((None, 0)))
        } else {
            match T::outcome(major, b) {
                Ok(Some((v, k))) => Ok(Some((Some(v), k))),
                Ok(None) => Ok(None),
                Err(e) => Err(e),
            }
        }
    }

    fn try_read_cbor(r: &mut ByteReader, major: u8) -> (res: Result<Option<Option<T>>, CodecError>) {
        if major == 0xf6 || major == 0xf7 {
            return Ok(Some(None));
        }
        match T::try_read_cbor(r, major) {
            Ok(Some(v)) => Ok(Some(Some(v))),
            Ok(None) => Ok(None),
            Err(e) => Err(e),
        }
    }
}

impl TryReadCbor for String {
    type Model = Seq<char>;

    open spec fn model(v: String) -> Seq<char> {
        v@
    }

    /// A text string (0x60 to 0x7b).
    open spec fn outcome(major: u8, b: Seq<u8>) -> Result<Option<(Seq<char>, nat)>, CodecError> {
        if major < 0x60 || major > 0x7b {
            Ok(None)
        } else {
            match dec_text(seq![major] + b) {
                Ok((s, k)) => Ok(Some((s, (k - 1) as nat))),
                Err(e) => Err(e),
            }
        }
    }

    fn try_read_cbor(r: &mut ByteReader, major: u8) -> (res: Result<Option<String>, CodecError>) {
        if major < 0x60 || major > 0x7b {
            return Ok(None);
        }
        match read_text_body(r, major) {
            Ok(s) => Ok(Some(s)),
            Err(e) => Err(e),
        }
    }
}

/// The leading bytes that stand for a value: a head of major type 0 to 5 with
/// additional information up to 27, any tag byte, false, true, null, undefined
/// and the two float widths.
pub open spec fn ipld_claims(major: u8) -> bool {
    (major / 32 <= 5 && major % 32 <= 27) || major / 32 == 6 || (0xf4 <= major <= 0xf7) || major == 0xfa
        || major == 0xfb
}

impl TryReadCbor for Ipld {
    type Model = Node;

    open spec fn model(v: Ipld) -> Node {
        v.node()
    }

    open spec fn outcome(major: u8, b: Seq<u8>) -> Result<Option<(Node, nat)>, CodecError> {
        if !ipld_claims(major) {
            Ok(None)
        } else {
            match dec(seq![major] + b) {
                Ok((v, k)) => Ok(Some((v, (k - 1) as nat))),
                Err(e) => Err(e),
            }
        }
    }

    fn try_read_cbor(r: &mut ByteReader, major: u8) -> (res: Result<Option<Ipld>, CodecError>) {
        let claimed = (major / 32 <= 5 && major % 32 <= 27) || major / 32 == 6 || (0xf4 <= major && major <= 0xf7)
            || major == 0xfa || major == 0xfb;
        if !claimed {
            return Ok(None);
        }
        match read_after(r, major) {
            Ok(v) => Ok(Some(v)),
            Err(e) => Err(e),
        }
    }
}

/// `n` values of type `T` one after the other at the front of `b`: what they
/// stand for and the bytes taken; a leading byte that `T` declines is an
/// `UnexpectedCode` error.
pub open spec fn list_outcome<T: TryReadCbor>(b: Seq<u8>, n: nat) -> Result<(Seq<T::Model>, nat), CodecError>
    decreases n,
{
    if n == 0 {
        Ok((Seq::empty(), 0))
    } else if b.len() == 0 {
        Err(CodecError::Io)
    } else {
        match T::outcome(b[0], b.drop_first()) {
            Ok(Some((m, k))) => if k + 1 > b.len() {
                Err(CodecError::Io)
            } else {
                match list_outcome::<T>(b.subrange(k + 1 as int, b.len() as int), (n - 1) as nat) {
                    Ok((ms, k2)) => Ok((seq![m] + ms, k + 1 + k2)),
                    Err(e) => Err(e),
                }
            },
            Ok(None) => Err(CodecError::UnexpectedCode),
            Err(e) => Err(e),
        }
    }
}

impl<T: TryReadCbor> TryReadCbor for Vec<T> {
    type Model = Seq<T::Model>;

    open spec fn model(v: Vec<T>) -> Seq<T::Model> {
        Seq::new(v@.len(), |i: int| T::model(v@[i]))
    }

    /// A list (0x80 to 0x9b) of values of type `T`.
    open spec fn outcome(major: u8, b: Seq<u8>) -> Result<Option<(Seq<T::Model>, nat)>, CodecError> {
        if major < 0x80 || major > 0x9b {
            Ok(None)
        } else {
            match arg_after((major as nat) % 32, b) {
                Ok((n, h)) => if n > usize::MAX {
                    Err(CodecError::LengthOutOfRange)
                } else {
                    match list_outcome::<T>(b.subrange(h as int, b.len() as int), n) {
                        Ok((ms, k)) => Ok(Some((ms, h + k))),
                        Err(e) => Err(e),
                    }
                },
                Err(e) => Err(e),
            }
        }
    }

    fn try_read_cbor(r: &mut ByteReader, major: u8) -> (res: Result<Option<Vec<T>>, CodecError>) {
        if major < 0x80 || major > 0x9b {
            return Ok(None);
        }
        let ghost r_start = *r;
        let n = match read_arg_after(r, major - 0x80) {
            Ok(n) => n,
            Err(e) => return Err(e),
        };
        if n > usize::MAX as u64 {
            return Err(CodecError::LengthOutOfRange);
        }
        let len = n as usize;
        let ghost b0 = r.rest();
        let ghost p0 = r.pos as int;
        proof {
            assert(b0 =~= r_start.rest().subrange(p0 - r_start.pos, r_start.rest().len() as int));
        }
        let mut list: Vec<T> = Vec::new();
        let mut i: usize = 0;
        assert(Self::model(list) =~= Seq::<T::Model>::empty());
        assert(r_start.rest().subrange((p0 - r_start.pos) as int, r_start.rest().len() as int) =~= b0);
        while i < len
            invariant
                r_start == *old(r),
                r_start.wf(),
                p0 >= r_start.pos,
                Self::outcome(major, r_start.rest()) == match list_outcome::<T>(b0, len as nat) {
                    Ok((ms, k)) => Ok(Some((ms, (p0 - r_start.pos + k) as nat))),
                    Err(e) => Err(e),
                },
                r.wf(),
                r.data@ == r_start.data@,
                r.pos >= p0,
                i <= len,
                b0 == r_start.data@.subrange(p0, r_start.data@.len() as int),
                list_outcome::<T>(b0, len as nat) == match list_outcome::<T>(r.rest(), (len - i) as nat) {
                    Ok((ms, k)) => Ok((Self::model(list) + ms, (r.pos - p0 + k) as nat)),
                    Err(e) => Err(e),
                },
            decreases len - i,
        {
            let ghost before = *r;
            let ghost before_list = Self::model(list);
            match read_typed::<T>(r) {
                Ok(v) => {
                    list.push(v);
                },
                Err(e) => return Err(e),
            }
            i = i + 1;
            proof {
                assert(r.rest() =~= before.rest().subrange(r.pos - before.pos, before.rest().len() as int));
                assert(Self::model(list) =~= before_list + seq![T::model(list@.last())]);
                match list_outcome::<T>(r.rest(), (len - i) as nat) {
                    Ok((ms, k)) => {
                        assert(before_list + (seq![T::model(list@.last())] + ms) =~= Self::model(list) + ms);
                    },
                    Err(e) => {},
                }
            }
        }
        proof {
            assert(Self::model(list) + Seq::<T::Model>::empty() =~= Self::model(list));
        }
        Ok(Some(list))
    }
}

/// What the entries of a map with values of type `T` stand for.
pub open spec fn entry_models<T: TryReadCbor>(m: Seq<(String, T)>) -> Seq<(Seq<char>, T::Model)> {
    Seq::new(m.len(), |i: int| (m[i].0@, T::model(m[i].1)))
}

/// Binds `k` to `v` in the map `m`, kept in increasing key order.
pub fn entry_insert<T: TryReadCbor>(m: &mut Vec<(String, T)>, k: String, v: T)
    ensures
        entry_models(final(m)@) == map_insert(entry_models(old(m)@), k@, T::model(v)),
{
    let ghost e0 = entry_models(m@);
    let mut i: usize = 0;
    while i < m.len()
        invariant
            m@ == old(m)@,
            e0 == entry_models(m@),
            i <= m@.len(),
            forall|j: int| 0 <= j < i ==> e0[j].0 != k@ && !key_lt(k@, #[trigger] e0[j].0),
        decreases m@.len() - i,
    {
        let c = compare_keys(k.as_str(), m[i].0.as_str());
        if c <= 0 {
            proof {
                lemma_map_insert_skip(e0, k@, T::model(v), i as int);
            }
            let ghost kv = k@;
            let ghost vm = T::model(v);
            if c == 0 {
                m.set(i, (k, v));
            } else {
                m.insert(i, (k, v));
            }
            assert(entry_models(m@) =~= e0.take(i as int) + map_insert(e0.skip(i as int), kv, vm));
            return;
        }
        i = i + 1;
    }
    proof {
        lemma_map_insert_skip(e0, k@, T::model(v), i as int);
    }
    let ghost kv = k@;
    let ghost vm = T::model(v);
    m.push((k, v));
    assert(entry_models(m@) =~= e0.take(i as int) + map_insert(e0.skip(i as int), kv, vm));
}

/// `n` key-value pairs with values of type `T` at the front of `b`, bound in
/// turn into `acc`; a leading byte that `T` declines is an `UnexpectedCode` error.
pub open spec fn map_outcome<T: TryReadCbor>(b: Seq<u8>, n: nat, acc: Seq<(Seq<char>, T::Model)>) -> Result<(Seq<(Seq<char>, T::Model)>, nat), CodecError>
    decreases n,
{
    if n == 0 {
        Ok((acc, 0))
    } else {
        match dec_text(b) {
            Err(e) => Err(e),
            Ok((key, k1)) => if k1 >= b.len() {
                Err(CodecError::Io)
            } else {
                let c = b.subrange(k1 as int, b.len() as int);
                match T::outcome(c[0], c.drop_first()) {
                    Ok(Some((m, k2))) => if k1 + k2 + 1 > b.len() {
                        Err(CodecError::Io)
                    } else {
                        match map_outcome::<T>(b.subrange(k1 + k2 + 1 as int, b.len() as int), (n - 1) as nat, map_insert(acc, key, m)) {
                            Ok((es, k3)) => Ok((es, k1 + k2 + 1 + k3)),
                            Err(e) => Err(e),
                        }
                    },
                    Ok(None) => Err(CodecError::UnexpectedCode),
                    Err(e) => Err(e),
                }
            },
        }
    }
}

impl<T: TryReadCbor> TryReadCbor for Vec<(String, T)> {
    type Model = Seq<(Seq<char>, T::Model)>;

    open spec fn model(v: Vec<(String, T)>) -> Seq<(Seq<char>, T::Model)> {
        entry_models(v@)
    }

    /// A map (0xa0 to 0xbb) with text keys and values of type `T`, its entries
    /// in increasing key order, a later pair replacing an earlier one.
    open spec fn outcome(major: u8, b: Seq<u8>) -> Result<Option<(Seq<(Seq<char>, T::Model)>, nat)>, CodecError> {
        if major < 0xa0 || major > 0xbb {
            Ok(None)
        } else {
            match arg_after((major as nat) % 32, b) {
                Ok((n, h)) => if n > usize::MAX {
                    Err(CodecError::LengthOutOfRange)
                } else {
                    match map_outcome::<T>(b.subrange(h as int, b.len() as int), n, Seq::empty()) {
                        Ok((es, k)) => Ok(Some((es, h + k))),
                        Err(e) => Err(e),
                    }
                },
                Err(e) => Err(e),
            }
        }
    }

    fn try_read_cbor(r: &mut ByteReader, major: u8) -> (res: Result<Option<Vec<(String, T)>>, CodecError>) {
        if major < 0xa0 || major > 0xbb {
            return Ok(None);
        }
        let ghost r_start = *r;
        let n = match read_arg_after(r, major - 0xa0) {
            Ok(n) => n,
            Err(e) => return Err(e),
        };
        if n > usize::MAX as u64 {
            return Err(CodecError::LengthOutOfRange);
        }
        let len = n as usize;
        let ghost b0 = r.rest();
        let ghost p0 = r.pos as int;
        let mut map: Vec<(String, T)> = Vec::new();
        let mut i: usize = 0;
        assert(entry_models(map@) =~= Seq::<(Seq<char>, T::Model)>::empty());
        assert(r_start.rest().subrange((p0 - r_start.pos) as int, r_start.rest().len() as int) =~= b0);
        while i < len
            invariant
                r_start == *old(r),
                r_start.wf(),
                p0 >= r_start.pos,
                Self::outcome(major, r_start.rest()) == match map_outcome::<T>(b0, len as nat, Seq::empty()) {
                    Ok((es, k)) => Ok(Some((es, (p0 - r_start.pos + k) as nat))),
                    Err(e) => Err(e),
                },
                r.wf(),
                r.data@ == r_start.data@,
                r.pos >= p0,
                i <= len,
                b0 == r_start.data@.subrange(p0, r_start.data@.len() as int),
                map_outcome::<T>(b0, len as nat, Seq::empty()) == match map_outcome::<T>(r.rest(), (len - i) as nat, entry_models(map@)) {
                    Ok((es, k)) => Ok((es, (r.pos - p0 + k) as nat)),
                    Err(e) => Err(e),
                },
            decreases len - i,
        {
            let ghost before = *r;
            let key = match read_text(r) {
                Ok(k) => k,
                Err(e) => return Err(e),
            };
            proof {
                assert(r.rest() =~= before.rest().subrange(r.pos - before.pos, before.rest().len() as int));
            }
            let value = match read_typed::<T>(r) {
                Ok(v) => v,
                Err(e) => return Err(e),
            };
            entry_insert(&mut map, key, value);
            i = i + 1;
            proof {
                assert(r.rest() =~= before.rest().subrange(r.pos - before.pos, before.rest().len() as int));
            }
        }
        Ok(Some(map))
    }
}

/// Reads a leading byte and a value of type `T` after it; a byte that `T`
/// declines is an `UnexpectedCode` error.
pub fn read_typed<T: TryReadCbor>(r: &mut ByteReader) -> (res: Result<T, CodecError>)
    requires
        old(r).wf(),
    ensures
        final(r).wf(),
        final(r).data@ == old(r).data@,
        old(r).rest().len() == 0 ==> res == Err::<T, CodecError>(CodecError::Io),
        old(r).rest().len() > 0 ==> match T::outcome(old(r).rest()[0], old(r).rest().drop_first()) {
            Ok(Some((m, k))) => res is Ok && T::model(res->Ok_0) == m && final(r).advanced(*old(r), k + 1 as int),
            Ok(None) => res == Err::<T, CodecError>(CodecError::UnexpectedCode),
            Err(e) => res == Err::<T, CodecError>(e),
        },
{
    let ghost r0 = *r;
    let major = match read_u8(r) {
        Ok(m) => m,
        Err(e) => return Err(e),
    };
    assert(r.rest() =~= r0.rest().drop_first());
    match T::try_read_cbor(r, major) {
        Ok(Some(v)) => Ok(v),
        Ok(None) => Err(CodecError::UnexpectedCode),
        Err(e) => Err(e),
    }
}

} // verus!
