//! Maps as vectors of entries in strictly increasing key order.
use vstd::prelude::*;
use vstd::utf8::*;
use crate::value::{entries, Ipld, Node};
use crate::wire::{bytes_lt, key_lt, map_insert, sorted};

verus! {

broadcast use vstd::utf8::group_utf8_lib;

proof fn lemma_bytes_lt_skip(a: Seq<u8>, b: Seq<u8>, i: int)
    requires
        0 <= i <= a.len(),
        i <= b.len(),
        a.take(i) == b.take(i),
    ensures
        bytes_lt(a, b) == bytes_lt(a.skip(i), b.skip(i)),
    decreases i,
{
    if i > 0 {
        assert(a[0] == a.take(i)[0]);
        assert(b[0] == b.take(i)[0]);
        assert(a.drop_first().take(i - 1) =~= a.take(i).drop_first());
        assert(b.drop_first().take(i - 1) =~= b.take(i).drop_first());
        lemma_bytes_lt_skip(a.drop_first(), b.drop_first(), i - 1);
        assert(a.drop_first().skip(i - 1) =~= a.skip(i));
        assert(b.drop_first().skip(i - 1) =~= b.skip(i));
    } else {
        assert(a.skip(0) =~= a);
        assert(b.skip(0) =~= b);
    }
}

/// Byte order is total and strict.
pub proof fn lemma_bytes_lt_order(a: Seq<u8>, b: Seq<u8>)
    ensures
        !(bytes_lt(a, b) && bytes_lt(b, a)),
        a != b ==> bytes_lt(a, b) || bytes_lt(b, a),
        !bytes_lt(a, a),
    decreases a.len(),
{
    if a.len() > 0 {
        lemma_bytes_lt_order(a.drop_first(), a.drop_first());
    }
    if a.len() > 0 && b.len() > 0 {
        lemma_bytes_lt_order(a.drop_first(), b.drop_first());
        if a[0] == b[0] && a != b {
            assert(a.drop_first() != b.drop_first()) by {
                if a.drop_first() == b.drop_first() {
                    assert(a =~= seq![a[0]] + a.drop_first());
                    assert(b =~= seq![b[0]] + b.drop_first());
                }
            }
        }
    } else if a.len() == 0 && b.len() == 0 {
        assert(a =~= b);
    }
}

/// Key order is total and strict.
pub proof fn lemma_key_lt_order(a: Seq<char>, b: Seq<char>)
    ensures
        !(key_lt(a, b) && key_lt(b, a)),
        a != b ==> key_lt(a, b) || key_lt(b, a),
        !key_lt(a, a),
{
    lemma_bytes_lt_order(encode_utf8(a), encode_utf8(b));
    lemma_bytes_lt_order(encode_utf8(a), encode_utf8(a));
    if a != b {
        encode_utf8_decode_utf8(a);
        encode_utf8_decode_utf8(b);
    }
}

/// Compares two keys by their UTF-8 bytes: negative, zero or positive.
pub fn compare_keys(a: &str, b: &str) -> (r: i8)
    ensures
        r < 0 <==> key_lt(a@, b@),
        r == 0 <==> a@ == b@,
{
    let ab = a.as_bytes();
    let bb = b.as_bytes();
    proof {
        lemma_key_lt_order(a@, b@);
    }
    let mut i: usize = 0;
    while i < ab.len() && i < bb.len()
        invariant
            i <= ab@.len(),
            i <= bb@.len(),
            ab@.take(i as int) == bb@.take(i as int),
            ab@ == encode_utf8(a@),
            bb@ == encode_utf8(b@),
        decreases ab@.len() - i,
    {
        if ab[i] != bb[i] {
            proof {
                lemma_bytes_lt_skip(ab@, bb@, i as int);
                encode_utf8_decode_utf8(a@);
                encode_utf8_decode_utf8(b@);
                assert(ab@[i as int] == ab@.skip(i as int)[0]);
                assert(bb@[i as int] == bb@.skip(i as int)[0]);
                assert(ab@ == encode_utf8(a@));
                assert(bb@ == encode_utf8(b@));
                assert(bytes_lt(ab@.skip(i as int), bb@.skip(i as int)) == (ab@[i as int] < bb@[i as int]));
            }
            if ab[i] < bb[i] {
                return -1;
            } else {
                return 1;
            }
        }
        i = i + 1;
        assert(ab@.take(i as int) =~= ab@.take(i - 1).push(ab@[i - 1]));
        assert(bb@.take(i as int) =~= bb@.take(i - 1).push(bb@[i - 1]));
    }
    proof {
        lemma_bytes_lt_skip(ab@, bb@, i as int);
        encode_utf8_decode_utf8(a@);
        encode_utf8_decode_utf8(b@);
        if ab@.len() == bb@.len() {
            assert(ab@ =~= ab@.take(i as int));
            assert(bb@ =~= bb@.take(i as int));
        }
    }
    if ab.len() < bb.len() {
        -1
    } else if ab.len() == bb.len() {
        0
    } else {
        1
    }
}

pub proof fn lemma_map_insert_skip<V>(m: Seq<(Seq<char>, V)>, k: Seq<char>, v: V, i: int)
    requires
        0 <= i <= m.len(),
        forall|j: int| 0 <= j < i ==> m[j].0 != k && !key_lt(k, #[trigger] m[j].0),
    ensures
        map_insert(m, k, v) == m.take(i) + map_insert(m.skip(i), k, v),
    decreases i,
{
    if i > 0 {
        lemma_map_insert_skip(m.drop_first(), k, v, i - 1);
        assert(m.drop_first().skip(i - 1) =~= m.skip(i));
        assert(m.take(i) =~= seq![m[0]] + m.drop_first().take(i - 1));
    } else {
        assert(m.skip(0) =~= m);
    }
}

/// Binds `k` to `v` in the map `m`.
pub fn dict_insert(m: &mut Vec<(String, Ipld)>, k: String, v: Ipld)
    ensures
        entries(final(m)@) == map_insert(entries(old(m)@), k@, v.node()),
{
    let ghost e0 = entries(m@);
    let mut i: usize = 0;
    while i < m.len()
        invariant
            m@ == old(m)@,
            e0 == entries(m@),
            i <= m@.len(),
            forall|j: int| 0 <= j < i ==> e0[j].0 != k@ && !key_lt(k@, #[trigger] e0[j].0),
        decreases m@.len() - i,
    {
        let c = compare_keys(k.as_str(), m[i].0.as_str());
        if c == 0 {
            proof {
                lemma_map_insert_skip(e0, k@, v.node(), i as int);
            }
            let ghost kv = k@;
            let ghost vn = v.node();
            m.set(i, (k, v));
            assert(entries(m@) =~= e0.take(i as int) + map_insert(e0.skip(i as int), kv, vn));
            return;
        } else if c < 0 {
            proof {
                lemma_map_insert_skip(e0, k@, v.node(), i as int);
            }
            let ghost kv = k@;
            let ghost vn = v.node();
            m.insert(i, (k, v));
            assert(entries(m@) =~= e0.take(i as int) + map_insert(e0.skip(i as int), kv, vn));
            return;
        }
        i = i + 1;
    }
    proof {
        lemma_map_insert_skip(e0, k@, v.node(), i as int);
    }
    let ghost kv = k@;
    let ghost vn = v.node();
    m.push((k, v));
    assert(entries(m@) =~= e0.take(i as int) + map_insert(e0.skip(i as int), kv, vn));
}

/// Binding a key keeps a map sorted.
pub proof fn lemma_map_insert_sorted(m: Seq<(Seq<char>, Node)>, k: Seq<char>, v: Node)
    requires
        sorted(m),
    ensures
        sorted(map_insert(m, k, v)),
        map_insert(m, k, v).len() > 0,
        m.len() > 0 ==> map_insert(m, k, v)[0].0 == k || map_insert(m, k, v)[0].0 == m[0].0,
    decreases m.len(),
{
    if m.len() > 0 {
        lemma_key_lt_order(k, m[0].0);
        if m[0].0 != k && !key_lt(k, m[0].0) {
            let rest = m.drop_first();
            assert(sorted(rest)) by {
                assert forall|i: int| 0 <= i < rest.len() - 1 implies key_lt(#[trigger] rest[i].0, rest[i + 1].0) by {
                    assert(key_lt(m[i + 1].0, m[i + 2].0));
                }
            }
            lemma_map_insert_sorted(rest, k, v);
            let r = map_insert(m, k, v);
            let ri = map_insert(rest, k, v);
            assert(r == seq![m[0]] + ri);
            assert forall|i: int| 0 <= i < r.len() - 1 implies key_lt(#[trigger] r[i].0, r[i + 1].0) by {
                if i == 0 {
                    if rest.len() > 0 {
                        assert(key_lt(m[0].0, m[1].0));
                    }
                } else {
                    assert(r[i] == ri[i - 1]);
                    assert(r[i + 1] == ri[i]);
                }
            }
        } else if key_lt(k, m[0].0) {
            let r = map_insert(m, k, v);
            assert forall|i: int| 0 <= i < r.len() - 1 implies key_lt(#[trigger] r[i].0, r[i + 1].0) by {
                if i > 0 {
                    assert(r[i] == m[i - 1]);
                }
            }
        } else {
            let r = map_insert(m, k, v);
            assert forall|i: int| 0 <= i < r.len() - 1 implies key_lt(#[trigger] r[i].0, r[i + 1].0) by {
                assert(r[i].0 == m[i].0);
                assert(r[i + 1].0 == m[i + 1].0);
            }
        }
    }
}

/// Binding a key twice keeps only the later value.
pub proof fn lemma_map_insert_twice(m: Seq<(Seq<char>, Node)>, k: Seq<char>, v1: Node, v2: Node)
    ensures
        map_insert(map_insert(m, k, v1), k, v2) == map_insert(m, k, v2),
    decreases m.len(),
{
    if m.len() == 0 {
        assert(map_insert(map_insert(m, k, v1), k, v2) =~= map_insert(m, k, v2));
    } else if m[0].0 == k {
        assert(map_insert(map_insert(m, k, v1), k, v2) =~= map_insert(m, k, v2));
    } else if key_lt(k, m[0].0) {
        assert(map_insert(map_insert(m, k, v1), k, v2) =~= map_insert(m, k, v2));
    } else {
        lemma_map_insert_twice(m.drop_first(), k, v1, v2);
        let once = map_insert(m, k, v1);
        assert(once[0] == m[0]);
        assert(once.drop_first() =~= map_insert(m.drop_first(), k, v1));
        assert(map_insert(map_insert(m, k, v1), k, v2) =~= map_insert(m, k, v2));
    }
}

/// `acc` with each of the pairs `ps` bound in turn.
pub open spec fn insert_all(acc: Seq<(Seq<char>, Node)>, ps: Seq<(Seq<char>, Node)>) -> Seq<(Seq<char>, Node)>
    decreases ps.len(),
{
    if ps.len() == 0 {
        acc
    } else {
        insert_all(map_insert(acc, ps[0].0, ps[0].1), ps.drop_first())
    }
}

/// The map that binds the pairs in turn: sorted by key, a later pair replacing
/// an earlier one with the same key.
pub fn dict_from(pairs: Vec<(String, Ipld)>) -> (m: Vec<(String, Ipld)>)
    ensures
        sorted(entries(m@)),
        entries(m@) == insert_all(Seq::empty(), entries(pairs@)),
{
    let mut pairs = pairs;
    let mut m: Vec<(String, Ipld)> = Vec::new();
    let ghost target = insert_all(Seq::empty(), entries(pairs@));
    assert(entries(m@) =~= Seq::<(Seq<char>, Node)>::empty());
    while pairs.len() > 0
        invariant
            sorted(entries(m@)),
            insert_all(entries(m@), entries(pairs@)) == target,
        decreases pairs@.len(),
    {
        let ghost before = entries(m@);
        let ghost ps = entries(pairs@);
        let (k, v) = pairs.remove(0);
        proof {
            lemma_map_insert_sorted(before, k@, v.node());
            assert(entries(pairs@) =~= ps.drop_first());
        }
        dict_insert(&mut m, k, v);
    }
    m
}

} // verus!
