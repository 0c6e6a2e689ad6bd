//! Library-wide laws, stated and proved over the wire grammar.

use vstd::prelude::*;
use vstd::arithmetic::div_mod::lemma_fundamental_div_mod;
use vstd::utf8::{encode_utf8, encode_utf8_decode_utf8, encode_utf8_valid_utf8};
use crate::types::{has_shape, ValueModel, ValueType};
use crate::wire::{
    canon_entries, dec, dec_varint, dedup_first, enc, enc_cat, from_le4, from_le8, le4, le8,
    lemma_canon_push, lemma_dedup_contains, lemma_dedup_no_duplicates, map_insert,
    self_delimiting, unzigzag, varint, zigzag32, zigzag64,
};

verus! {

/// 128 raised to the power `k`.
pub open spec fn pow128(k: nat) -> nat
    decreases k,
{
    if k == 0 {
        1
    } else {
        128 * pow128((k - 1) as nat)
    }
}

/// A value below `128^k` has a varint of at most `k` bytes.
pub proof fn lemma_varint_len(n: nat, k: nat)
    requires
        n < pow128(k),
        k >= 1,
    ensures
        varint(n).len() <= k,
    decreases k,
{
    if n >= 128 {
        assert(k >= 2) by {
            if k == 1 {
                assert(pow128(0) == 1);
                assert(pow128(1) == 128);
            }
        }
        let q = n / 128;
        lemma_fundamental_div_mod(n as int, 128);
        assert(q < pow128((k - 1) as nat)) by {
            if q >= pow128((k - 1) as nat) {
                assert(128 * q >= 128 * pow128((k - 1) as nat)) by (nonlinear_arith)
                    requires
                        q >= pow128((k - 1) as nat),
                ;
            }
        }
        lemma_varint_len(q, (k - 1) as nat);
    }
}

/// Round trip of the varint layer: a varint followed by anything decodes
/// to its own value, consuming exactly its own bytes.
pub proof fn lemma_varint_roundtrip(n: nat, suffix: Seq<u8>)
    requires
        n < 0x10000000000000000,
    ensures
        dec_varint(varint(n) + suffix) == Option::Some((n, varint(n).len() as int)),
        varint(n).len() <= 10,
    decreases n,
{
    assert(pow128(10) == 0x400000000000000000) by {
        assert(pow128(0) == 1);
        assert(pow128(1) == 128);
        assert(pow128(2) == 0x4000);
        assert(pow128(3) == 0x200000);
        assert(pow128(4) == 0x10000000);
        assert(pow128(5) == 0x800000000);
        assert(pow128(6) == 0x40000000000);
        assert(pow128(7) == 0x2000000000000);
        assert(pow128(8) == 0x100000000000000);
        assert(pow128(9) == 0x8000000000000000);
        assert(pow128(10) == 128 * pow128(9));
    }
    lemma_varint_len(n, 10);
    let b = varint(n) + suffix;
    if n < 128 {
        assert(b[0] == n as u8);
    } else {
        lemma_fundamental_div_mod(n as int, 128);
        let q = n / 128;
        assert(b[0] == (128 + n % 128) as u8);
        assert(b.skip(1) =~= varint(q) + suffix);
        lemma_varint_roundtrip(q, suffix);
        assert(q < 0x8000000000000000) by {
            if q >= 0x8000000000000000 {
                assert(128 * q >= 128 * 0x8000000000000000nat) by (nonlinear_arith)
                    requires
                        q >= 0x8000000000000000nat,
                ;
            }
        }
        lemma_varint_len(q, 9);
        assert(128 * q + ((b[0] - 128) as nat) == n);
    }
}

/// Round trip of zig-zag folding, and its range.
pub proof fn lemma_zigzag32_roundtrip(x: i32)
    ensures
        zigzag32(x) < 0x100000000,
        unzigzag(zigzag32(x)) == x as int,
{
    let xi = x as int;
    if x >= 0 {
        assert((2 * xi) % 2 == 0);
        assert((2 * xi) / 2 == xi);
    } else {
        assert(-2 * xi - 1 == 2 * (-xi - 1) + 1);
        assert((2 * (-xi - 1) + 1) % 2 == 1);
        assert((2 * (-xi - 1) + 1) / 2 == -xi - 1);
    }
}

/// Round trip of zig-zag folding for the 64-bit case.
pub proof fn lemma_zigzag64_roundtrip(x: i64)
    ensures
        zigzag64(x) < 0x10000000000000000,
        unzigzag(zigzag64(x)) == x as int,
{
    let xi = x as int;
    if x >= 0 {
        assert((2 * xi) % 2 == 0);
        assert((2 * xi) / 2 == xi);
    } else {
        assert(-2 * xi - 1 == 2 * (-xi - 1) + 1);
        assert((2 * (-xi - 1) + 1) % 2 == 1);
        assert((2 * (-xi - 1) + 1) / 2 == -xi - 1);
    }
}

/// Whether every string inside a model value has a byte form that fits a
/// 64-bit length, as any value held in memory does.
pub open spec fn bounded_text(v: ValueModel) -> bool
    decreases v,
{
    match v {
        ValueModel::Text(s) => encode_utf8(s).len() < 0x10000000000000000,
        ValueModel::Tuple(vs) => forall|i: int|
            0 <= i < vs.len() ==> bounded_text(#[trigger] vs[i]),
        ValueModel::List(vs) => forall|i: int|
            0 <= i < vs.len() ==> bounded_text(#[trigger] vs[i]),
        ValueModel::DedupSet(vs) => forall|i: int|
            0 <= i < vs.len() ==> bounded_text(#[trigger] vs[i]),
        ValueModel::KeyMap(es) => forall|i: int|
            0 <= i < es.len() ==> bounded_text((#[trigger] es[i]).0) && bounded_text(es[i].1),
        _ => true,
    }
}

/// Whether a shape holds no four-slot tuple anywhere.
pub open spec fn quad_free(t: ValueType) -> bool
    decreases t,
{
    match t {
        ValueType::Quad(_, _, _, _) => false,
        ValueType::Pair(a, b) => quad_free(*a) && quad_free(*b),
        ValueType::Triple(a, b, c) => quad_free(*a) && quad_free(*b) && quad_free(*c),
        ValueType::List(et) => quad_free(*et),
        ValueType::DedupSet(et) => quad_free(*et),
        ValueType::KeyMap(kt, vt) => quad_free(*kt) && quad_free(*vt),
        _ => true,
    }
}

/// Round trip: a value of a self-delimiting shape other than a four-slot
/// tuple, encoded and followed by anything, decodes back to itself,
/// consuming exactly its own bytes.  (A container's envelope runs to the
/// end of the buffer it is read from, so containers round-trip only from
/// their own exact buffer.)
#[verifier::rlimit(100)]
pub proof fn lemma_round_trip(v: ValueModel, t: ValueType, suffix: Seq<u8>)
    requires
        has_shape(v, t),
        self_delimiting(t),
        bounded_text(v),
        quad_free(t),
    ensures
        dec(t, enc(v) + suffix) == Option::Some((v, enc(v).len() as int)),
    decreases v, 1int,
{
    let b = enc(v) + suffix;
    match v {
        ValueModel::Bool(x) => {
            assert(b[0] == if x { 1u8 } else { 0u8 });
        },
        ValueModel::U32(x) => {
            lemma_varint_roundtrip(x as nat, suffix);
        },
        ValueModel::U64(x) => {
            lemma_varint_roundtrip(x as nat, suffix);
        },
        ValueModel::I32(x) => {
            lemma_zigzag32_roundtrip(x);
            lemma_varint_roundtrip(zigzag32(x), suffix);
        },
        ValueModel::I64(x) => {
            lemma_zigzag64_roundtrip(x);
            lemma_varint_roundtrip(zigzag64(x), suffix);
        },
        ValueModel::F32Bits(x) => {
            lemma_from_le4(x, b);
        },
        ValueModel::F64Bits(x) => {
            lemma_from_le8(x, b);
        },
        ValueModel::Text(s) => {
            let bytes = encode_utf8(s);
            encode_utf8_valid_utf8(s);
            encode_utf8_decode_utf8(s);
            lemma_varint_roundtrip(bytes.len(), bytes + suffix);
            let k = varint(bytes.len()).len() as int;
            assert(b =~= varint(bytes.len()) + (bytes + suffix));
            assert(b.subrange(k, k + bytes.len() as int) =~= bytes);
        },
        ValueModel::Unit => {},
        ValueModel::Tuple(_) => {
            match t {
                ValueType::Pair(_, _) => lemma_round_trip_pair(v, t, suffix),
                ValueType::Triple(_, _, _) => lemma_round_trip_triple(v, t, suffix),
                _ => {},
            }
        },
        _ => {},
    }
}

/// Idempotent flush: encoding is a pure function of the value, so two
/// encodings of the same value are byte-identical.
pub proof fn lemma_encode_deterministic(v: ValueModel, b1: Seq<u8>, b2: Seq<u8>)
    requires
        b1 == enc(v),
        b2 == enc(v),
    ensures
        b1 == b2,
{
}

/// Truncated input: a buffer that ends mid-varint decodes to no value.
/// Every strict prefix of a varint is malformed.
pub proof fn lemma_truncated_varint(n: nat, b: Seq<u8>)
    requires
        b.len() < varint(n).len(),
        b == varint(n).take(b.len() as int),
    ensures
        dec_varint(b) is None,
    decreases n,
{
    if b.len() > 0 {
        assert(b[0] == varint(n)[0]);
        assert(n >= 128);
        assert(b.skip(1) =~= varint(n / 128).take(b.len() - 1));
        lemma_truncated_varint(n / 128, b.skip(1));
    }
}

/// Set dedup: a decoded set holds no duplicates, and holds exactly the
/// members that appeared on the wire, so its size is the number of
/// distinct values.
pub proof fn lemma_set_dedup(s: Seq<ValueModel>)
    ensures
        dedup_first(s).no_duplicates(),
        forall|x: ValueModel| #[trigger] dedup_first(s).contains(x) == s.contains(x),
{
    lemma_dedup_no_duplicates(s);
    assert forall|x: ValueModel| #[trigger] dedup_first(s).contains(x) == s.contains(x) by {
        lemma_dedup_contains(s, x);
    }
}

/// What a key maps to in an entry sequence: the value of its first
/// occurrence, if any.
pub open spec fn map_lookup(es: Seq<(ValueModel, ValueModel)>, k: ValueModel) -> Option<ValueModel>
    decreases es.len(),
{
    if es.len() == 0 {
        Option::None
    } else if es[0].0 == k {
        Option::Some(es[0].1)
    } else {
        map_lookup(es.drop_first(), k)
    }
}

/// An insertion binds its own key to the new value and leaves every other
/// key's binding unchanged.
pub proof fn lemma_insert_lookup(
    m: Seq<(ValueModel, ValueModel)>,
    k: ValueModel,
    v: ValueModel,
    k2: ValueModel,
)
    ensures
        map_lookup(map_insert(m, k, v), k) == Option::Some(v),
        k2 != k ==> map_lookup(map_insert(m, k, v), k2) == map_lookup(m, k2),
    decreases m.len(),
{
    if m.len() == 0 {
        assert((seq![(k, v)])[0] == (k, v));
        assert((seq![(k, v)]).drop_first() =~= Seq::<(ValueModel, ValueModel)>::empty());
        if k2 != k {
            assert(map_lookup(seq![(k, v)], k2) == map_lookup(
                (seq![(k, v)]).drop_first(),
                k2,
            ));
        }
    } else if m[0].0 == k {
        assert((seq![(k, v)] + m.drop_first())[0] == (k, v));
        assert((seq![(k, v)] + m.drop_first()).drop_first() =~= m.drop_first());
        if k2 != k {
            assert(map_lookup(seq![(k, v)] + m.drop_first(), k2) == map_lookup(
                m.drop_first(),
                k2,
            ));
            assert(map_lookup(m, k2) == map_lookup(m.drop_first(), k2));
        }
    } else {
        lemma_insert_lookup(m.drop_first(), k, v, k2);
        assert((seq![m[0]] + map_insert(m.drop_first(), k, v))[0] == m[0]);
        assert((seq![m[0]] + map_insert(m.drop_first(), k, v)).drop_first() =~= map_insert(
            m.drop_first(),
            k,
            v,
        ));
        if k2 != k && m[0].0 != k2 {
            assert(map_lookup(seq![m[0]] + map_insert(m.drop_first(), k, v), k2) == map_lookup(
                map_insert(m.drop_first(), k, v),
                k2,
            ));
            assert(map_lookup(m, k2) == map_lookup(m.drop_first(), k2));
        }
    }
}

/// Mapping overwrite: after the entries are processed left to right, a
/// key maps to the value of its latest entry.
pub proof fn lemma_mapping_overwrite(es: Seq<(ValueModel, ValueModel)>, k: ValueModel, v: ValueModel)
    ensures
        map_lookup(canon_entries(es.push((k, v))), k) == Option::Some(v),
{
    lemma_canon_push(es, k, v);
    lemma_insert_lookup(canon_entries(es), k, v, k);
}


/// The little-endian layer inverts itself: four bytes written from a
/// 32-bit word read back as that word.
pub proof fn lemma_from_le4(x: u32, b: Seq<u8>)
    requires
        b.len() >= 4,
        b[0] == le4(x)[0],
        b[1] == le4(x)[1],
        b[2] == le4(x)[2],
        b[3] == le4(x)[3],
    ensures
        from_le4(b) == x,
{
    assert((x as u8 as u32) | (((x >> 8) as u8 as u32) << 8) | (((x >> 16) as u8 as u32) << 16) | (
    ((x >> 24) as u8 as u32) << 24) == x) by (bit_vector);
}

/// The little-endian layer inverts itself for the 64-bit case.
pub proof fn lemma_from_le8(x: u64, b: Seq<u8>)
    requires
        b.len() >= 8,
        b[0] == le8(x)[0],
        b[1] == le8(x)[1],
        b[2] == le8(x)[2],
        b[3] == le8(x)[3],
        b[4] == le8(x)[4],
        b[5] == le8(x)[5],
        b[6] == le8(x)[6],
        b[7] == le8(x)[7],
    ensures
        from_le8(b) == x,
{
    assert((x as u8 as u64) | (((x >> 8) as u8 as u64) << 8) | (((x >> 16) as u8 as u64) << 16) | (
    ((x >> 24) as u8 as u64) << 24) | (((x >> 32) as u8 as u64) << 32) | (((x >> 40) as u8 as u64)
        << 40) | (((x >> 48) as u8 as u64) << 48) | (((x >> 56) as u8 as u64) << 56) == x)
        by (bit_vector);
}


/// One tuple arity of the round trip: the slots decode back left to
/// right.
#[verifier::rlimit(100)]
pub proof fn lemma_round_trip_pair(v: ValueModel, t: ValueType, suffix: Seq<u8>)
    requires
        has_shape(v, t),
        self_delimiting(t),
        bounded_text(v),
        quad_free(t),
        t is Pair,
    ensures
        dec(t, enc(v) + suffix) == Option::Some((v, enc(v).len() as int)),
    decreases v, 0int,
{
    let b = enc(v) + suffix;
    match v {
        ValueModel::Tuple(vs) => {
            match t {
                ValueType::Pair(t1, t2) => {
                    let e0 = enc(vs[0]);
                    let e1 = enc(vs[1]);
                    assert(enc_cat(vs, 0) == enc(vs[0]) + enc_cat(vs, 1));
                    assert(enc_cat(vs, 1) == enc(vs[1]) + enc_cat(vs, 2));
                    assert(enc_cat(vs, 2) =~= Seq::<u8>::empty());
                    assert(enc(v) =~= e0 + e1);
                    lemma_round_trip(vs[0], *t1, e1 + suffix);
                    assert(b =~= e0 + (e1 + suffix));
                    lemma_round_trip(vs[1], *t2, suffix);
                    assert(b.skip(e0.len() as int) =~= e1 + suffix);
                    assert(seq![vs[0], vs[1]] =~= vs);
                },
                
                _ => {},
            }
        },
        _ => {},
    }
}

/// One tuple arity of the round trip: the slots decode back left to
/// right.
#[verifier::rlimit(100)]
pub proof fn lemma_round_trip_triple(v: ValueModel, t: ValueType, suffix: Seq<u8>)
    requires
        has_shape(v, t),
        self_delimiting(t),
        bounded_text(v),
        quad_free(t),
        t is Triple,
    ensures
        dec(t, enc(v) + suffix) == Option::Some((v, enc(v).len() as int)),
    decreases v, 0int,
{
    let b = enc(v) + suffix;
    match v {
        ValueModel::Tuple(vs) => {
            match t {
                ValueType::Triple(t1, t2, t3) => {
                    let e0 = enc(vs[0]);
                    let e1 = enc(vs[1]);
                    let e2 = enc(vs[2]);
                    assert(enc_cat(vs, 0) == enc(vs[0]) + enc_cat(vs, 1));
                    assert(enc_cat(vs, 1) == enc(vs[1]) + enc_cat(vs, 2));
                    assert(enc_cat(vs, 2) == enc(vs[2]) + enc_cat(vs, 3));
                    assert(enc_cat(vs, 3) =~= Seq::<u8>::empty());
                    assert(enc_cat(vs, 2) =~= e2);
                    assert(enc_cat(vs, 1) =~= e1 + e2);
                    assert(enc(v) =~= e0 + (e1 + e2));
                    lemma_round_trip(vs[0], *t1, e1 + (e2 + suffix));
                    assert(b =~= e0 + (e1 + (e2 + suffix)));
                    lemma_round_trip(vs[1], *t2, e2 + suffix);
                    assert(b.skip(e0.len() as int) =~= e1 + (e2 + suffix));
                    lemma_round_trip(vs[2], *t3, suffix);
                    assert(b.skip(e0.len() + e1.len() as int) =~= e2 + suffix);
                    assert(seq![vs[0], vs[1], vs[2]] =~= vs);
                },
                
                _ => {},
            }
        },
        _ => {},
    }
}


} // verus!
