//! The wire grammar, stated as specification functions over byte sequences.
//!
//! Primitives use variable-length integers (signed ones zig-zag folded),
//! fixed-width little-endian words for floating-point bit patterns, and
//! length-prefixed UTF-8 for strings.  Containers use the double-encoding
//! scheme: every element is first encoded to its own complete byte buffer,
//! and that buffer is stored as a length-prefixed opaque blob inside an
//! outer envelope, so a generic decoder can recurse without knowing how
//! many bytes a nested element occupies.  Tuple elements, whose arity and
//! slot types are statically known, are laid out back to back instead.

use vstd::prelude::*;
use crate::types::{ValueModel, ValueType};
use vstd::utf8::{decode_utf8, encode_utf8, valid_utf8};

verus! {

/// The base-128 varint encoding: seven value bits per byte, least
/// significant group first, high bit set on every byte but the last.
pub open spec fn varint(n: nat) -> Seq<u8>
    decreases n,
{
    if n < 128 {
        seq![n as u8]
    } else {
        seq![(128 + n % 128) as u8] + varint(n / 128)
    }
}

/// Zig-zag folding of a 32-bit signed integer onto the unsigned line.
pub open spec fn zigzag32(x: i32) -> nat {
    if x >= 0 {
        (2 * (x as int)) as nat
    } else {
        (-2 * (x as int) - 1) as nat
    }
}

/// Zig-zag folding of a 64-bit signed integer onto the unsigned line.
pub open spec fn zigzag64(x: i64) -> nat {
    if x >= 0 {
        (2 * (x as int)) as nat
    } else {
        (-2 * (x as int) - 1) as nat
    }
}

/// The inverse of zig-zag folding.
pub open spec fn unzigzag(n: nat) -> int {
    if n % 2 == 0 {
        (n / 2) as int
    } else {
        -((n / 2) as int) - 1
    }
}

/// The four bytes of a 32-bit word, least significant first.
pub open spec fn le4(n: u32) -> Seq<u8> {
    seq![n as u8, (n >> 8) as u8, (n >> 16) as u8, (n >> 24) as u8]
}

/// The eight bytes of a 64-bit word, least significant first.
pub open spec fn le8(n: u64) -> Seq<u8> {
    seq![
        n as u8,
        (n >> 8) as u8,
        (n >> 16) as u8,
        (n >> 24) as u8,
        (n >> 32) as u8,
        (n >> 40) as u8,
        (n >> 48) as u8,
        (n >> 56) as u8,
    ]
}

/// The 32-bit word read from four bytes, least significant first.
pub open spec fn from_le4(b: Seq<u8>) -> u32 {
    (b[0] as u32) | ((b[1] as u32) << 8) | ((b[2] as u32) << 16) | ((b[3] as u32) << 24)
}

/// The 64-bit word read from eight bytes, least significant first.
pub open spec fn from_le8(b: Seq<u8>) -> u64 {
    (b[0] as u64) | ((b[1] as u64) << 8) | ((b[2] as u64) << 16) | ((b[3] as u64) << 24) | (
    (b[4] as u64) << 32) | ((b[5] as u64) << 40) | ((b[6] as u64) << 48) | ((b[7] as u64) << 56)
}

/// One envelope item: a tag byte, the blob's length, then the blob.
pub open spec fn frame(b: Seq<u8>) -> Seq<u8> {
    seq![10u8] + varint(b.len()) + b
}

/// One mapping entry message: a tagged key blob then a tagged value blob.
pub open spec fn entry_frame(kb: Seq<u8>, vb: Seq<u8>) -> Seq<u8> {
    seq![10u8] + varint(kb.len()) + kb + seq![18u8] + varint(vb.len()) + vb
}

/// The byte encoding of a model value.
pub open spec fn enc(v: ValueModel) -> Seq<u8>
    decreases v, 0int,
{
    match v {
        ValueModel::Bool(b) => seq![if b { 1u8 } else { 0u8 }],
        ValueModel::U32(x) => varint(x as nat),
        ValueModel::U64(x) => varint(x as nat),
        ValueModel::I32(x) => varint(zigzag32(x)),
        ValueModel::I64(x) => varint(zigzag64(x)),
        ValueModel::F32Bits(x) => le4(x),
        ValueModel::F64Bits(x) => le8(x),
        ValueModel::Text(s) => varint(encode_utf8(s).len()) + encode_utf8(s),
        ValueModel::Unit => Seq::empty(),
        ValueModel::Tuple(vs) => enc_cat(vs, 0),
        ValueModel::List(vs) => enc_items(vs, 0),
        ValueModel::DedupSet(vs) => enc_items(vs, 0),
        ValueModel::KeyMap(es) => enc_entries(es, 0),
    }
}

/// Tuple layout: the elements' encodings laid back to back.
pub open spec fn enc_cat(vs: Seq<ValueModel>, i: int) -> Seq<u8>
    decreases vs, vs.len() - i,
{
    if i < 0 || i >= vs.len() {
        Seq::empty()
    } else {
        enc(vs[i]) + enc_cat(vs, i + 1)
    }
}

/// Envelope layout for sequences and sets: one framed blob per element.
pub open spec fn enc_items(vs: Seq<ValueModel>, i: int) -> Seq<u8>
    decreases vs, vs.len() - i,
{
    if i < 0 || i >= vs.len() {
        Seq::empty()
    } else {
        frame(enc(vs[i])) + enc_items(vs, i + 1)
    }
}

/// Envelope layout for mappings: one framed entry message per entry.
pub open spec fn enc_entries(es: Seq<(ValueModel, ValueModel)>, i: int) -> Seq<u8>
    decreases es, es.len() - i,
{
    if i < 0 || i >= es.len() {
        Seq::empty()
    } else {
        frame(entry_frame(enc(es[i].0), enc(es[i].1))) + enc_entries(es, i + 1)
    }
}

/// Reads one varint from the front of a buffer: the value and the number
/// of bytes consumed.  At most ten bytes are read and the value must fit
/// in 64 bits; a buffer that ends mid-varint yields `None`.
pub open spec fn dec_varint(b: Seq<u8>) -> Option<(nat, int)>
    decreases b.len(),
{
    if b.len() == 0 {
        Option::None
    } else if b[0] < 128 {
        Option::Some((b[0] as nat, 1))
    } else {
        match dec_varint(b.skip(1)) {
            Option::Some((n, k)) => {
                if k <= 9 && 128 * n + ((b[0] - 128) as nat) < 0x10000000000000000 {
                    Option::Some((128 * n + ((b[0] - 128) as nat), k + 1))
                } else {
                    Option::None
                }
            },
            Option::None => Option::None,
        }
    }
}

/// Keeps the first occurrence of each member, in order of first appearance.
pub open spec fn dedup_first(s: Seq<ValueModel>) -> Seq<ValueModel>
    decreases s.len(),
{
    if s.len() == 0 {
        Seq::empty()
    } else {
        let front = dedup_first(s.drop_last());
        if s.drop_last().contains(s.last()) {
            front
        } else {
            front.push(s.last())
        }
    }
}

/// Inserts a key/value pair: an existing key keeps its position but takes
/// the new value; a fresh key is appended.
pub open spec fn map_insert(
    acc: Seq<(ValueModel, ValueModel)>,
    k: ValueModel,
    v: ValueModel,
) -> Seq<(ValueModel, ValueModel)>
    decreases acc.len(),
{
    if acc.len() == 0 {
        seq![(k, v)]
    } else if acc[0].0 == k {
        seq![(k, v)] + acc.drop_first()
    } else {
        seq![acc[0]] + map_insert(acc.drop_first(), k, v)
    }
}

/// Entries inserted left to right: a later entry with the same key
/// overwrites the earlier one.
pub open spec fn canon_entries(es: Seq<(ValueModel, ValueModel)>) -> Seq<(ValueModel, ValueModel)>
    decreases es.len(),
{
    if es.len() == 0 {
        Seq::empty()
    } else {
        map_insert(canon_entries(es.drop_last()), es.last().0, es.last().1)
    }
}

/// Whether a shape's encoding carries its own extent, so that a decoder
/// positioned at its first byte stops exactly at its last.  Containers do
/// not: their envelope runs to the end of the enclosing buffer.
pub open spec fn self_delimiting(t: ValueType) -> bool
    decreases t,
{
    match t {
        ValueType::List(_) => false,
        ValueType::DedupSet(_) => false,
        ValueType::KeyMap(_, _) => false,
        ValueType::Pair(a, b) => self_delimiting(*a) && self_delimiting(*b),
        ValueType::Triple(a, b, c) => self_delimiting(*a) && self_delimiting(*b)
            && self_delimiting(*c),
        ValueType::Quad(a, b, c, d) => self_delimiting(*a) && self_delimiting(*b)
            && self_delimiting(*c) && self_delimiting(*d),
        _ => true,
    }
}

/// Whether decoding can recover a value of this shape from exactly its own
/// encoding.  A container may stand only in the final slot of a tuple,
/// since its envelope consumes the rest of the stream it is read from.
pub open spec fn round_trip_shape(t: ValueType) -> bool
    decreases t,
{
    match t {
        ValueType::List(et) => round_trip_shape(*et),
        ValueType::DedupSet(et) => round_trip_shape(*et),
        ValueType::KeyMap(kt, vt) => round_trip_shape(*kt) && round_trip_shape(*vt),
        ValueType::Pair(a, b) => self_delimiting(*a) && round_trip_shape(*b),
        ValueType::Triple(a, b, c) => self_delimiting(*a) && self_delimiting(*b)
            && round_trip_shape(*c),
        ValueType::Quad(a, b, c, d) => self_delimiting(*a) && self_delimiting(*b)
            && self_delimiting(*c) && round_trip_shape(*d),
        _ => true,
    }
}

/// Reads one value of the given shape from the front of a buffer: the
/// value and the number of bytes consumed.  Container envelopes consume
/// the whole buffer; sets drop duplicate members and mappings let a later
/// key overwrite an earlier one.  `None` is a malformed encoding.
pub open spec fn dec(t: ValueType, b: Seq<u8>) -> Option<(ValueModel, int)>
    decreases t, b.len(), 1int,
{
    match t {
        ValueType::Bool => match dec_varint(b) {
            Option::Some((n, k)) => Option::Some((ValueModel::Bool(n != 0), k)),
            Option::None => Option::None,
        },
        ValueType::U32 => match dec_varint(b) {
            Option::Some((n, k)) => {
                if n < 0x100000000 {
                    Option::Some((ValueModel::U32(n as u32), k))
                } else {
                    Option::None
                }
            },
            Option::None => Option::None,
        },
        ValueType::U64 => match dec_varint(b) {
            Option::Some((n, k)) => Option::Some((ValueModel::U64(n as u64), k)),
            Option::None => Option::None,
        },
        ValueType::I32 => match dec_varint(b) {
            Option::Some((n, k)) => {
                if n < 0x100000000 {
                    Option::Some((ValueModel::I32(unzigzag(n) as i32), k))
                } else {
                    Option::None
                }
            },
            Option::None => Option::None,
        },
        ValueType::I64 => match dec_varint(b) {
            Option::Some((n, k)) => Option::Some((ValueModel::I64(unzigzag(n) as i64), k)),
            Option::None => Option::None,
        },
        ValueType::F32 => {
            if b.len() >= 4 {
                Option::Some((ValueModel::F32Bits(from_le4(b)), 4))
            } else {
                Option::None
            }
        },
        ValueType::F64 => {
            if b.len() >= 8 {
                Option::Some((ValueModel::F64Bits(from_le8(b)), 8))
            } else {
                Option::None
            }
        },
        ValueType::Text => match dec_varint(b) {
            Option::Some((n, k)) => {
                if k + n <= b.len() {
                    let bytes = b.subrange(k, k + n);
                    if valid_utf8(bytes) {
                        Option::Some((ValueModel::Text(decode_utf8(bytes)), k + n))
                    } else {
                        Option::None
                    }
                } else {
                    Option::None
                }
            },
            Option::None => Option::None,
        },
        ValueType::Unit => Option::Some((ValueModel::Unit, 0)),
        ValueType::Pair(t1, t2) => match dec(*t1, b) {
            Option::Some((v1, k1)) => match dec(*t2, b.skip(k1)) {
                Option::Some((v2, k2)) => Option::Some(
                    (ValueModel::Tuple(seq![v1, v2]), k1 + k2),
                ),
                Option::None => Option::None,
            },
            Option::None => Option::None,
        },
        ValueType::Triple(t1, t2, t3) => match dec(*t1, b) {
            Option::Some((v1, k1)) => match dec(*t2, b.skip(k1)) {
                Option::Some((v2, k2)) => match dec(*t3, b.skip(k1 + k2)) {
                    Option::Some((v3, k3)) => Option::Some(
                        (ValueModel::Tuple(seq![v1, v2, v3]), k1 + k2 + k3),
                    ),
                    Option::None => Option::None,
                },
                Option::None => Option::None,
            },
            Option::None => Option::None,
        },
        ValueType::Quad(t1, t2, t3, t4) => match dec(*t1, b) {
            Option::Some((v1, k1)) => match dec(*t2, b.skip(k1)) {
                Option::Some((v2, k2)) => match dec(*t3, b.skip(k1 + k2)) {
                    Option::Some((v3, k3)) => match dec(*t4, b.skip(k1 + k2 + k3)) {
                        Option::Some((v4, k4)) => Option::Some(
                            (ValueModel::Tuple(seq![v1, v2, v3, v4]), k1 + k2 + k3 + k4),
                        ),
                        Option::None => Option::None,
                    },
                    Option::None => Option::None,
                },
                Option::None => Option::None,
            },
            Option::None => Option::None,
        },
        ValueType::List(et) => match dec_items(*et, b) {
            Option::Some(vs) => Option::Some((ValueModel::List(vs), b.len() as int)),
            Option::None => Option::None,
        },
        ValueType::DedupSet(et) => match dec_items(*et, b) {
            Option::Some(vs) => Option::Some(
                (ValueModel::DedupSet(dedup_first(vs)), b.len() as int),
            ),
            Option::None => Option::None,
        },
        ValueType::KeyMap(_, _) => match dec_entries(t, b) {
            Option::Some(es) => Option::Some(
                (ValueModel::KeyMap(canon_entries(es)), b.len() as int),
            ),
            Option::None => Option::None,
        },
    }
}

/// Reads framed element blobs until the buffer ends, decoding each blob in
/// isolation.
pub open spec fn dec_items(t: ValueType, b: Seq<u8>) -> Option<Seq<ValueModel>>
    decreases t, b.len(), 0int,
{
    if b.len() == 0 {
        Option::Some(Seq::empty())
    } else if b[0] != 10u8 {
        Option::None
    } else {
        match dec_varint(b.skip(1)) {
            Option::Some((n, k)) => {
                if 1 <= k && 1 + k + n <= b.len() {
                    let blob = b.subrange(1 + k, 1 + k + n);
                    match dec(t, blob) {
                        Option::Some((v, _used)) => {
                            match dec_items(t, b.skip(1 + k + n)) {
                                Option::Some(vs) => Option::Some(seq![v] + vs),
                                Option::None => Option::None,
                            }
                        },
                        Option::None => Option::None,
                    }
                } else {
                    Option::None
                }
            },
            Option::None => Option::None,
        }
    }
}

/// Reads one entry message, which must consist of exactly a tagged key
/// blob followed by a tagged value blob, each decoded in isolation.
#[verifier::opaque]
pub open spec fn dec_entry(t: ValueType, e: Seq<u8>) -> Option<(ValueModel, ValueModel)>
    decreases t, e.len(), 1int,
{
    match t {
        ValueType::KeyMap(kt, vt) => {
            if e.len() == 0 || e[0] != 10u8 {
                Option::None
            } else {
                match dec_varint(e.skip(1)) {
                    Option::Some((kn, kk)) => {
                        if 1 <= kk && 1 + kk + kn + 1 <= e.len() && e[1 + kk + kn] == 18u8 {
                            let kblob = e.subrange(1 + kk, 1 + kk + kn);
                            match dec_varint(e.skip(1 + kk + kn + 1)) {
                                Option::Some((vn, vk)) => {
                                    if 1 <= vk && 1 + kk + kn + 1 + vk + vn == e.len() {
                                        let vblob = e.subrange(
                                            1 + kk + kn + 1 + vk,
                                            1 + kk + kn + 1 + vk + vn,
                                        );
                                        match (dec(*kt, kblob), dec(*vt, vblob)) {
                                            (
                                                Option::Some((kv, _)),
                                                Option::Some((vv, _)),
                                            ) => Option::Some((kv, vv)),
                                            _ => Option::None,
                                        }
                                    } else {
                                        Option::None
                                    }
                                },
                                Option::None => Option::None,
                            }
                        } else {
                            Option::None
                        }
                    },
                    Option::None => Option::None,
                }
            }
        },
        _ => Option::None,
    }
}

/// Reads framed entry messages until the buffer ends.
pub open spec fn dec_entries(t: ValueType, b: Seq<u8>) -> Option<Seq<(ValueModel, ValueModel)>>
    decreases t, b.len(), 0int,
{
    if b.len() == 0 {
        Option::Some(Seq::empty())
    } else if b[0] != 10u8 {
        Option::None
    } else {
        match dec_varint(b.skip(1)) {
            Option::Some((n, k)) => {
                if 1 <= k && 1 + k + n <= b.len() {
                    let entry = b.subrange(1 + k, 1 + k + n);
                    match dec_entry(t, entry) {
                        Option::Some(kv) => {
                            match dec_entries(t, b.skip(1 + k + n)) {
                                Option::Some(es) => Option::Some(seq![kv] + es),
                                Option::None => Option::None,
                            }
                        },
                        Option::None => Option::None,
                    }
                } else {
                    Option::None
                }
            },
            Option::None => Option::None,
        }
    }
}

/// A sequence contains a member exactly when its front part does or the
/// member is the last element.
pub proof fn lemma_contains_drop_last(s: Seq<ValueModel>, x: ValueModel)
    requires
        s.len() > 0,
    ensures
        s.contains(x) == (s.drop_last().contains(x) || s.last() == x),
{
    if s.contains(x) {
        let i = choose|i: int| 0 <= i < s.len() && s[i] == x;
        if i < s.len() - 1 {
            assert(s.drop_last()[i] == x);
        }
    }
    if s.drop_last().contains(x) {
        let i = choose|i: int| 0 <= i < s.drop_last().len() && s.drop_last()[i] == x;
        assert(s[i] == x);
    }
}

/// Appending an element dedups to either the old result or the old result
/// with the element appended, depending on earlier membership.
pub proof fn lemma_dedup_push(s: Seq<ValueModel>, x: ValueModel)
    ensures
        dedup_first(s.push(x)) == if s.contains(x) {
            dedup_first(s)
        } else {
            dedup_first(s).push(x)
        },
{
    assert(s.push(x).drop_last() =~= s);
    assert(s.push(x).last() == x);
}

/// Deduplication keeps exactly the members of the original sequence.
pub proof fn lemma_dedup_contains(s: Seq<ValueModel>, x: ValueModel)
    ensures
        dedup_first(s).contains(x) == s.contains(x),
    decreases s.len(),
{
    if s.len() > 0 {
        let front = s.drop_last();
        let last = s.last();
        lemma_dedup_contains(front, x);
        lemma_contains_drop_last(s, x);
        if front.contains(last) {
            if s.contains(x) && !front.contains(x) {
                assert(x == last);
            }
        } else {
            lemma_contains_drop_last(dedup_first(front).push(last), x);
            assert(dedup_first(front).push(last).drop_last() =~= dedup_first(front));
        }
    }
}

/// A deduplicated sequence has no duplicates.
pub proof fn lemma_dedup_no_duplicates(s: Seq<ValueModel>)
    ensures
        dedup_first(s).no_duplicates(),
    decreases s.len(),
{
    if s.len() > 0 {
        let front = s.drop_last();
        lemma_dedup_no_duplicates(front);
        if !front.contains(s.last()) {
            lemma_dedup_contains(front, s.last());
            let d = dedup_first(front).push(s.last());
            assert forall|i: int, j: int| 0 <= i < j < d.len() implies d[i] != d[j] by {
                if j < d.len() - 1 {
                    assert(dedup_first(front)[i] == d[i]);
                    assert(dedup_first(front)[j] == d[j]);
                } else {
                    assert(dedup_first(front)[i] == d[i]);
                    assert(dedup_first(front).contains(d[i]));
                }
            }
        }
    }
}

/// Deduplicating a sequence that already has pairwise-distinct members
/// leaves it unchanged.
pub proof fn lemma_dedup_distinct(s: Seq<ValueModel>)
    requires
        forall|i: int, j: int| 0 <= i < j < s.len() ==> s[i] != s[j],
    ensures
        dedup_first(s) == s,
    decreases s.len(),
{
    if s.len() > 0 {
        let front = s.drop_last();
        lemma_dedup_distinct(front);
        if front.contains(s.last()) {
            let i = choose|i: int| 0 <= i < front.len() && front[i] == s.last();
            assert(s[i] == s.last());
            assert(false);
        }
        assert(dedup_first(front).push(s.last()) =~= s);
    }
}

/// Inserting a key nobody holds appends the entry.
pub proof fn lemma_map_insert_absent(acc: Seq<(ValueModel, ValueModel)>, k: ValueModel, v: ValueModel)
    requires
        forall|i: int| 0 <= i < acc.len() ==> (#[trigger] acc[i]).0 != k,
    ensures
        map_insert(acc, k, v) == acc.push((k, v)),
    decreases acc.len(),
{
    if acc.len() == 0 {
        assert(map_insert(acc, k, v) =~= acc.push((k, v)));
    } else {
        assert forall|i: int| 0 <= i < acc.drop_first().len() implies (#[trigger] acc.drop_first()[
            i
        ]).0 != k by {
            assert(acc.drop_first()[i] == acc[i + 1]);
        }
        lemma_map_insert_absent(acc.drop_first(), k, v);
        assert(seq![acc[0]] + acc.drop_first().push((k, v)) =~= acc.push((k, v)));
    }
}

/// Inserting a key held first at position `j` overwrites that position.
pub proof fn lemma_map_insert_found(
    acc: Seq<(ValueModel, ValueModel)>,
    k: ValueModel,
    v: ValueModel,
    j: int,
)
    requires
        0 <= j < acc.len(),
        acc[j].0 == k,
        forall|i: int| 0 <= i < j ==> (#[trigger] acc[i]).0 != k,
    ensures
        map_insert(acc, k, v) == acc.update(j, (k, v)),
    decreases acc.len(),
{
    if j == 0 {
        assert(seq![(k, v)] + acc.drop_first() =~= acc.update(0, (k, v)));
    } else {
        assert forall|i: int| 0 <= i < j - 1 implies (#[trigger] acc.drop_first()[i]).0 != k by {
            assert(acc.drop_first()[i] == acc[i + 1]);
        }
        assert(acc.drop_first()[j - 1] == acc[j]);
        lemma_map_insert_found(acc.drop_first(), k, v, j - 1);
        assert(seq![acc[0]] + acc.drop_first().update(j - 1, (k, v)) =~= acc.update(j, (k, v)));
    }
}

/// Processing one more entry is one insertion into the canonical form.
pub proof fn lemma_canon_push(es: Seq<(ValueModel, ValueModel)>, k: ValueModel, v: ValueModel)
    ensures
        canon_entries(es.push((k, v))) == map_insert(canon_entries(es), k, v),
{
    assert(es.push((k, v)).drop_last() =~= es);
    assert(es.push((k, v)).last() == (k, v));
}

/// Canonicalizing entries whose keys are already pairwise distinct leaves
/// them unchanged.
pub proof fn lemma_canon_distinct(es: Seq<(ValueModel, ValueModel)>)
    requires
        forall|i: int, j: int| 0 <= i < j < es.len() ==> (#[trigger] es[i]).0 != (#[trigger] es[j]).0,
    ensures
        canon_entries(es) == es,
    decreases es.len(),
{
    if es.len() > 0 {
        let front = es.drop_last();
        assert forall|i: int, j: int| 0 <= i < j < front.len() implies (#[trigger] front[i]).0 != (
        #[trigger] front[j]).0 by {
            assert(front[i] == es[i]);
            assert(front[j] == es[j]);
        }
        lemma_canon_distinct(front);
        assert forall|i: int| 0 <= i < front.len() implies (#[trigger] front[i]).0
            != es.last().0 by {
            assert(front[i] == es[i]);
        }
        lemma_map_insert_absent(front, es.last().0, es.last().1);
        assert(front.push(es.last()) =~= es);
        assert(front.push((es.last().0, es.last().1)) =~= es);
    }
}

/// One successfully parsed frame peels one element off the item envelope.
pub proof fn lemma_dec_items_step(
    t: ValueType,
    b: Seq<u8>,
    n: nat,
    k: int,
    vm: ValueModel,
    used: int,
)
    requires
        b.len() > 0,
        b[0] == 10u8,
        dec_varint(b.skip(1)) == Option::Some((n, k)),
        1 <= k,
        1 + k + n <= b.len(),
        dec(t, b.subrange(1 + k, 1 + k + n)) == Option::Some((vm, used)),
    ensures
        dec_items(t, b) == match dec_items(t, b.skip(1 + k + n)) {
            Option::Some(vs) => Option::Some(seq![vm] + vs),
            Option::None => Option::None::<Seq<ValueModel>>,
        },
{
}

/// One successfully parsed frame peels one entry off the mapping envelope.
pub proof fn lemma_dec_entries_step(
    t: ValueType,
    b: Seq<u8>,
    n: nat,
    k: int,
    kv: ValueModel,
    vv: ValueModel,
)
    requires
        b.len() > 0,
        b[0] == 10u8,
        dec_varint(b.skip(1)) == Option::Some((n, k)),
        1 <= k,
        1 + k + n <= b.len(),
        dec_entry(t, b.subrange(1 + k, 1 + k + n)) == Option::Some((kv, vv)),
    ensures
        dec_entries(t, b) == match dec_entries(t, b.skip(1 + k + n)) {
            Option::Some(es) => Option::Some(seq![(kv, vv)] + es),
            Option::None => Option::None::<Seq<(ValueModel, ValueModel)>>,
        },
{
    reveal(dec_entry);
}

/// A frame whose entry message is malformed makes the whole envelope
/// malformed.
pub proof fn lemma_dec_entries_step_none(t: ValueType, b: Seq<u8>, n: nat, k: int)
    requires
        b.len() > 0,
        b[0] == 10u8,
        dec_varint(b.skip(1)) == Option::Some((n, k)),
        1 <= k,
        1 + k + n <= b.len(),
        dec_entry(t, b.subrange(1 + k, 1 + k + n)) is None,
    ensures
        dec_entries(t, b) is None,
{
    reveal(dec_entry);
}

/// Reads one length-delimited envelope message from the front of a buffer:
/// the message's own bytes and the total number of bytes consumed.
pub open spec fn spec_read_message(b: Seq<u8>) -> Option<(Seq<u8>, int)> {
    match dec_varint(b) {
        Option::Some((n, k)) => {
            if k + n <= b.len() {
                Option::Some((b.subrange(k, k + n), k + n))
            } else {
                Option::None
            }
        },
        Option::None => Option::None,
    }
}

} // verus!
