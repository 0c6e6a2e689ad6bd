//! The executable codec, verified against the wire grammar of [`crate::wire`].

use vstd::prelude::*;
use vstd::slice::{slice_index_get, slice_subrange, slice_to_vec};
use vstd::utf8::{decode_utf8, valid_utf8};
use crate::types::{
    lemma_entries_model, lemma_entries_model_cons, lemma_entries_model_push, lemma_seq_model,
    lemma_seq_model_cons, lemma_seq_model_push,
    value_model, entries_model, seq_model, Value, ValueModel, ValueType,
};
use crate::wire::{
    canon_entries, dec, dec_entries, dec_entry, dec_items, dec_varint, dedup_first, enc, enc_cat,
    enc_entries, enc_items, entry_frame, frame, from_le4, from_le8, le4, le8, lemma_canon_push,
    lemma_dec_entries_step, lemma_dec_entries_step_none, lemma_dec_items_step, lemma_dedup_contains, lemma_dedup_push,
    lemma_map_insert_absent, lemma_map_insert_found,
    map_insert, spec_read_message, unzigzag, varint, zigzag32, zigzag64,
};

verus! {

/// A malformed encoding: truncated input, an invalid or oversized varint,
/// invalid UTF-8, or an envelope inconsistent with the expected schema.
#[derive(Debug, PartialEq, Eq, Structural)]
pub enum DecodeError {
    Malformed,
}

/// Appends the varint encoding of `n`.
fn write_varint(n: u64, out: &mut Vec<u8>)
    ensures
        final(out)@ == old(out)@ + varint(n as nat),
    decreases n,
{
    if n < 128 {
        out.push(n as u8);
        assert(final(out)@ =~= old(out)@ + varint(n as nat));
    } else {
        let ghost mid = out@;
        out.push((128 + n % 128) as u8);
        write_varint(n / 128, out);
        assert((n / 128) as nat == (n as nat) / 128);
        assert((n % 128) as nat == (n as nat) % 128);
        assert(final(out)@ =~= old(out)@ + varint(n as nat));
    }
}

/// Appends the encoding of a value to `out`.
#[verifier::rlimit(60)]
fn encode_into(v: &Value, out: &mut Vec<u8>)
    ensures
        final(out)@ == old(out)@ + enc(v@),
    decreases *v, 0int,
{
    match v {
        Value::Bool(b) => {
            out.push(if *b { 1u8 } else { 0u8 });
            assert(final(out)@ =~= old(out)@ + enc(v@));
        },
        Value::U32(x) => {
            write_varint(*x as u64, out);
        },
        Value::U64(x) => {
            write_varint(*x, out);
        },
        Value::I32(x) => {
            let z: u64 = if *x >= 0 {
                (*x as u64) * 2
            } else {
                (-(*x as i64 + 1)) as u64 * 2 + 1
            };
            assert(z as nat == zigzag32(*x));
            write_varint(z, out);
        },
        Value::I64(x) => {
            let z: u64 = if *x >= 0 {
                (*x as u64) * 2
            } else {
                let m: i64 = -(*x + 1);
                (m as u64) * 2 + 1
            };
            assert(z as nat == zigzag64(*x));
            write_varint(z, out);
        },
        Value::F32Bits(x) => {
            let n = *x;
            out.push(#[verifier::truncate] (n as u8));
            out.push(#[verifier::truncate] ((n >> 8) as u8));
            out.push(#[verifier::truncate] ((n >> 16) as u8));
            out.push(#[verifier::truncate] ((n >> 24) as u8));
            assert(final(out)@ =~= old(out)@ + le4(n));
        },
        Value::F64Bits(x) => {
            let n = *x;
            out.push(#[verifier::truncate] (n as u8));
            out.push(#[verifier::truncate] ((n >> 8) as u8));
            out.push(#[verifier::truncate] ((n >> 16) as u8));
            out.push(#[verifier::truncate] ((n >> 24) as u8));
            out.push(#[verifier::truncate] ((n >> 32) as u8));
            out.push(#[verifier::truncate] ((n >> 40) as u8));
            out.push(#[verifier::truncate] ((n >> 48) as u8));
            out.push(#[verifier::truncate] ((n >> 56) as u8));
            assert(final(out)@ =~= old(out)@ + le8(n));
        },
        Value::Text(s) => {
            let mut bytes = s.as_str().as_bytes_vec();
            write_varint(bytes.len() as u64, out);
            out.append(&mut bytes);
            assert(final(out)@ =~= old(out)@ + enc(v@));
        },
        Value::Unit => {
            assert(final(out)@ =~= old(out)@ + enc(v@));
        },
        Value::Pair(a, b) => {
            encode_into(&**a, out);
            let ghost o1 = out@;
            encode_into(&**b, out);
            proof {
                let vs = seq![value_model(**a), value_model(**b)];
                assert(o1 == old(out)@ + enc(vs[0]));
                assert(out@ == o1 + enc(vs[1]));
                assert(enc_cat(vs, 0) == enc(vs[0]) + enc_cat(vs, 1));
                assert(enc_cat(vs, 1) == enc(vs[1]) + enc_cat(vs, 2));
                assert(enc_cat(vs, 2) =~= Seq::<u8>::empty());
                assert(final(out)@ =~= old(out)@ + enc(v@));
            }
        },
        Value::Triple(a, b, c) => {
            encode_into(&**a, out);
            let ghost o1 = out@;
            encode_into(&**b, out);
            let ghost o2 = out@;
            encode_into(&**c, out);
            proof {
                let vs = seq![value_model(**a), value_model(**b), value_model(**c)];
                assert(o1 == old(out)@ + enc(vs[0]));
                assert(o2 == o1 + enc(vs[1]));
                assert(out@ == o2 + enc(vs[2]));
                assert(enc_cat(vs, 0) == enc(vs[0]) + enc_cat(vs, 1));
                assert(enc_cat(vs, 1) == enc(vs[1]) + enc_cat(vs, 2));
                assert(enc_cat(vs, 2) == enc(vs[2]) + enc_cat(vs, 3));
                assert(enc_cat(vs, 3) =~= Seq::<u8>::empty());
                assert(final(out)@ =~= old(out)@ + enc(v@));
            }
        },
        Value::Quad(a, b, c, d) => {
            encode_into(&**a, out);
            encode_into(&**b, out);
            encode_into(&**c, out);
            encode_into(&**d, out);
            proof {
                let vs = seq![
                    value_model(**a),
                    value_model(**b),
                    value_model(**c),
                    value_model(**d),
                ];
                assert(enc_cat(vs, 0) == enc(vs[0]) + enc_cat(vs, 1));
                assert(enc_cat(vs, 1) == enc(vs[1]) + enc_cat(vs, 2));
                assert(enc_cat(vs, 2) == enc(vs[2]) + enc_cat(vs, 3));
                assert(enc_cat(vs, 3) == enc(vs[3]) + enc_cat(vs, 4));
                assert(enc_cat(vs, 4) =~= Seq::<u8>::empty());
                assert(final(out)@ =~= old(out)@ + enc(v@));
            }
        },
        Value::List(vs) => {
            encode_items(vs, out);
        },
        Value::DedupSet(vs) => {
            encode_items(vs, out);
        },
        Value::KeyMap(es) => {
            encode_entries(es, out);
        },
    }
}

/// Appends one framed blob.
fn write_frame(blob: &mut Vec<u8>, out: &mut Vec<u8>)
    ensures
        final(out)@ == old(out)@ + frame(old(blob)@),
{
    out.push(10u8);
    write_varint(blob.len() as u64, out);
    out.append(blob);
    assert(final(out)@ =~= old(out)@ + frame(old(blob)@));
}

/// Appends the envelope of a sequence or set: one framed blob per element.
fn encode_items(vs: &Vec<Value>, out: &mut Vec<u8>)
    ensures
        final(out)@ == old(out)@ + enc_items(seq_model(vs@), 0),
    decreases vs@, 1int,
{
    let ghost ms = seq_model(vs@);
    proof {
        lemma_seq_model(vs@);
    }
    let n = vs.len();
    let mut i: usize = 0;
    while i < n
        invariant
            n == vs.len(),
            i <= n,
            ms == seq_model(vs@),
            ms.len() == n,
            forall|j: int| 0 <= j < n ==> ms[j] == value_model(#[trigger] vs@[j]),
            out@ + enc_items(ms, i as int) == old(out)@ + enc_items(ms, 0),
        decreases n - i,
    {
        let mut blob: Vec<u8> = Vec::new();
        encode_into(&vs[i], &mut blob);
        let ghost before = out@;
        write_frame(&mut blob, out);
        proof {
            assert(enc_items(ms, i as int) == frame(enc(ms[i as int])) + enc_items(
                ms,
                i as int + 1,
            ));
            assert(out@ + enc_items(ms, i as int + 1) =~= before + enc_items(ms, i as int));
        }
        i = i + 1;
    }
    assert(enc_items(ms, n as int) =~= Seq::<u8>::empty());
    assert(final(out)@ =~= old(out)@ + enc_items(ms, 0));
}

/// Appends the envelope of a mapping: one framed entry message per entry.
fn encode_entries(es: &Vec<(Value, Value)>, out: &mut Vec<u8>)
    ensures
        final(out)@ == old(out)@ + enc_entries(entries_model(es@), 0),
    decreases es@, 1int,
{
    let ghost ms = entries_model(es@);
    proof {
        lemma_entries_model(es@);
    }
    let n = es.len();
    let mut i: usize = 0;
    while i < n
        invariant
            n == es.len(),
            i <= n,
            ms == entries_model(es@),
            ms.len() == n,
            forall|j: int|
                0 <= j < n ==> ms[j] == (
                value_model((#[trigger] es@[j]).0),
                value_model(es@[j].1),
                ),
            out@ + enc_entries(ms, i as int) == old(out)@ + enc_entries(ms, 0),
        decreases n - i,
    {
        let mut kb: Vec<u8> = Vec::new();
        let mut vb: Vec<u8> = Vec::new();
        encode_into(&es[i].0, &mut kb);
        encode_into(&es[i].1, &mut vb);
        let mut entry: Vec<u8> = Vec::new();
        let ghost kb0 = kb@;
        let ghost vb0 = vb@;
        entry.push(10u8);
        write_varint(kb.len() as u64, &mut entry);
        entry.append(&mut kb);
        entry.push(18u8);
        write_varint(vb.len() as u64, &mut entry);
        entry.append(&mut vb);
        assert(entry@ =~= entry_frame(kb0, vb0));
        let ghost before = out@;
        write_frame(&mut entry, out);
        proof {
            assert(enc_entries(ms, i as int) == frame(
                entry_frame(enc(ms[i as int].0), enc(ms[i as int].1)),
            ) + enc_entries(ms, i as int + 1));
            assert(out@ + enc_entries(ms, i as int + 1) =~= before + enc_entries(ms, i as int));
        }
        i = i + 1;
    }
    assert(enc_entries(ms, n as int) =~= Seq::<u8>::empty());
    assert(final(out)@ =~= old(out)@ + enc_entries(ms, 0));
}

/// Reads one varint from `buf[pos..end]`: the value and the position just
/// past it.
fn read_varint(buf: &[u8], pos: usize, end: usize) -> (r: Result<(u64, usize), DecodeError>)
    requires
        pos <= end <= buf@.len(),
    ensures
        match dec_varint(buf@.subrange(pos as int, end as int)) {
            Option::Some((n, k)) => r matches Ok((v, q)) && v as nat == n && q == pos + k && pos
                < q <= end,
            Option::None => r is Err,
        },
    decreases end - pos,
{
    if pos == end {
        return Err(DecodeError::Malformed);
    }
    let b0 = *slice_index_get(buf, pos);
    assert(buf@.subrange(pos as int, end as int)[0] == b0);
    if b0 < 128 {
        Ok((b0 as u64, pos + 1))
    } else {
        assert(buf@.subrange(pos as int, end as int).skip(1) =~= buf@.subrange(
            pos as int + 1,
            end as int,
        ));
        match read_varint(buf, pos + 1, end) {
            Ok((n, q)) => {
                let k = q - (pos + 1);
                if k <= 9 && n < 0x200000000000000u64 {
                    Ok((128 * n + ((b0 - 128) as u64), q))
                } else {
                    Err(DecodeError::Malformed)
                }
            },
            Err(e) => Err(e),
        }
    }
}

/// Relies on `String::from_utf8`: it returns `Ok` exactly on UTF-8-valid
/// input, carrying the characters those bytes encode.
#[verifier::external_body]
fn bytes_to_string(bytes: Vec<u8>) -> (r: Option<String>)
    ensures
        match r {
            Some(s) => valid_utf8(bytes@) && s@ == decode_utf8(bytes@),
            None => !valid_utf8(bytes@),
        },
{
    match String::from_utf8(bytes) {
        Ok(s) => Some(s),
        Err(_) => None,
    }
}

/// Structural equality of two values, by the models they stand for.
#[verifier::rlimit(60)]
pub fn value_eq(a: &Value, b: &Value) -> (r: bool)
    ensures
        r == (a@ == b@),
    decreases *a, 0int,
{
    match (a, b) {
        (Value::Bool(x), Value::Bool(y)) => *x == *y,
        (Value::U32(x), Value::U32(y)) => *x == *y,
        (Value::U64(x), Value::U64(y)) => *x == *y,
        (Value::I32(x), Value::I32(y)) => *x == *y,
        (Value::I64(x), Value::I64(y)) => *x == *y,
        (Value::F32Bits(x), Value::F32Bits(y)) => *x == *y,
        (Value::F64Bits(x), Value::F64Bits(y)) => *x == *y,
        (Value::Text(x), Value::Text(y)) => x.eq(y),
        (Value::Unit, Value::Unit) => true,
        (Value::List(xs), Value::List(ys)) => seq_eq(xs, ys),
        (Value::DedupSet(xs), Value::DedupSet(ys)) => seq_eq(xs, ys),
        (Value::KeyMap(xs), Value::KeyMap(ys)) => entries_eq(xs, ys),
        (Value::Pair(a1, a2), Value::Pair(b1, b2)) => value_eq(&**a1, &**b1) && value_eq(
            &**a2,
            &**b2,
        ),
        (Value::Triple(a1, a2, a3), Value::Triple(b1, b2, b3)) => value_eq(&**a1, &**b1)
            && value_eq(&**a2, &**b2) && value_eq(&**a3, &**b3),
        (Value::Quad(a1, a2, a3, a4), Value::Quad(b1, b2, b3, b4)) => value_eq(&**a1, &**b1)
            && value_eq(&**a2, &**b2) && value_eq(&**a3, &**b3) && value_eq(&**a4, &**b4),
        (Value::Pair(_, _), Value::Triple(_, _, _)) => {
            proof {
                assert(a@->Tuple_0.len() == 2 && b@->Tuple_0.len() == 3);
            }
            false
        },
        (Value::Pair(_, _), Value::Quad(_, _, _, _)) => {
            proof {
                assert(a@->Tuple_0.len() == 2 && b@->Tuple_0.len() == 4);
            }
            false
        },
        (Value::Triple(_, _, _), Value::Pair(_, _)) => {
            proof {
                assert(a@->Tuple_0.len() == 3 && b@->Tuple_0.len() == 2);
            }
            false
        },
        (Value::Triple(_, _, _), Value::Quad(_, _, _, _)) => {
            proof {
                assert(a@->Tuple_0.len() == 3 && b@->Tuple_0.len() == 4);
            }
            false
        },
        (Value::Quad(_, _, _, _), Value::Pair(_, _)) => {
            proof {
                assert(a@->Tuple_0.len() == 4 && b@->Tuple_0.len() == 2);
            }
            false
        },
        (Value::Quad(_, _, _, _), Value::Triple(_, _, _)) => {
            proof {
                assert(a@->Tuple_0.len() == 4 && b@->Tuple_0.len() == 3);
            }
            false
        },
        _ => false,
    }
}

/// Elementwise equality of two value sequences, by their models.
fn seq_eq(xs: &Vec<Value>, ys: &Vec<Value>) -> (r: bool)
    ensures
        r == (seq_model(xs@) == seq_model(ys@)),
    decreases xs@, 1int,
{
    proof {
        lemma_seq_model(xs@);
        lemma_seq_model(ys@);
    }
    if xs.len() != ys.len() {
        return false;
    }
    let n = xs.len();
    let mut i: usize = 0;
    while i < n
        invariant
            n == xs.len() == ys.len(),
            i <= n,
            forall|j: int| 0 <= j < i ==> seq_model(xs@)[j] == seq_model(ys@)[j],
            seq_model(xs@).len() == n,
            seq_model(ys@).len() == n,
            forall|j: int| 0 <= j < n ==> seq_model(xs@)[j] == value_model(#[trigger] xs@[j]),
            forall|j: int| 0 <= j < n ==> seq_model(ys@)[j] == value_model(#[trigger] ys@[j]),
        decreases n - i,
    {
        if !value_eq(&xs[i], &ys[i]) {
            assert(seq_model(xs@)[i as int] != seq_model(ys@)[i as int]);
            return false;
        }
        i = i + 1;
    }
    assert(seq_model(xs@) =~= seq_model(ys@));
    true
}

/// Pairwise equality of two entry sequences, by their models.
fn entries_eq(xs: &Vec<(Value, Value)>, ys: &Vec<(Value, Value)>) -> (r: bool)
    ensures
        r == (entries_model(xs@) == entries_model(ys@)),
    decreases xs@, 1int,
{
    proof {
        lemma_entries_model(xs@);
        lemma_entries_model(ys@);
    }
    if xs.len() != ys.len() {
        return false;
    }
    let n = xs.len();
    let mut i: usize = 0;
    while i < n
        invariant
            n == xs.len() == ys.len(),
            i <= n,
            forall|j: int| 0 <= j < i ==> entries_model(xs@)[j] == entries_model(ys@)[j],
            entries_model(xs@).len() == n,
            entries_model(ys@).len() == n,
            forall|j: int|
                0 <= j < n ==> entries_model(xs@)[j] == (
                value_model((#[trigger] xs@[j]).0),
                value_model(xs@[j].1),
                ),
            forall|j: int|
                0 <= j < n ==> entries_model(ys@)[j] == (
                value_model((#[trigger] ys@[j]).0),
                value_model(ys@[j].1),
                ),
        decreases n - i,
    {
        if !value_eq(&xs[i].0, &ys[i].0) {
            assert(entries_model(xs@)[i as int] != entries_model(ys@)[i as int]);
            return false;
        }
        if !value_eq(&xs[i].1, &ys[i].1) {
            assert(entries_model(xs@)[i as int] != entries_model(ys@)[i as int]);
            return false;
        }
        i = i + 1;
    }
    assert(entries_model(xs@) =~= entries_model(ys@));
    true
}

/// Whether a value equal to `x` is among `xs`, by model equality.
fn contains_value(xs: &Vec<Value>, x: &Value) -> (r: bool)
    ensures
        r == seq_model(xs@).contains(x@),
{
    proof {
        lemma_seq_model(xs@);
    }
    let n = xs.len();
    let mut i: usize = 0;
    while i < n
        invariant
            n == xs.len(),
            i <= n,
            forall|j: int| 0 <= j < i ==> seq_model(xs@)[j] != x@,
            seq_model(xs@).len() == n,
            forall|j: int| 0 <= j < n ==> seq_model(xs@)[j] == value_model(#[trigger] xs@[j]),
        decreases n - i,
    {
        if value_eq(&xs[i], x) {
            assert(seq_model(xs@)[i as int] == x@);
            return true;
        }
        i = i + 1;
    }
    false
}

/// The first position whose key equals `k`, by model equality.
fn find_key(es: &Vec<(Value, Value)>, k: &Value) -> (r: Option<usize>)
    ensures
        match r {
            Some(j) => j < es@.len() && entries_model(es@)[j as int].0 == k@ && forall|i: int|
                0 <= i < j ==> entries_model(es@)[i].0 != k@,
            None => forall|i: int| 0 <= i < es@.len() ==> entries_model(es@)[i].0 != k@,
        },
{
    proof {
        lemma_entries_model(es@);
    }
    let n = es.len();
    let mut i: usize = 0;
    while i < n
        invariant
            n == es.len(),
            i <= n,
            forall|j: int| 0 <= j < i ==> entries_model(es@)[j].0 != k@,
            entries_model(es@).len() == n,
            forall|j: int|
                0 <= j < n ==> entries_model(es@)[j] == (
                value_model((#[trigger] es@[j]).0),
                value_model(es@[j].1),
                ),
        decreases n - i,
    {
        if value_eq(&es[i].0, k) {
            return Some(i);
        }
        i = i + 1;
    }
    None
}

/// Decodes one value of a primitive shape from `buf[pos..end]`.
#[verifier::rlimit(60)]
fn decode_prim(t: &ValueType, buf: &[u8], pos: usize, end: usize) -> (r: Result<
    (Value, usize),
    DecodeError,
>)
    requires
        pos <= end <= buf@.len(),
        !(t is List) && !(t is DedupSet) && !(t is KeyMap) && !(t is Pair) && !(t is Triple) && !(
        t is Quad),
    ensures
        match dec(*t, buf@.subrange(pos as int, end as int)) {
            Option::Some((vm, used)) => r matches Ok((v, q)) && v@ == vm && q == pos + used && pos
                <= q <= end,
            Option::None => r is Err,
        },
{
    let ghost b = buf@.subrange(pos as int, end as int);
    match t {
        ValueType::Bool => match read_varint(buf, pos, end) {
            Ok((n, q)) => Ok((Value::Bool(n != 0), q)),
            Err(e) => Err(e),
        },
        ValueType::U32 => match read_varint(buf, pos, end) {
            Ok((n, q)) => {
                if n <= 0xffffffffu64 {
                    Ok((Value::U32(n as u32), q))
                } else {
                    Err(DecodeError::Malformed)
                }
            },
            Err(e) => Err(e),
        },
        ValueType::U64 => match read_varint(buf, pos, end) {
            Ok((n, q)) => Ok((Value::U64(n), q)),
            Err(e) => Err(e),
        },
        ValueType::I32 => match read_varint(buf, pos, end) {
            Ok((n, q)) => {
                if n <= 0xffffffffu64 {
                    let v: i32 = if n % 2 == 0 {
                        (n / 2) as i32
                    } else {
                        (-((n / 2) as i64) - 1) as i32
                    };
                    assert(v as int == unzigzag(n as nat) as i32 as int);
                    Ok((Value::I32(v), q))
                } else {
                    Err(DecodeError::Malformed)
                }
            },
            Err(e) => Err(e),
        },
        ValueType::I64 => match read_varint(buf, pos, end) {
            Ok((n, q)) => {
                let v: i64 = if n % 2 == 0 {
                    (n / 2) as i64
                } else {
                    -((n / 2) as i64) - 1
                };
                assert(v as int == unzigzag(n as nat) as i64 as int);
                Ok((Value::I64(v), q))
            },
            Err(e) => Err(e),
        },
        ValueType::F32 => {
            if end - pos >= 4 {
                let b0 = *slice_index_get(buf, pos);
                let b1 = *slice_index_get(buf, pos + 1);
                let b2 = *slice_index_get(buf, pos + 2);
                let b3 = *slice_index_get(buf, pos + 3);
                let word: u32 = (b0 as u32) | ((b1 as u32) << 8) | ((b2 as u32) << 16) | (
                (b3 as u32) << 24);
                assert(b[0] == b0 && b[1] == b1 && b[2] == b2 && b[3] == b3);
                Ok((Value::F32Bits(word), pos + 4))
            } else {
                Err(DecodeError::Malformed)
            }
        },
        ValueType::F64 => {
            if end - pos >= 8 {
                let b0 = *slice_index_get(buf, pos);
                let b1 = *slice_index_get(buf, pos + 1);
                let b2 = *slice_index_get(buf, pos + 2);
                let b3 = *slice_index_get(buf, pos + 3);
                let b4 = *slice_index_get(buf, pos + 4);
                let b5 = *slice_index_get(buf, pos + 5);
                let b6 = *slice_index_get(buf, pos + 6);
                let b7 = *slice_index_get(buf, pos + 7);
                let word: u64 = (b0 as u64) | ((b1 as u64) << 8) | ((b2 as u64) << 16) | (
                (b3 as u64) << 24) | ((b4 as u64) << 32) | ((b5 as u64) << 40) | ((b6 as u64)
                    << 48) | ((b7 as u64) << 56);
                assert(b[0] == b0 && b[1] == b1 && b[2] == b2 && b[3] == b3 && b[4] == b4 && b[5]
                    == b5 && b[6] == b6 && b[7] == b7);
                Ok((Value::F64Bits(word), pos + 8))
            } else {
                Err(DecodeError::Malformed)
            }
        },
        ValueType::Text => match read_varint(buf, pos, end) {
            Ok((n, q)) => {
                if n <= (end - q) as u64 {
                    let m = n as usize;
                    let bytes = slice_to_vec(slice_subrange(buf, q, q + m));
                    proof {
                        let k = q - pos;
                        assert(b.subrange(k as int, k as int + n as int) =~= buf@.subrange(
                            q as int,
                            (q + m) as int,
                        ));
                    }
                    match bytes_to_string(bytes) {
                        Some(s) => Ok((Value::Text(s), q + m)),
                        None => Err(DecodeError::Malformed),
                    }
                } else {
                    Err(DecodeError::Malformed)
                }
            },
            Err(e) => Err(e),
        },
        ValueType::Unit => Ok((Value::Unit, pos)),
        _ => {
            proof {
                assert(false);
            }
            Err(DecodeError::Malformed)
        },
    }
}

/// Decodes a two-element tuple: the slots laid back to back, left to
/// right.
#[verifier::rlimit(60)]
fn decode_tuple2(t: &ValueType, buf: &[u8], pos: usize, end: usize) -> (r: Result<
    (Value, usize),
    DecodeError,
>)
    requires
        pos <= end <= buf@.len(),
        t is Pair,
    ensures
        match dec(*t, buf@.subrange(pos as int, end as int)) {
            Option::Some((vm, used)) => r matches Ok((v, q)) && v@ == vm && q == pos + used && pos
                <= q <= end,
            Option::None => r is Err,
        },
    decreases *t, end - pos, 0int,
{
    let ghost b = buf@.subrange(pos as int, end as int);
    let (t1, t2) = match t {
        ValueType::Pair(t1, t2) => (t1, t2),
        _ => {
            proof {
                assert(false);
            }
            return Err(DecodeError::Malformed);
        },
    };
    match decode_at(&**t1, buf, pos, end) {
        Ok((v1, q1)) => {
            proof {
                assert(b.skip(q1 - pos) =~= buf@.subrange(q1 as int, end as int));
            }
            match decode_at(&**t2, buf, q1, end) {
                Ok((v2, q2)) => Ok((Value::Pair(Box::new(v1), Box::new(v2)), q2)),
                Err(e) => Err(e),
            }
        },
        Err(e) => Err(e),
    }
}

/// Decodes a three-element tuple.
#[verifier::rlimit(60)]
fn decode_tuple3(t: &ValueType, buf: &[u8], pos: usize, end: usize) -> (r: Result<
    (Value, usize),
    DecodeError,
>)
    requires
        pos <= end <= buf@.len(),
        t is Triple,
    ensures
        match dec(*t, buf@.subrange(pos as int, end as int)) {
            Option::Some((vm, used)) => r matches Ok((v, q)) && v@ == vm && q == pos + used && pos
                <= q <= end,
            Option::None => r is Err,
        },
    decreases *t, end - pos, 0int,
{
    let ghost b = buf@.subrange(pos as int, end as int);
    let (t1, t2, t3) = match t {
        ValueType::Triple(t1, t2, t3) => (t1, t2, t3),
        _ => {
            proof {
                assert(false);
            }
            return Err(DecodeError::Malformed);
        },
    };
    match decode_at(&**t1, buf, pos, end) {
        Ok((v1, q1)) => {
            proof {
                assert(b.skip(q1 - pos) =~= buf@.subrange(q1 as int, end as int));
            }
            match decode_at(&**t2, buf, q1, end) {
                Ok((v2, q2)) => {
                    proof {
                        assert(b.skip(q2 - pos) =~= buf@.subrange(q2 as int, end as int));
                    }
                    match decode_at(&**t3, buf, q2, end) {
                        Ok((v3, q3)) => Ok(
                            (Value::Triple(Box::new(v1), Box::new(v2), Box::new(v3)), q3),
                        ),
                        Err(e) => Err(e),
                    }
                },
                Err(e) => Err(e),
            }
        },
        Err(e) => Err(e),
    }
}

/// Decodes a four-element tuple.
#[verifier::rlimit(60)]
fn decode_tuple4(t: &ValueType, buf: &[u8], pos: usize, end: usize) -> (r: Result<
    (Value, usize),
    DecodeError,
>)
    requires
        pos <= end <= buf@.len(),
        t is Quad,
    ensures
        match dec(*t, buf@.subrange(pos as int, end as int)) {
            Option::Some((vm, used)) => r matches Ok((v, q)) && v@ == vm && q == pos + used && pos
                <= q <= end,
            Option::None => r is Err,
        },
    decreases *t, end - pos, 0int,
{
    let ghost b = buf@.subrange(pos as int, end as int);
    let (t1, t2, t3, t4) = match t {
        ValueType::Quad(t1, t2, t3, t4) => (t1, t2, t3, t4),
        _ => {
            proof {
                assert(false);
            }
            return Err(DecodeError::Malformed);
        },
    };
    match decode_at(&**t1, buf, pos, end) {
        Ok((v1, q1)) => {
            proof {
                assert(b.skip(q1 - pos) =~= buf@.subrange(q1 as int, end as int));
            }
            match decode_at(&**t2, buf, q1, end) {
                Ok((v2, q2)) => {
                    proof {
                        assert(b.skip(q2 - pos) =~= buf@.subrange(q2 as int, end as int));
                    }
                    match decode_at(&**t3, buf, q2, end) {
                        Ok((v3, q3)) => {
                            proof {
                                assert(b.skip(q3 - pos) =~= buf@.subrange(q3 as int, end as int));
                            }
                            match decode_at(&**t4, buf, q3, end) {
                                Ok((v4, q4)) => Ok(
                                    (
                                        Value::Quad(
                                            Box::new(v1),
                                            Box::new(v2),
                                            Box::new(v3),
                                            Box::new(v4),
                                        ),
                                        q4,
                                    ),
                                ),
                                Err(e) => Err(e),
                            }
                        },
                        Err(e) => Err(e),
                    }
                },
                Err(e) => Err(e),
            }
        },
        Err(e) => Err(e),
    }
}

/// Decodes one value of shape `t` from `buf[pos..end]`: the value and the
/// position just past the bytes it consumed.  A container consumes the
/// whole range.
#[verifier::rlimit(100)]
fn decode_at(t: &ValueType, buf: &[u8], pos: usize, end: usize) -> (r: Result<
    (Value, usize),
    DecodeError,
>)
    requires
        pos <= end <= buf@.len(),
    ensures
        match dec(*t, buf@.subrange(pos as int, end as int)) {
            Option::Some((vm, used)) => r matches Ok((v, q)) && v@ == vm && q == pos + used && pos
                <= q <= end,
            Option::None => r is Err,
        },
    decreases *t, end - pos, 2int,
{
    let ghost b = buf@.subrange(pos as int, end as int);
    match t {
        ValueType::Bool => decode_prim(t, buf, pos, end),
        ValueType::U32 => decode_prim(t, buf, pos, end),
        ValueType::U64 => decode_prim(t, buf, pos, end),
        ValueType::I32 => decode_prim(t, buf, pos, end),
        ValueType::I64 => decode_prim(t, buf, pos, end),
        ValueType::F32 => decode_prim(t, buf, pos, end),
        ValueType::F64 => decode_prim(t, buf, pos, end),
        ValueType::Text => decode_prim(t, buf, pos, end),
        ValueType::Unit => decode_prim(t, buf, pos, end),
        ValueType::Pair(_, _) => decode_tuple2(t, buf, pos, end),
        ValueType::Triple(_, _, _) => decode_tuple3(t, buf, pos, end),
        ValueType::Quad(_, _, _, _) => decode_tuple4(t, buf, pos, end),
        ValueType::List(et) => match decode_items_exec(&**et, buf, pos, end) {
            Ok(items) => Ok((Value::List(items), end)),
            Err(e) => Err(e),
        },
        ValueType::DedupSet(et) => match decode_items_exec(&**et, buf, pos, end) {
            Ok(items) => {
                let deduped = dedup_values(items);
                Ok((Value::DedupSet(deduped), end))
            },
            Err(e) => Err(e),
        },
        ValueType::KeyMap(_, _) => match decode_entries_exec(t, buf, pos, end) {
            Ok(entries) => {
                let canon = canon_values(entries);
                Ok((Value::KeyMap(canon), end))
            },
            Err(e) => Err(e),
        },
    }
}

/// Parses framed element blobs until the range ends, decoding each blob in
/// isolation, in order.
#[verifier::rlimit(100)]
fn decode_items_exec(t: &ValueType, buf: &[u8], pos: usize, end: usize) -> (r: Result<
    Vec<Value>,
    DecodeError,
>)
    requires
        pos <= end <= buf@.len(),
    ensures
        match dec_items(*t, buf@.subrange(pos as int, end as int)) {
            Option::Some(vs) => r matches Ok(items) && seq_model(items@) == vs,
            Option::None => r is Err,
        },
    decreases *t, end - pos, 0int,
{
    let mut items: Vec<Value> = Vec::new();
    let mut p: usize = pos;
    while p < end
        invariant
            pos <= p <= end <= buf@.len(),
            match dec_items(*t, buf@.subrange(p as int, end as int)) {
                Option::Some(rest) => dec_items(*t, buf@.subrange(pos as int, end as int))
                    == Option::Some(seq_model(items@) + rest),
                Option::None => dec_items(*t, buf@.subrange(pos as int, end as int)) is None,
            },
        decreases end - p,
    {
        let ghost bcur = buf@.subrange(p as int, end as int);
        let tag = *slice_index_get(buf, p);
        assert(bcur[0] == tag);
        if tag != 10 {
            return Err(DecodeError::Malformed);
        }
        assert(bcur.skip(1) =~= buf@.subrange(p as int + 1, end as int));
        match read_varint(buf, p + 1, end) {
            Err(_) => {
                return Err(DecodeError::Malformed);
            },
            Ok((n64, q)) => {
                let ghost k = q - (p + 1);
                if n64 > (end - q) as u64 {
                    return Err(DecodeError::Malformed);
                }
                let m = n64 as usize;
                let blob_end = q + m;
                proof {
                    assert(bcur.subrange(1 + k, 1 + k + n64 as int) =~= buf@.subrange(
                        q as int,
                        blob_end as int,
                    ));
                }
                match decode_at(t, buf, q, blob_end) {
                    Err(_) => {
                        return Err(DecodeError::Malformed);
                    },
                    Ok((v, _used)) => {
                        proof {
                            lemma_seq_model_push(items@, v);
                            assert(bcur.skip(1 + k + n64 as int) =~= buf@.subrange(
                                blob_end as int,
                                end as int,
                            ));
                            match dec_items(*t, buf@.subrange(blob_end as int, end as int)) {
                                Option::Some(vs) => {
                                    assert(seq_model(items@) + (seq![v@] + vs) =~= seq_model(
                                        items@.push(v),
                                    ) + vs);
                                },
                                Option::None => {},
                            }
                        }
                        items.push(v);
                        p = blob_end;
                    },
                }
            },
        }
    }
    assert(buf@.subrange(p as int, end as int).len() == 0);
    assert(seq_model(items@) + Seq::<ValueModel>::empty() =~= seq_model(items@));
    Ok(items)
}

/// Parses one entry message: exactly a tagged key blob then a tagged value
/// blob, each decoded in isolation.
#[verifier::rlimit(100)]
fn decode_entry_exec(t: &ValueType, buf: &[u8], es: usize, ee: usize) -> (r: Result<
    (Value, Value),
    DecodeError,
>)
    requires
        es <= ee <= buf@.len(),
    ensures
        match dec_entry(*t, buf@.subrange(es as int, ee as int)) {
            Option::Some((kv, vv)) => r matches Ok((k, v)) && k@ == kv && v@ == vv,
            Option::None => r is Err,
        },
    decreases *t, ee - es, 1int,
{
    proof {
        reveal(crate::wire::dec_entry);
    }
    let ghost e = buf@.subrange(es as int, ee as int);
    let (kt, vt) = match t {
        ValueType::KeyMap(kt, vt) => (kt, vt),
        _ => {
            return Err(DecodeError::Malformed);
        },
    };
    if es == ee {
        return Err(DecodeError::Malformed);
    }
    let tag = *slice_index_get(buf, es);
    assert(e[0] == tag);
    if tag != 10 {
        return Err(DecodeError::Malformed);
    }
    assert(e.skip(1) =~= buf@.subrange(es as int + 1, ee as int));
    match read_varint(buf, es + 1, ee) {
        Err(_) => Err(DecodeError::Malformed),
        Ok((kn64, kq)) => {
            let ghost kk = kq - (es + 1);
            if !(kn64 < (ee - kq) as u64) {
                return Err(DecodeError::Malformed);
            }
            let km = kn64 as usize;
            let kblob_end = kq + km;
            let tag2 = *slice_index_get(buf, kblob_end);
            assert(e[1 + kk + kn64 as int] == tag2);
            if tag2 != 18 {
                return Err(DecodeError::Malformed);
            }
            assert(e.skip(1 + kk + kn64 as int + 1) =~= buf@.subrange(
                kblob_end as int + 1,
                ee as int,
            ));
            match read_varint(buf, kblob_end + 1, ee) {
                Err(_) => Err(DecodeError::Malformed),
                Ok((vn64, vq)) => {
                    let ghost vk = vq - (kblob_end + 1);
                    if vn64 != (ee - vq) as u64 {
                        return Err(DecodeError::Malformed);
                    }
                    proof {
                        assert(e.subrange(1 + kk, 1 + kk + kn64 as int) =~= buf@.subrange(
                            kq as int,
                            kblob_end as int,
                        ));
                        assert(e.subrange(
                            1 + kk + kn64 as int + 1 + vk,
                            1 + kk + kn64 as int + 1 + vk + vn64 as int,
                        ) =~= buf@.subrange(vq as int, ee as int));
                    }
                    match decode_at(&**kt, buf, kq, kblob_end) {
                        Err(_) => Err(DecodeError::Malformed),
                        Ok((kval, _)) => match decode_at(&**vt, buf, vq, ee) {
                            Err(_) => Err(DecodeError::Malformed),
                            Ok((vval, _)) => Ok((kval, vval)),
                        },
                    }
                },
            }
        },
    }
}

/// Parses one framed entry message starting at `p`: the entry and the
/// position just past its frame.
#[verifier::rlimit(100)]
fn decode_entry_frame(t: &ValueType, buf: &[u8], p: usize, end: usize) -> (r: Result<
    ((Value, Value), usize),
    DecodeError,
>)
    requires
        p < end <= buf@.len(),
    ensures
        match r {
            Ok(((kval, vval), next)) => p < next <= end && dec_entries(
                *t,
                buf@.subrange(p as int, end as int),
            ) == (match dec_entries(*t, buf@.subrange(next as int, end as int)) {
                Option::Some(es) => Option::Some(seq![(kval@, vval@)] + es),
                Option::None => Option::None::<Seq<(ValueModel, ValueModel)>>,
            }),
            Err(_) => dec_entries(*t, buf@.subrange(p as int, end as int)) is None,
        },
    decreases *t, end - p, 0int,
{
    let ghost bcur = buf@.subrange(p as int, end as int);
    let tag = *slice_index_get(buf, p);
    assert(bcur[0] == tag);
    if tag != 10 {
        assert(dec_entries(*t, bcur) is None);
        return Err(DecodeError::Malformed);
    }
    assert(bcur.skip(1) =~= buf@.subrange(p as int + 1, end as int));
    match read_varint(buf, p + 1, end) {
        Err(_) => {
            assert(dec_entries(*t, bcur) is None);
            Err(DecodeError::Malformed)
        },
        Ok((n64, q)) => {
            let ghost k = q - (p + 1);
            if n64 > (end - q) as u64 {
                assert(dec_entries(*t, bcur) is None);
                return Err(DecodeError::Malformed);
            }
            let m = n64 as usize;
            let entry_end = q + m;
            proof {
                assert(bcur.subrange(1 + k, 1 + k + n64 as int) =~= buf@.subrange(
                    q as int,
                    entry_end as int,
                ));
            }
            match decode_entry_exec(t, buf, q, entry_end) {
                Err(_) => {
                    proof {
                        lemma_dec_entries_step_none(*t, bcur, n64 as nat, k);
                    }
                    Err(DecodeError::Malformed)
                },
                Ok((kval, vval)) => {
                    proof {
                        lemma_dec_entries_step(*t, bcur, n64 as nat, k, kval@, vval@);
                        assert(bcur.skip(1 + k + n64 as int) =~= buf@.subrange(
                            entry_end as int,
                            end as int,
                        ));
                    }
                    Ok(((kval, vval), entry_end))
                },
            }
        },
    }
}

/// Parses framed entry messages until the range ends.
#[verifier::rlimit(100)]
fn decode_entries_exec(t: &ValueType, buf: &[u8], pos: usize, end: usize) -> (r: Result<
    Vec<(Value, Value)>,
    DecodeError,
>)
    requires
        pos <= end <= buf@.len(),
    ensures
        match dec_entries(*t, buf@.subrange(pos as int, end as int)) {
            Option::Some(es) => r matches Ok(entries) && entries_model(entries@) == es,
            Option::None => r is Err,
        },
    decreases *t, end - pos, 1int,
{
    if pos == end {
        let empty: Vec<(Value, Value)> = Vec::new();
        return Ok(empty);
    }
    match decode_entry_frame(t, buf, pos, end) {
        Err(_) => Err(DecodeError::Malformed),
        Ok(((kval, vval), next)) => match decode_entries_exec(t, buf, next, end) {
            Err(_) => Err(DecodeError::Malformed),
            Ok(mut entries) => {
                let ghost rest = entries@;
                entries.insert(0, (kval, vval));
                proof {
                    assert(entries@ =~= seq![(kval, vval)] + rest);
                    lemma_entries_model_cons((kval, vval), rest);
                }
                Ok(entries)
            },
        },
    }
}

/// Keeps the first occurrence of each member, in order of first
/// appearance.
fn dedup_values(items: Vec<Value>) -> (r: Vec<Value>)
    ensures
        seq_model(r@) == dedup_first(seq_model(items@)),
{
    let ghost orig = items@;
    let mut rest = items;
    let mut acc: Vec<Value> = Vec::new();
    let ghost mut j: int = 0;
    proof {
        assert(orig.skip(0) =~= orig);
    }
    while rest.len() > 0
        invariant
            0 <= j <= orig.len(),
            rest@ == orig.skip(j),
            seq_model(acc@) == dedup_first(seq_model(orig.take(j))),
        decreases rest@.len(),
    {
        let x = rest.remove(0);
        assert(x == orig[j]);
        let dup = contains_value(&acc, &x);
        proof {
            assert(rest@ =~= orig.skip(j + 1));
            assert(orig.take(j + 1) =~= orig.take(j).push(orig[j]));
            lemma_seq_model_push(orig.take(j), orig[j]);
            lemma_dedup_push(seq_model(orig.take(j)), value_model(orig[j]));
            lemma_dedup_contains(seq_model(orig.take(j)), value_model(orig[j]));
        }
        if !dup {
            proof {
                lemma_seq_model_push(acc@, x);
            }
            acc.push(x);
        }
        proof {
            j = j + 1;
        }
    }
    proof {
        assert(orig.take(j) =~= orig);
    }
    acc
}

/// Inserts entries left to right: a later entry with a key already held
/// overwrites that key's value in place.
fn canon_values(entries: Vec<(Value, Value)>) -> (r: Vec<(Value, Value)>)
    ensures
        entries_model(r@) == canon_entries(entries_model(entries@)),
{
    let ghost orig = entries@;
    let mut rest = entries;
    let mut acc: Vec<(Value, Value)> = Vec::new();
    let ghost mut j: int = 0;
    proof {
        assert(orig.skip(0) =~= orig);
    }
    while rest.len() > 0
        invariant
            0 <= j <= orig.len(),
            rest@ == orig.skip(j),
            entries_model(acc@) == canon_entries(entries_model(orig.take(j))),
        decreases rest@.len(),
    {
        let (kval, vval) = rest.remove(0);
        assert((kval, vval) == orig[j]);
        proof {
            assert(rest@ =~= orig.skip(j + 1));
            assert(orig.take(j + 1) =~= orig.take(j).push(orig[j]));
            lemma_entries_model_push(orig.take(j), kval, vval);
            lemma_canon_push(entries_model(orig.take(j)), kval@, vval@);
        }
        let found = find_key(&acc, &kval);
        match found {
            Some(idx) => {
                let ghost acc_old = acc@;
                proof {
                    lemma_entries_model(acc_old);
                    lemma_map_insert_found(entries_model(acc_old), kval@, vval@, idx as int);
                }
                let _prev = acc.remove(idx);
                acc.insert(idx, (kval, vval));
                proof {
                    assert(acc@ =~= acc_old.update(idx as int, (kval, vval)));
                    lemma_entries_model(acc@);
                    assert forall|i: int| 0 <= i < acc@.len() implies entries_model(acc@)[i]
                        == entries_model(acc_old).update(idx as int, (kval@, vval@))[i] by {
                        if i != idx as int {
                            assert(acc@[i] == acc_old[i]);
                        } else {
                            assert(acc@[i] == (kval, vval));
                        }
                    }
                    assert(entries_model(acc@) =~= entries_model(acc_old).update(
                        idx as int,
                        (kval@, vval@),
                    ));
                }
            },
            None => {
                proof {
                    lemma_entries_model(acc@);
                    lemma_map_insert_absent(entries_model(acc@), kval@, vval@);
                    lemma_entries_model_push(acc@, kval, vval);
                }
                acc.push((kval, vval));
            },
        }
        proof {
            j = j + 1;
        }
    }
    proof {
        assert(orig.take(j) =~= orig);
    }
    acc
}

/// Decodes one value of shape `t` from the front of a buffer.  Bytes past
/// the value are ignored for self-delimiting shapes; containers consume
/// the whole buffer.  Any malformed nested encoding aborts the whole
/// decode.
pub fn extract_value(t: &ValueType, buf: &[u8]) -> (r: Result<Value, DecodeError>)
    ensures
        match dec(*t, buf@) {
            Option::Some((vm, _used)) => r matches Ok(v) && v@ == vm,
            Option::None => r matches Err(e) && e == DecodeError::Malformed,
        },
{
    proof {
        assert(buf@.subrange(0, buf@.len() as int) =~= buf@);
    }
    match decode_at(t, buf, 0, buf.len()) {
        Ok((v, _)) => Ok(v),
        Err(_) => Err(DecodeError::Malformed),
    }
}

/// Reads one length-delimited envelope message from the front of a
/// buffer: the message's bytes and the position just past them.
pub fn read_message(buf: &[u8]) -> (r: Result<(Vec<u8>, usize), DecodeError>)
    ensures
        match spec_read_message(buf@) {
            Option::Some((m, used)) => r matches Ok((msg, q)) && msg@ == m && q == used,
            Option::None => r matches Err(e) && e == DecodeError::Malformed,
        },
{
    proof {
        assert(buf@.subrange(0, buf@.len() as int) =~= buf@);
    }
    match read_varint(buf, 0, buf.len()) {
        Err(_) => Err(DecodeError::Malformed),
        Ok((n64, q)) => {
            if n64 <= (buf.len() - q) as u64 {
                let m = n64 as usize;
                let msg = slice_to_vec(slice_subrange(buf, q, q + m));
                Ok((msg, q + m))
            } else {
                Err(DecodeError::Malformed)
            }
        },
    }
}

/// Encodes a value to its own complete byte buffer.
///
/// The result is a function of the value alone, so encoding the same value
/// twice produces byte-identical output.
pub fn encode_to_bytes(v: &Value) -> (r: Vec<u8>)
    ensures
        r@ == enc(v@),
{
    let mut out: Vec<u8> = Vec::new();
    encode_into(v, &mut out);
    out
}

} // verus!
