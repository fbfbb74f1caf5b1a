//! Executable decoding of wire bytes into structured values.

use crate::codec::{dec, dec_fields, dec_list, DecFieldsR, DecR, DecSeqR, DecodeError};
use crate::encode::copy_chars;
use crate::hex::bytes_to_hex;
use crate::layout::{field_views_of, lemma_field_views_of, TypeLayout, Width};
use crate::text::chars_of_utf8;
use crate::values::{
    entry_views_of, lemma_entry_views_of, lemma_views_of, views_of, StructuredValue, ValueV,
};
use crate::wire::{le_value_of, lemma_le_value_bound, lemma_pow256_values, pow256, read_le};
use vstd::prelude::*;

verus! {

/// A fresh copy of a byte range.
fn copy_range(data: &Vec<u8>, a: usize, b: usize) -> (r: Vec<u8>)
    requires
        a <= b <= data@.len(),
    ensures
        r@ == data@.subrange(a as int, b as int),
{
    let mut out: Vec<u8> = Vec::new();
    let mut i: usize = a;
    proof {
        assert(data@.subrange(a as int, a as int) =~= Seq::<u8>::empty());
    }
    while i < b
        invariant
            a <= i <= b <= data@.len(),
            out@ == data@.subrange(a as int, i as int),
        decreases b - i,
    {
        out.push(data[i]);
        proof {
            assert(out@ =~= data@.subrange(a as int, i + 1));
        }
        i = i + 1;
    }
    out
}

/// Models of appended elements stand after the existing ones.
pub proof fn lemma_views_append(a: Seq<StructuredValue>, b: Seq<StructuredValue>)
    ensures
        views_of(a + b) == views_of(a) + views_of(b),
    decreases a,
{
    if a.len() == 0 {
        assert(a + b =~= b);
        assert(views_of(a) + views_of(b) =~= views_of(b));
    } else {
        lemma_views_append(a.drop_first(), b);
        assert((a + b).drop_first() =~= a.drop_first() + b);
        assert((a + b)[0] == a[0]);
        assert(views_of(a + b) == seq![(a + b)[0]@] + views_of((a + b).drop_first()));
        assert(views_of(a) == seq![a[0]@] + views_of(a.drop_first()));
        assert(views_of(a + b) =~= views_of(a) + views_of(b));
    }
}

/// Models of appended entries stand after the existing ones.
pub proof fn lemma_entry_views_append(
    a: Seq<(Vec<char>, StructuredValue)>,
    b: Seq<(Vec<char>, StructuredValue)>,
)
    ensures
        entry_views_of(a + b) == entry_views_of(a) + entry_views_of(b),
    decreases a,
{
    if a.len() == 0 {
        assert(a + b =~= b);
        assert(entry_views_of(a) + entry_views_of(b) =~= entry_views_of(b));
    } else {
        lemma_entry_views_append(a.drop_first(), b);
        assert((a + b).drop_first() =~= a.drop_first() + b);
        assert((a + b)[0] == a[0]);
        assert(entry_views_of(a + b) == seq![((a + b)[0].0@, (a + b)[0].1@)] + entry_views_of(
            (a + b).drop_first(),
        ));
        assert(entry_views_of(a) == seq![(a[0].0@, a[0].1@)] + entry_views_of(a.drop_first()));
        assert(entry_views_of(a + b) =~= entry_views_of(a) + entry_views_of(b));
    }
}

/// Reads a length prefix of the given width.
fn read_prefix(data: &Vec<u8>, pos: usize, w: Width) -> (r: Result<(u64, usize), DecodeError>)
    requires
        pos <= data@.len(),
    ensures
        match r {
            Ok((k, newpos)) => pos + w.bytes() == newpos && newpos <= data@.len() && k as nat
                == le_value_of(data@.skip(pos as int).take(w.bytes() as int)),
            Err(e) => data@.skip(pos as int).len() < w.bytes() && e == DecodeError::Truncated,
        },
{
    let wlen = w.byte_len();
    if data.len() - pos < wlen {
        return Err(DecodeError::Truncated);
    }
    let k = read_le(data, pos, w);
    proof {
        assert(data@.skip(pos as int).take(w.bytes() as int) =~= data@.subrange(
            pos as int,
            pos + w.bytes(),
        ));
    }
    Ok((k, pos + wlen))
}

/// Decodes `count` consecutive elements of one shape.
fn decode_list_items(data: &Vec<u8>, pos: usize, el: &TypeLayout, count: u64) -> (r: Result<
    (Vec<StructuredValue>, usize),
    DecodeError,
>)
    requires
        pos <= data@.len(),
    ensures
        match r {
            Ok((items, newpos)) => pos <= newpos <= data@.len() && dec_list(
                data@.skip(pos as int),
                el@,
                count as nat,
            ) == DecSeqR::Value(views_of(items@), (newpos - pos) as nat),
            Err(e) => dec_list(data@.skip(pos as int), el@, count as nat) == DecSeqR::Fail(e)
                && e != DecodeError::TrailingBytes,
        },
    decreases *el, 1nat, 0nat,
{
    let ghost rest0 = data@.skip(pos as int);
    let mut out: Vec<StructuredValue> = Vec::new();
    let mut cur: usize = pos;
    let mut i: u64 = 0;
    
    proof {
        assert(views_of(out@) =~= Seq::<ValueV>::empty());
        match dec_list(data@.skip(pos as int), el@, count as nat) {
            DecSeqR::Value(items, m) => {
                assert(views_of(out@) + items =~= items);
            },
            DecSeqR::Fail(_) => {},
        }
    }
    while i < count
        invariant
            i <= count,
            pos <= cur <= data@.len(),
            rest0 == data@.skip(pos as int),
            match dec_list(data@.skip(cur as int), el@, (count - i) as nat) {
                DecSeqR::Value(items, m) => dec_list(rest0, el@, count as nat) == DecSeqR::Value(
                    views_of(out@) + items,
                    ((cur - pos) + m) as nat,
                ),
                DecSeqR::Fail(e) => dec_list(rest0, el@, count as nat) == DecSeqR::Fail(e),
            },
        decreases count - i,
    {
        let ghost rest = data@.skip(cur as int);
        let ghost acc = views_of(out@);
        match decode_value(data, cur, el) {
            Ok((v, newpos)) => {
                let ghost n = (newpos - cur) as nat;
                let ghost pre = out@;
                out.push(v);
                proof {
                    assert(rest.skip(n as int) =~= data@.skip(newpos as int));
                    lemma_views_append(pre, seq![v]);
                    assert(pre + seq![v] =~= out@);
                    assert(seq![v].drop_first().len() == 0);
                    assert(views_of(seq![v].drop_first()) =~= Seq::<ValueV>::empty());
                    assert(views_of(seq![v]) =~= seq![v@]);
                    assert(views_of(out@) =~= acc + seq![v@]);
                    match dec_list(data@.skip(newpos as int), el@, (count - i - 1) as nat) {
                        DecSeqR::Value(items, m) => {
                            assert(acc + (seq![v@] + items) =~= (acc + seq![v@]) + items);
                        },
                        DecSeqR::Fail(_) => {},
                    }
                }
                cur = newpos;
            },
            Err(e) => {
                proof {
                    assert(count - i > 0);
                    assert(dec_list(data@.skip(cur as int), el@, (count - i) as nat)
                        == DecSeqR::Fail(e));
                    assert(dec_list(rest0, el@, count as nat) == DecSeqR::Fail(e));
                    
                }
                return Err(e);
            },
        }
        i = i + 1;
    }
    proof {
        assert(dec_list(data@.skip(cur as int), el@, 0) == DecSeqR::Value(
            Seq::<ValueV>::empty(),
            0,
        ));
        assert(views_of(out@) + Seq::<ValueV>::empty() =~= views_of(out@));
    }
    Ok((out, cur))
}

/// Decodes the fields of a struct in layout order.
fn decode_struct_fields(data: &Vec<u8>, pos: usize, fs: &Vec<(Vec<char>, TypeLayout)>) -> (r:
    Result<(Vec<(Vec<char>, StructuredValue)>, usize), DecodeError>)
    requires
        pos <= data@.len(),
    ensures
        match r {
            Ok((entries, newpos)) => pos <= newpos <= data@.len() && dec_fields(
                data@.skip(pos as int),
                field_views_of(fs@),
            ) == DecFieldsR::Value(entry_views_of(entries@), (newpos - pos) as nat),
            Err(e) => dec_fields(data@.skip(pos as int), field_views_of(fs@))
                == DecFieldsR::Fail(e) && e != DecodeError::TrailingBytes,
        },
    decreases fs@, 1nat, 0nat,
{
    let ghost fv = field_views_of(fs@);
    let ghost rest0 = data@.skip(pos as int);
    proof {
        lemma_field_views_of(fs@);
    }
    let mut out: Vec<(Vec<char>, StructuredValue)> = Vec::new();
    let mut cur: usize = pos;
    let mut j: usize = 0;
    
    proof {
        assert(fv.skip(0) =~= fv);
        assert(entry_views_of(out@) =~= Seq::<(Seq<char>, ValueV)>::empty());
        match dec_fields(data@.skip(pos as int), fv) {
            DecFieldsR::Value(es, m) => {
                assert(entry_views_of(out@) + es =~= es);
            },
            DecFieldsR::Fail(_) => {},
        }
    }
    while j < fs.len()
        invariant
            j <= fs@.len(),
            pos <= cur <= data@.len(),
            rest0 == data@.skip(pos as int),
            fv == field_views_of(fs@),
            fv.len() == fs@.len(),
            forall|k: int| 0 <= k < fs@.len() ==> fv[k] == (#[trigger] fs@[k].0@, fs@[k].1@),
            match dec_fields(data@.skip(cur as int), fv.skip(j as int)) {
                DecFieldsR::Value(es, m) => dec_fields(rest0, fv) == DecFieldsR::Value(
                    entry_views_of(out@) + es,
                    ((cur - pos) + m) as nat,
                ),
                DecFieldsR::Fail(e) => dec_fields(rest0, fv) == DecFieldsR::Fail(e),
            },
        decreases fs@.len() - j,
    {
        let ghost rest = data@.skip(cur as int);
        let ghost acc = entry_views_of(out@);
        proof {
            assert(decreases_to!(fs@ => fs@[j as int]));
            assert(fv.skip(j as int)[0] == fv[j as int]);
            assert(fv.skip(j as int).drop_first() =~= fv.skip(j + 1));
        }
        match decode_value(data, cur, &fs[j].1) {
            Ok((v, newpos)) => {
                let ghost n = (newpos - cur) as nat;
                let name = copy_chars(&fs[j].0);
                let ghost pre = out@;
                out.push((name, v));
                proof {
                    let ghost entry = out@.last();
                    assert(rest.skip(n as int) =~= data@.skip(newpos as int));
                    lemma_entry_views_append(pre, seq![entry]);
                    assert(pre + seq![entry] =~= out@);
                    assert(seq![entry].drop_first().len() == 0);
                    assert(entry_views_of(seq![entry].drop_first())
                        =~= Seq::<(Seq<char>, ValueV)>::empty());
                    assert(entry_views_of(seq![entry]) =~= seq![(fs@[j as int].0@, v@)]);
                    assert(entry_views_of(out@) =~= acc + seq![(fv[j as int].0, v@)]);
                    match dec_fields(data@.skip(newpos as int), fv.skip(j + 1)) {
                        DecFieldsR::Value(es, m) => {
                            assert(acc + (seq![(fv[j as int].0, v@)] + es) =~= (acc + seq![
                                (fv[j as int].0, v@),
                            ]) + es);
                        },
                        DecFieldsR::Fail(_) => {},
                    }
                }
                cur = newpos;
            },
            Err(e) => {
                proof {
                    assert(fv.skip(j as int).len() > 0);
                    assert(dec_fields(data@.skip(cur as int), fv.skip(j as int))
                        == DecFieldsR::Fail(e));
                    assert(dec_fields(rest0, fv) == DecFieldsR::Fail(e));
                    
                }
                return Err(e);
            },
        }
        j = j + 1;
    }
    proof {
        assert(fv.skip(fs@.len() as int).len() == 0);
        assert(dec_fields(data@.skip(cur as int), fv.skip(fs@.len() as int))
            == DecFieldsR::Value(Seq::<(Seq<char>, ValueV)>::empty(), 0));
        assert(entry_views_of(out@) + Seq::<(Seq<char>, ValueV)>::empty()
            =~= entry_views_of(out@));
    }
    Ok((out, cur))
}

/// Decodes the value that starts at `pos` under the layout.  The result
/// and the bytes consumed, or the failure, are exactly what the layout's
/// decoding model prescribes.
#[verifier::rlimit(100)]
#[verifier::spinoff_prover]
pub fn decode_value(data: &Vec<u8>, pos: usize, l: &TypeLayout) -> (r: Result<
    (StructuredValue, usize),
    DecodeError,
>)
    requires
        pos <= data@.len(),
    ensures
        match r {
            Ok((v, newpos)) => pos <= newpos <= data@.len() && dec(data@.skip(pos as int), l@)
                == DecR::Value(v@, (newpos - pos) as nat),
            Err(e) => dec(data@.skip(pos as int), l@) == DecR::Fail(e) && e
                != DecodeError::TrailingBytes,
        },
    decreases *l, 0nat, 0nat,
{
    let ghost rest = data@.skip(pos as int);
    match l {
        TypeLayout::Bool => {
            if data.len() - pos < 1 {
                return Err(DecodeError::Truncated);
            }
            let b = data[pos];
            proof {
                assert(rest[0] == b);
            }
            if b == 0 {
                Ok((StructuredValue::Bool(false), pos + 1))
            } else if b == 1 {
                Ok((StructuredValue::Bool(true), pos + 1))
            } else {
                Err(DecodeError::InvalidBool)
            }
        },
        TypeLayout::UInt(w) => {
            match read_prefix(data, pos, *w) {
                Ok((k, newpos)) => Ok((StructuredValue::Number(k), newpos)),
                Err(e) => Err(e),
            }
        },
        TypeLayout::FixedBytes(n) => {
            if ((data.len() - pos) as u64) < (*n as u64) {
                return Err(DecodeError::Truncated);
            }
            let nn = *n as usize;
            let chunk = copy_range(data, pos, pos + nn);
            let hex = bytes_to_hex(&chunk);
            proof {
                assert(rest.take(*n as int) =~= data@.subrange(pos as int, pos + nn));
            }
            Ok((StructuredValue::Text(hex), pos + nn))
        },
        TypeLayout::VarBytes(w) => {
            match read_prefix(data, pos, *w) {
                Ok((k, mid)) => {
                    if ((data.len() - mid) as u64) < k {
                        proof {
                            lemma_pow256_values();
                        }
                        return Err(DecodeError::Truncated);
                    }
                    let klen = k as usize;
                    let chunk = copy_range(data, mid, mid + klen);
                    let hex = bytes_to_hex(&chunk);
                    proof {
                        assert(rest.subrange(w.bytes() as int, w.bytes() + k) =~= data@.subrange(
                            mid as int,
                            mid + klen,
                        ));
                    }
                    Ok((StructuredValue::Text(hex), mid + klen))
                },
                Err(e) => Err(e),
            }
        },
        TypeLayout::Text(w) => {
            match read_prefix(data, pos, *w) {
                Ok((k, mid)) => {
                    if ((data.len() - mid) as u64) < k {
                        return Err(DecodeError::Truncated);
                    }
                    let klen = k as usize;
                    proof {
                        assert(rest.subrange(w.bytes() as int, w.bytes() + k) =~= data@.subrange(
                            mid as int,
                            (mid + klen) as int,
                        ));
                    }
                    match chars_of_utf8(data, mid, mid + klen) {
                        Some(chars) => Ok((StructuredValue::Text(chars), mid + klen)),
                        None => Err(DecodeError::InvalidUtf8),
                    }
                },
                Err(e) => Err(e),
            }
        },
        TypeLayout::List(w, el) => {
            proof {
                assert(decreases_to!(*l => **el));
            }
            match read_prefix(data, pos, *w) {
                Ok((k, mid)) => {
                    match decode_list_items(data, mid, el, k) {
                        Ok((items, newpos)) => {
                            proof {
                                assert(rest.skip(w.bytes() as int) =~= data@.skip(mid as int));
                            }
                            Ok((StructuredValue::Array(items), newpos))
                        },
                        Err(e) => {
                            proof {
                                assert(rest.skip(w.bytes() as int) =~= data@.skip(mid as int));
                            }
                            Err(e)
                        },
                    }
                },
                Err(e) => Err(e),
            }
        },
        TypeLayout::Optional(el) => {
            if data.len() - pos < 1 {
                return Err(DecodeError::Truncated);
            }
            let b = data[pos];
            proof {
                assert(rest[0] == b);
            }
            if b == 0 {
                Ok((StructuredValue::Null, pos + 1))
            } else if b == 1 {
                proof {
                    assert(decreases_to!(*l => **el));
                    assert(rest.skip(1) =~= data@.skip(pos + 1));
                }
                match decode_value(data, pos + 1, el) {
                    Ok((v, newpos)) => Ok((v, newpos)),
                    Err(e) => Err(e),
                }
            } else {
                Err(DecodeError::InvalidBool)
            }
        },
        TypeLayout::Struct(fs) => {
            proof {
                assert(decreases_to!(*l => fs@));
            }
            match decode_struct_fields(data, pos, fs) {
                Ok((entries, newpos)) => Ok((StructuredValue::Object(entries), newpos)),
                Err(e) => Err(e),
            }
        },
        TypeLayout::Union(vs) => {
            proof {
                lemma_field_views_of(vs@);
            }
            let ghost vv = field_views_of(vs@);
            if data.len() - pos < 1 {
                return Err(DecodeError::Truncated);
            }
            let tag = data[pos];
            proof {
                assert(rest[0] == tag);
            }
            if (tag as usize) < vs.len() {
                proof {
                    assert(vv[tag as int] == (vs@[tag as int].0@, vs@[tag as int].1@));
                    assert(decreases_to!(*l => vs@));
                    assert(decreases_to!(vs@ => vs@[tag as int]));
                    assert(rest.skip(1) =~= data@.skip(pos + 1));
                }
                match decode_value(data, pos + 1, &vs[tag as usize].1) {
                    Ok((v, newpos)) => {
                        let name = copy_chars(&vs[tag as usize].0);
                        let entry = (name, v);
                        let mut entries: Vec<(Vec<char>, StructuredValue)> = Vec::new();
                        entries.push(entry);
                        let out = StructuredValue::Object(entries);
                        proof {
                            assert(entry_views_of(seq![(name, v)].drop_first())
                                =~= Seq::<(Seq<char>, ValueV)>::empty());
                            assert(entry_views_of(seq![(name, v)]) =~= seq![
                                (vs@[tag as int].0@, v@),
                            ]);
                            assert(out@ == ValueV::Object(seq![(vv[tag as int].0, v@)]));
                        }
                        Ok((out, newpos))
                    },
                    Err(e) => Err(e),
                }
            } else {
                Err(DecodeError::InvalidTag)
            }
        },
    }
}

/// Decodes a whole buffer: the layout must consume every byte, and bytes
/// left over are an error of their own.
pub fn decode(data: &Vec<u8>, l: &TypeLayout) -> (r: Result<StructuredValue, DecodeError>)
    ensures
        match r {
            Ok(v) => dec(data@, l@) == DecR::Value(v@, data@.len() as nat),
            Err(e) => if e == DecodeError::TrailingBytes {
                dec(data@, l@) matches DecR::Value(_, n) && n < data@.len()
            } else {
                dec(data@, l@) == DecR::Fail(e)
            },
        },
{
    proof {
        assert(data@.skip(0) =~= data@);
    }
    match decode_value(data, 0, l) {
        Ok((v, n)) => {
            if n == data.len() {
                Ok(v)
            } else {
                Err(DecodeError::TrailingBytes)
            }
        },
        Err(e) => Err(e),
    }
}

/// Decodes a prefix of the buffer, returning the value and how many bytes
/// it occupied; trailing bytes are left to the caller.
pub fn decode_prefix(data: &Vec<u8>, l: &TypeLayout) -> (r: Result<
    (StructuredValue, usize),
    DecodeError,
>)
    ensures
        match r {
            Ok((v, n)) => n <= data@.len() && dec(data@, l@) == DecR::Value(v@, n as nat),
            Err(e) => dec(data@, l@) == DecR::Fail(e),
        },
{
    proof {
        assert(data@.skip(0) =~= data@);
    }
    decode_value(data, 0, l)
}

} // verus!
