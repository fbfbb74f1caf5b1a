//! The codec's central laws, proved once and for all layouts.

use crate::codec::{
    conforms, dec, dec_fields, dec_list, enc, enc_fields, enc_list, encodable, fields_conform,
    list_conforms, obj_get, variant_index, DecFieldsR, DecR, DecSeqR, DecodeError, PathSegV,
};
use crate::hex::{hex_bytes_of, lemma_hex_chars_round_trip};
use crate::layout::{distinct_names, lemma_wf_fields_index, wf_fields, wf_layout, LayoutV};
use crate::values::ValueV;
use crate::wire::{le_bytes_of, lemma_le_bytes_len, lemma_le_round_trip};
use vstd::prelude::*;
use vstd::utf8::{encode_utf8, encode_utf8_decode_utf8, encode_utf8_valid_utf8};

verus! {

/// When a name is absent from every field, dropping the object's first
/// entry changes no field's encoding.
proof fn lemma_enc_fields_drop(
    entries: Seq<(Seq<char>, ValueV)>,
    fs2: Seq<(Seq<char>, LayoutV)>,
)
    requires
        entries.len() > 0,
        forall|k: int| 0 <= k < fs2.len() ==> (#[trigger] fs2[k].0) != entries[0].0,
    ensures
        enc_fields(entries, fs2) == enc_fields(entries.drop_first(), fs2),
    decreases fs2.len(),
{
    if fs2.len() > 0 {
        assert(forall|k: int|
            0 <= k < fs2.len() - 1 ==> fs2.drop_first()[k] == #[trigger] fs2[k + 1]);
        lemma_enc_fields_drop(entries, fs2.drop_first());
        assert(fs2[0].0 != entries[0].0);
        assert(obj_get(entries, fs2[0].0) == obj_get(entries.drop_first(), fs2[0].0));
    }
}

/// Decoding the encoding of a run of conforming elements yields the
/// elements and consumes exactly their bytes, whatever follows.
proof fn lemma_round_trip_list(items: Seq<ValueV>, el: LayoutV, rest: Seq<u8>)
    requires
        wf_layout(el),
        list_conforms(items, el),
    ensures
        dec_list(enc_list(items, el) + rest, el, items.len()) == DecSeqR::Value(
            items,
            enc_list(items, el).len(),
        ),
    decreases el, 1nat, items.len() + 1,
{
    if items.len() == 0 {
        assert(enc_list(items, el) =~= Seq::<u8>::empty());
        assert(items =~= Seq::<ValueV>::empty());
    } else {
        let head = enc(items[0], el);
        let tail = enc_list(items.drop_first(), el);
        assert(enc_list(items, el) == head + tail);
        assert((head + tail) + rest =~= head + (tail + rest));
        lemma_round_trip(items[0], el, tail + rest);
        let data = enc_list(items, el) + rest;
        assert(data =~= head + (tail + rest));
        assert(dec(data, el) == DecR::Value(items[0], head.len()));
        assert(data.skip(head.len() as int) =~= tail + rest);
        lemma_round_trip_list(items.drop_first(), el, rest);
        assert(dec_list(tail + rest, el, (items.len() - 1) as nat) == DecSeqR::Value(
            items.drop_first(),
            tail.len(),
        ));
        assert(seq![items[0]] + items.drop_first() =~= items);
        assert(dec_list(data, el, items.len()) == DecSeqR::Value(
            items,
            enc_list(items, el).len(),
        ));
    }
}

/// Decoding the encoding of a conforming field run yields the entries in
/// layout order and consumes exactly their bytes, whatever follows.
proof fn lemma_round_trip_fields(
    entries: Seq<(Seq<char>, ValueV)>,
    fs: Seq<(Seq<char>, LayoutV)>,
    rest: Seq<u8>,
)
    requires
        wf_fields(fs),
        distinct_names(fs),
        fields_conform(entries, fs),
    ensures
        dec_fields(enc_fields(entries, fs) + rest, fs) == DecFieldsR::Value(
            entries,
            enc_fields(entries, fs).len(),
        ),
    decreases fs, 1nat, 0nat,
{
    if fs.len() == 0 {
        assert(enc_fields(entries, fs) =~= Seq::<u8>::empty());
        assert(entries =~= Seq::<(Seq<char>, ValueV)>::empty());
    } else {
        assert(entries[0].0 == fs[0].0 && conforms(entries[0].1, fs[0].1));
        assert(obj_get(entries, fs[0].0) == Some(entries[0].1));
        let head = enc(entries[0].1, fs[0].1);
        assert(forall|k: int|
            0 <= k < fs.drop_first().len() ==> (#[trigger] fs.drop_first()[k]) == fs[k + 1]);
        lemma_enc_fields_drop(entries, fs.drop_first());
        let tail = enc_fields(entries.drop_first(), fs.drop_first());
        assert(enc_fields(entries, fs) == head + tail);
        assert((head + tail) + rest =~= head + (tail + rest));
        lemma_wf_fields_index(fs, 0);
        lemma_round_trip(entries[0].1, fs[0].1, tail + rest);
        let data = enc_fields(entries, fs) + rest;
        assert(data =~= head + (tail + rest));
        assert(dec(data, fs[0].1) == DecR::Value(entries[0].1, head.len()));
        assert(data.skip(head.len() as int) =~= tail + rest);
        assert(wf_fields(fs.drop_first()));
        assert(distinct_names(fs.drop_first())) by {
            assert(forall|i: int, j: int|
                0 <= i < j < fs.drop_first().len() ==> (#[trigger] fs.drop_first()[i],
                #[trigger] fs.drop_first()[j]) == (fs[i + 1], fs[j + 1]));
        }
        lemma_round_trip_fields(entries.drop_first(), fs.drop_first(), rest);
        assert(dec_fields(tail + rest, fs.drop_first()) == DecFieldsR::Value(
            entries.drop_first(),
            tail.len(),
        ));
        assert(seq![(fs[0].0, entries[0].1)] + entries.drop_first() =~= entries);
        assert(dec_fields(data, fs) == DecFieldsR::Value(entries, enc_fields(entries, fs).len()));
    }
}

/// Round trip: decoding the encoding of a value that conforms to a
/// well-formed layout yields the value back and consumes exactly its
/// bytes, whatever bytes follow.
#[verifier::rlimit(100)]
#[verifier::spinoff_prover]
pub proof fn lemma_round_trip(v: ValueV, l: LayoutV, rest: Seq<u8>)
    requires
        wf_layout(l),
        conforms(v, l),
    ensures
        dec(enc(v, l) + rest, l) == DecR::Value(v, enc(v, l).len()),
    decreases l, 0nat, 0nat,
{
    broadcast use encode_utf8_valid_utf8, encode_utf8_decode_utf8;

    let data = enc(v, l) + rest;
    match l {
        LayoutV::Bool => {
            let b = v->Bool_0;
            assert(data[0] == (if b { 1u8 } else { 0u8 }));
        },
        LayoutV::UInt(w) => {
            let n = v->Number_0;
            lemma_le_bytes_len(n, w);
            assert(data.take(w as int) =~= le_bytes_of(n, w));
            lemma_le_round_trip(n, w);
        },
        LayoutV::FixedBytes(n) => {
            let s = v->Text_0;
            lemma_hex_chars_round_trip(s);
            assert(data.take(n as int) =~= hex_bytes_of(s));
        },
        LayoutV::VarBytes(w) => {
            let s = v->Text_0;
            lemma_hex_chars_round_trip(s);
            let k = s.len() / 2;
            lemma_le_bytes_len(k, w);
            assert(data.take(w as int) =~= le_bytes_of(k, w));
            lemma_le_round_trip(k, w);
            assert(data.subrange(w as int, (w + k) as int) =~= hex_bytes_of(s));
        },
        LayoutV::Text(w) => {
            let s = v->Text_0;
            let bytes = encode_utf8(s);
            let k = bytes.len();
            lemma_le_bytes_len(k, w);
            assert(data.take(w as int) =~= le_bytes_of(k, w));
            lemma_le_round_trip(k, w);
            assert(data.subrange(w as int, (w + k) as int) =~= bytes);
        },
        LayoutV::List(w, el) => {
            let items = v->Array_0;
            let k = items.len();
            lemma_le_bytes_len(k, w);
            assert(data.take(w as int) =~= le_bytes_of(k, w));
            lemma_le_round_trip(k, w);
            assert(data.skip(w as int) =~= enc_list(items, *el) + rest);
            lemma_round_trip_list(items, *el, rest);
        },
        LayoutV::Optional(el) => {
            if v is Null {
                assert(data[0] == 0u8);
            } else {
                assert(data[0] == 1u8);
                assert(data.skip(1) =~= enc(v, *el) + rest);
                lemma_round_trip(v, *el, rest);
            }
        },
        LayoutV::Struct(fs) => {
            let entries = v->Object_0;
            lemma_round_trip_fields(entries, fs, rest);
        },
        LayoutV::Union(vs) => {
            let entries = v->Object_0;
            let name = entries[0].0;
            let pv = entries[0].1;
            let i = variant_index(vs, name)->0;
            crate::codec::lemma_variant_index(vs, name);
            assert(vs[i].0 == name);
            lemma_wf_fields_index(vs, i);
            assert(data[0] == i as u8);
            assert((i as u8) as int == i);
            assert(data.skip(1) =~= enc(pv, vs[i].1) + rest);
            lemma_round_trip(pv, vs[i].1, rest);
            assert(seq![(vs[i].0, pv)] =~= entries);
            assert(dec(data, l) == DecR::Value(v, enc(v, l).len()));
        },
    }
}

/// Round trip with nothing following: `dec` inverts `enc` on conforming
/// values exactly.
pub proof fn lemma_round_trip_exact(v: ValueV, l: LayoutV)
    requires
        wf_layout(l),
        conforms(v, l),
    ensures
        dec(enc(v, l), l) == DecR::Value(v, enc(v, l).len()),
{
    lemma_round_trip(v, l, Seq::<u8>::empty());
    assert(enc(v, l) + Seq::<u8>::empty() =~= enc(v, l));
}

/// A strict prefix of a conforming element run's encoding never decodes:
/// it fails with the truncation error.
proof fn lemma_truncation_list(items: Seq<ValueV>, el: LayoutV, n: int)
    requires
        wf_layout(el),
        list_conforms(items, el),
        0 <= n < enc_list(items, el).len(),
    ensures
        dec_list(enc_list(items, el).take(n), el, items.len()) == DecSeqR::Fail(
            DecodeError::Truncated,
        ),
    decreases el, 1nat, items.len() + 1,
{
    if items.len() == 0 {
        assert(enc_list(items, el) =~= Seq::<u8>::empty());
        assert(false);
    } else {
        let head = enc(items[0], el);
        let tail = enc_list(items.drop_first(), el);
        assert(enc_list(items, el) == head + tail);
        let data = enc_list(items, el).take(n);
        if n < head.len() {
            assert(data =~= head.take(n));
            lemma_truncation(items[0], el, n);
            assert(dec(data, el) == DecR::Fail(DecodeError::Truncated));
        } else {
            assert(data =~= head + tail.take(n - head.len()));
            lemma_round_trip(items[0], el, tail.take(n - head.len()));
            assert(dec(data, el) == DecR::Value(items[0], head.len()));
            assert(data.skip(head.len() as int) =~= tail.take(n - head.len()));
            lemma_truncation_list(items.drop_first(), el, n - head.len());
        }
    }
}

/// A strict prefix of a conforming field run's encoding never decodes:
/// it fails with the truncation error.
proof fn lemma_truncation_fields(
    entries: Seq<(Seq<char>, ValueV)>,
    fs: Seq<(Seq<char>, LayoutV)>,
    n: int,
)
    requires
        wf_fields(fs),
        distinct_names(fs),
        fields_conform(entries, fs),
        0 <= n < enc_fields(entries, fs).len(),
    ensures
        dec_fields(enc_fields(entries, fs).take(n), fs) == DecFieldsR::Fail(
            DecodeError::Truncated,
        ),
    decreases fs, 1nat, 0nat,
{
    if fs.len() == 0 {
        assert(enc_fields(entries, fs) =~= Seq::<u8>::empty());
        assert(false);
    } else {
        assert(entries[0].0 == fs[0].0 && conforms(entries[0].1, fs[0].1));
        assert(obj_get(entries, fs[0].0) == Some(entries[0].1));
        let head = enc(entries[0].1, fs[0].1);
        assert(forall|k: int|
            0 <= k < fs.drop_first().len() ==> (#[trigger] fs.drop_first()[k]) == fs[k + 1]);
        lemma_enc_fields_drop(entries, fs.drop_first());
        let tail = enc_fields(entries.drop_first(), fs.drop_first());
        assert(enc_fields(entries, fs) == head + tail);
        lemma_wf_fields_index(fs, 0);
        let data = enc_fields(entries, fs).take(n);
        if n < head.len() {
            assert(data =~= head.take(n));
            lemma_truncation(entries[0].1, fs[0].1, n);
            assert(dec(data, fs[0].1) == DecR::Fail(DecodeError::Truncated));
        } else {
            assert(data =~= head + tail.take(n - head.len()));
            lemma_round_trip(entries[0].1, fs[0].1, tail.take(n - head.len()));
            assert(dec(data, fs[0].1) == DecR::Value(entries[0].1, head.len()));
            assert(data.skip(head.len() as int) =~= tail.take(n - head.len()));
            assert(wf_fields(fs.drop_first()));
            assert(distinct_names(fs.drop_first())) by {
                assert(forall|i: int, j: int|
                    0 <= i < j < fs.drop_first().len() ==> (#[trigger] fs.drop_first()[i],
                    #[trigger] fs.drop_first()[j]) == (fs[i + 1], fs[j + 1]));
            }
            lemma_truncation_fields(entries.drop_first(), fs.drop_first(), n - head.len());
        }
    }
}

/// Truncation: a strict prefix of a conforming value's encoding never
/// decodes — whatever the layout and wherever the cut falls, the decoder
/// fails with the truncation error, never with a value.
#[verifier::rlimit(100)]
#[verifier::spinoff_prover]
pub proof fn lemma_truncation(v: ValueV, l: LayoutV, n: int)
    requires
        wf_layout(l),
        conforms(v, l),
        0 <= n < enc(v, l).len(),
    ensures
        dec(enc(v, l).take(n), l) == DecR::Fail(DecodeError::Truncated),
    decreases l, 0nat, 0nat,
{
    let data = enc(v, l).take(n);
    match l {
        LayoutV::Bool => {
            assert(data.len() < 1);
        },
        LayoutV::UInt(w) => {
            let m = v->Number_0;
            lemma_le_bytes_len(m, w);
            assert(data.len() < w);
        },
        LayoutV::FixedBytes(k) => {
            let s = v->Text_0;
            lemma_hex_chars_round_trip(s);
            assert(data.len() < k);
        },
        LayoutV::VarBytes(w) => {
            let s = v->Text_0;
            lemma_hex_chars_round_trip(s);
            let k = s.len() / 2;
            lemma_le_bytes_len(k, w);
            if n >= w {
                assert(data.take(w as int) =~= le_bytes_of(k, w));
                lemma_le_round_trip(k, w);
                assert(data.len() < w + k);
            }
        },
        LayoutV::Text(w) => {
            let s = v->Text_0;
            let bytes = encode_utf8(s);
            let k = bytes.len();
            lemma_le_bytes_len(k, w);
            if n >= w {
                assert(data.take(w as int) =~= le_bytes_of(k, w));
                lemma_le_round_trip(k, w);
                assert(data.len() < w + k);
            }
        },
        LayoutV::List(w, el) => {
            let items = v->Array_0;
            let k = items.len();
            lemma_le_bytes_len(k, w);
            if n >= w {
                assert(data.take(w as int) =~= le_bytes_of(k, w));
                lemma_le_round_trip(k, w);
                assert(data.skip(w as int) =~= enc_list(items, *el).take(n - w));
                lemma_truncation_list(items, *el, n - w);
            }
        },
        LayoutV::Optional(el) => {
            if !(v is Null) && n >= 1 {
                assert(data[0] == 1u8);
                assert(data.skip(1) =~= enc(v, *el).take(n - 1));
                lemma_truncation(v, *el, n - 1);
            }
        },
        LayoutV::Struct(fs) => {
            let entries = v->Object_0;
            lemma_truncation_fields(entries, fs, n);
        },
        LayoutV::Union(vs) => {
            let entries = v->Object_0;
            let name = entries[0].0;
            let pv = entries[0].1;
            let i = variant_index(vs, name)->0;
            crate::codec::lemma_variant_index(vs, name);
            lemma_wf_fields_index(vs, i);
            if n >= 1 {
                assert(data[0] == i as u8);
                assert((i as u8) as int == i);
                assert(data.skip(1) =~= enc(pv, vs[i].1).take(n - 1));
                lemma_truncation(pv, vs[i].1, n - 1);
            }
        },
    }
}

/// A union buffer whose tag byte matches no declared variant never
/// decodes: it fails with the invalid-tag error.
pub proof fn lemma_union_unknown_tag(data: Seq<u8>, vs: Seq<(Seq<char>, LayoutV)>)
    requires
        data.len() >= 1,
        data[0] >= vs.len(),
    ensures
        dec(data, LayoutV::Union(vs)) == DecR::Fail(DecodeError::InvalidTag),
{
}

/// Each element of an encodable run is itself encodable.
proof fn lemma_list_encodable_index(items: Seq<ValueV>, el: LayoutV, k: int)
    requires
        crate::codec::list_encodable(items, el),
        0 <= k < items.len(),
    ensures
        encodable(items[k], el),
    decreases k,
{
    if k > 0 {
        assert(items.drop_first()[k - 1] == items[k]);
        lemma_list_encodable_index(items.drop_first(), el, k - 1);
    }
}

/// Each field of an encodable object holds an encodable value under the
/// field's name.
proof fn lemma_fields_encodable_index(
    entries: Seq<(Seq<char>, ValueV)>,
    fs: Seq<(Seq<char>, LayoutV)>,
    k: int,
)
    requires
        crate::codec::fields_encodable(entries, fs),
        0 <= k < fs.len(),
    ensures
        obj_get(entries, fs[k].0) matches Some(sub) && encodable(sub, fs[k].1),
    decreases k,
{
    if k > 0 {
        assert(fs.drop_first()[k - 1] == fs[k]);
        lemma_fields_encodable_index(entries, fs.drop_first(), k - 1);
    }
}

/// Rejection: a value that fails its layout at any nested path is not
/// encodable, so encoding it always fails — it is never silently
/// coerced.  Together with the encoder's contract, the error names such
/// a path.
pub proof fn lemma_fault_rejects(
    v: ValueV,
    l: LayoutV,
    path: Seq<PathSegV>,
    reason: crate::codec::EncodeReason,
)
    requires
        crate::codec::fault(v, l, path, reason),
    ensures
        !encodable(v, l),
    decreases path.len(), l,
{
    match l {
        LayoutV::Optional(el) => {
            lemma_fault_rejects(v, *el, path, reason);
        },
        _ => {
            if path.len() == 0 {
            } else {
                match path[0] {
                    PathSegV::Field(name) => match l {
                        LayoutV::Struct(fs) => {
                            let entries = v->Object_0;
                            let i = variant_index(fs, name)->0;
                            crate::codec::lemma_variant_index(fs, name);
                            if encodable(v, l) {
                                lemma_fields_encodable_index(entries, fs, i);
                                match obj_get(entries, name) {
                                    Some(sub) => {
                                        lemma_fault_rejects(
                                            sub,
                                            fs[i].1,
                                            path.drop_first(),
                                            reason,
                                        );
                                    },
                                    None => {},
                                }
                                assert(false);
                            }
                        },
                        LayoutV::Union(vs) => {
                            let entries = v->Object_0;
                            let i = variant_index(vs, name)->0;
                            crate::codec::lemma_variant_index(vs, name);
                            if encodable(v, l) {
                                lemma_fault_rejects(
                                    entries[0].1,
                                    vs[i].1,
                                    path.drop_first(),
                                    reason,
                                );
                                assert(false);
                            }
                        },
                        _ => {},
                    },
                    PathSegV::Index(i) => match l {
                        LayoutV::List(_, el) => {
                            let items = v->Array_0;
                            if encodable(v, l) {
                                lemma_list_encodable_index(items, *el, i);
                                lemma_fault_rejects(items[i], *el, path.drop_first(), reason);
                                assert(false);
                            }
                        },
                        _ => {},
                    },
                }
            }
        },
    }
}

} // verus!
