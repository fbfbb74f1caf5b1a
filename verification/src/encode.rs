//! Executable encoding of structured values into wire bytes.

use crate::codec::{
    enc, enc_fields, enc_list, encodable, fault, fields_encodable, list_encodable,
    obj_get, path_views_of, variant_index, EncodeError, EncodeReason, PathSeg, PathSegV,
};
use crate::hex::hex_to_bytes;
use crate::layout::{
    distinct_names, field_views_of, lemma_field_views_of, lemma_wf_fields_index, wf_fields,
    wf_layout, LayoutV, TypeLayout, Width,
};
use crate::text::utf8_of_chars;
use crate::values::{
    entry_views_of, lemma_entry_views_of, lemma_views_of, views_of, StructuredValue, ValueV,
};
use crate::wire::{lemma_pow256_values, pow256, write_le};
use vstd::prelude::*;

verus! {

/// A fresh copy of a character vector.
pub fn copy_chars(a: &Vec<char>) -> (r: Vec<char>)
    ensures
        r@ == a@,
{
    let mut out: Vec<char> = Vec::new();
    let mut i: usize = 0;
    while i < a.len()
        invariant
            i <= a@.len(),
            out@ == a@.take(i as int),
        decreases a@.len() - i,
    {
        out.push(a[i]);
        proof {
            assert(out@ =~= a@.take(i + 1));
        }
        i = i + 1;
    }
    proof {
        assert(a@.take(a@.len() as int) =~= a@);
    }
    out
}

/// Character-for-character equality of two character vectors.
pub fn chars_eq(a: &Vec<char>, b: &Vec<char>) -> (r: bool)
    ensures
        r == (a@ == b@),
{
    if a.len() != b.len() {
        return false;
    }
    let mut i: usize = 0;
    while i < a.len()
        invariant
            i <= a@.len(),
            a@.len() == b@.len(),
            forall|j: int| 0 <= j < i ==> a@[j] == b@[j],
        decreases a@.len() - i,
    {
        if a[i] != b[i] {
            return false;
        }
        i = i + 1;
    }
    proof {
        assert(a@ =~= b@);
    }
    true
}

/// `variant_index` finds exactly the first index carrying a name.
pub proof fn lemma_variant_index_at(vs: Seq<(Seq<char>, LayoutV)>, k: int)
    requires
        0 <= k < vs.len(),
        forall|j: int| 0 <= j < k ==> (#[trigger] vs[j].0) != vs[k].0,
    ensures
        variant_index(vs, vs[k].0) == Some(k),
{
    crate::codec::lemma_variant_index(vs, vs[k].0);
}

/// `obj_get` returns the value at the first index carrying the name.
pub proof fn lemma_obj_get_at(entries: Seq<(Seq<char>, ValueV)>, name: Seq<char>, k: int)
    requires
        0 <= k < entries.len(),
        entries[k].0 == name,
        forall|j: int| 0 <= j < k ==> (#[trigger] entries[j].0) != name,
    ensures
        obj_get(entries, name) == Some(entries[k].1),
    decreases k,
{
    if k > 0 {
        assert(forall|j: int|
            0 <= j < k - 1 ==> entries.drop_first()[j] == #[trigger] entries[j + 1]);
        assert(entries.drop_first()[k - 1] == entries[k]);
        lemma_obj_get_at(entries.drop_first(), name, k - 1);
    }
}

/// When no index carries the name, `obj_get` finds nothing.
pub proof fn lemma_obj_get_none(entries: Seq<(Seq<char>, ValueV)>, name: Seq<char>)
    requires
        forall|j: int| 0 <= j < entries.len() ==> (#[trigger] entries[j].0) != name,
    ensures
        obj_get(entries, name) is None,
    decreases entries,
{
    if entries.len() > 0 {
        assert(forall|j: int|
            0 <= j < entries.len() - 1 ==> entries.drop_first()[j] == #[trigger] entries[j + 1]);
        lemma_obj_get_none(entries.drop_first(), name);
    }
}

/// Finds the first entry of the object carrying the name.
fn obj_find(entries: &Vec<(Vec<char>, StructuredValue)>, name: &Vec<char>) -> (r: Option<usize>)
    ensures
        match r {
            Some(i) => i < entries@.len() && entries@[i as int].0@ == name@ && obj_get(
                entry_views_of(entries@),
                name@,
            ) == Some(entries@[i as int].1@),
            None => obj_get(entry_views_of(entries@), name@) is None,
        },
{
    let mut i: usize = 0;
    while i < entries.len()
        invariant
            i <= entries@.len(),
            forall|j: int| 0 <= j < i ==> (#[trigger] entries@[j].0@) != name@,
        decreases entries@.len() - i,
    {
        if chars_eq(&entries[i].0, name) {
            proof {
                let ev = entry_views_of(entries@);
                lemma_entry_views_of(entries@);
                assert forall|j: int| 0 <= j < i implies (#[trigger] ev[j].0) != name@ by {
                    assert(ev[j] == (entries@[j].0@, entries@[j].1@));
                }
                assert(ev[i as int] == (entries@[i as int].0@, entries@[i as int].1@));
                lemma_obj_get_at(ev, name@, i as int);
            }
            return Some(i);
        }
        i = i + 1;
    }
    proof {
        let ev = entry_views_of(entries@);
        lemma_entry_views_of(entries@);
        assert forall|j: int| 0 <= j < ev.len() implies (#[trigger] ev[j].0) != name@ by {
            assert(ev[j] == (entries@[j].0@, entries@[j].1@));
        }
        lemma_obj_get_none(ev, name@);
    }
    None
}

/// Finds the first field of the layout list carrying the name.
fn field_find(vs: &Vec<(Vec<char>, TypeLayout)>, name: &Vec<char>) -> (r: Option<usize>)
    ensures
        match r {
            Some(i) => i < vs@.len() && vs@[i as int].0@ == name@ && variant_index(
                field_views_of(vs@),
                name@,
            ) == Some(i as int),
            None => variant_index(field_views_of(vs@), name@) is None,
        },
{
    let mut i: usize = 0;
    while i < vs.len()
        invariant
            i <= vs@.len(),
            forall|j: int| 0 <= j < i ==> (#[trigger] vs@[j].0@) != name@,
        decreases vs@.len() - i,
    {
        if chars_eq(&vs[i].0, name) {
            proof {
                let fv = field_views_of(vs@);
                lemma_field_views_of(vs@);
                assert forall|j: int| 0 <= j < i implies (#[trigger] fv[j].0) != name@ by {
                    assert(fv[j] == (vs@[j].0@, vs@[j].1@));
                }
                assert(fv[i as int] == (vs@[i as int].0@, vs@[i as int].1@));
                lemma_variant_index_at(fv, i as int);
            }
            return Some(i);
        }
        i = i + 1;
    }
    proof {
        let fv = field_views_of(vs@);
        lemma_field_views_of(vs@);
        assert forall|j: int| 0 <= j < fv.len() implies (#[trigger] fv[j].0) != name@ by {
            assert(fv[j] == (vs@[j].0@, vs@[j].1@));
        }
        crate::codec::lemma_variant_index(fv, name@);
    }
    None
}

/// Splitting a path splits its model.
pub proof fn lemma_path_views_append(a: Seq<PathSeg>, b: Seq<PathSeg>)
    ensures
        path_views_of(a + b) == path_views_of(a) + path_views_of(b),
    decreases a,
{
    if a.len() == 0 {
        assert(a + b =~= b);
        assert(path_views_of(a) + path_views_of(b) =~= path_views_of(b));
    } else {
        lemma_path_views_append(a.drop_first(), b);
        assert((a + b).drop_first() =~= a.drop_first() + b);
        assert((a + b)[0] == a[0]);
        assert(path_views_of(a + b) =~= path_views_of(a) + path_views_of(b));
    }
}

/// An error of a nested location, seen from one level further out.
fn nest_error(seg: PathSeg, e: EncodeError) -> (r: EncodeError)
    ensures
        path_views_of(r.path@) == seq![seg@] + path_views_of(e.path@),
        r.reason == e.reason,
{
    let ghost segv = seg@;
    let ghost orig = e.path@;
    let mut e = e;
    let mut p: Vec<PathSeg> = Vec::new();
    let ghost seg_snap = seg;
    p.push(seg);
    p.append(&mut e.path);
    proof {
        assert(p@ =~= seq![seg_snap] + orig);
        lemma_path_views_append(seq![seg_snap], orig);
        assert(seq![seg_snap].drop_first().len() == 0);
        assert(path_views_of(seq![seg_snap].drop_first()) =~= Seq::<PathSegV>::empty());
        assert(path_views_of(seq![seg_snap]) =~= seq![segv]);
    }
    EncodeError { path: p, reason: e.reason }
}

/// An error at the location itself.
fn here_error(reason: EncodeReason) -> (r: EncodeError)
    ensures
        path_views_of(r.path@) == Seq::<PathSegV>::empty(),
        r.reason == reason,
{
    let p: Vec<PathSeg> = Vec::new();
    proof {
        assert(path_views_of(p@) =~= Seq::<PathSegV>::empty());
    }
    EncodeError { path: p, reason }
}

/// Whether a length fits the range of a width's prefix.
fn len_fits(n: u64, w: Width) -> (r: bool)
    ensures
        r == ((n as nat) < pow256(w.bytes())),
{
    proof {
        lemma_pow256_values();
    }
    match w {
        Width::B1 => n < 0x100,
        Width::B2 => n < 0x1_0000,
        Width::B4 => n < 0x1_0000_0000,
        Width::B8 => true,
    }
}

/// Splitting an element run splits its wire bytes and its encodability.
pub proof fn lemma_enc_list_append(items: Seq<ValueV>, tail: Seq<ValueV>, el: LayoutV)
    ensures
        enc_list(items + tail, el) == enc_list(items, el) + enc_list(tail, el),
        list_encodable(items + tail, el) == (list_encodable(items, el) && list_encodable(
            tail,
            el,
        )),
    decreases items.len(),
{
    if items.len() == 0 {
        assert(items + tail =~= tail);
        assert(enc_list(items, el) + enc_list(tail, el) =~= enc_list(tail, el));
    } else {
        lemma_enc_list_append(items.drop_first(), tail, el);
        assert((items + tail).drop_first() =~= items.drop_first() + tail);
        assert((items + tail)[0] == items[0]);
        assert(enc_list(items + tail, el) =~= enc_list(items, el) + enc_list(tail, el));
    }
}

/// Splitting a field run splits its wire bytes and its encodability.
pub proof fn lemma_enc_fields_append(
    entries: Seq<(Seq<char>, ValueV)>,
    fs: Seq<(Seq<char>, LayoutV)>,
    tail: Seq<(Seq<char>, LayoutV)>,
)
    ensures
        enc_fields(entries, fs + tail) == enc_fields(entries, fs) + enc_fields(entries, tail),
        fields_encodable(entries, fs + tail) == (fields_encodable(entries, fs)
            && fields_encodable(entries, tail)),
    decreases fs.len(),
{
    if fs.len() == 0 {
        assert(fs + tail =~= tail);
        assert(enc_fields(entries, fs) + enc_fields(entries, tail) =~= enc_fields(entries, tail));
    } else {
        lemma_enc_fields_append(entries, fs.drop_first(), tail);
        assert((fs + tail).drop_first() =~= fs.drop_first() + tail);
        assert((fs + tail)[0] == fs[0]);
        assert(enc_fields(entries, fs + tail) =~= enc_fields(entries, fs) + enc_fields(
            entries,
            tail,
        ));
    }
}

/// Encodes the elements of an array one after the other.  On failure the
/// error's path starts with the failing element's index.
fn encode_list_items(items: &Vec<StructuredValue>, el: &TypeLayout) -> (r: Result<
    Vec<u8>,
    EncodeError,
>)
    requires
        wf_layout(el@),
    ensures
        match r {
            Ok(out) => list_encodable(views_of(items@), el@) && out@ == enc_list(
                views_of(items@),
                el@,
            ),
            Err(e) => !list_encodable(views_of(items@), el@) && ({
                let p = path_views_of(e.path@);
                &&& p.len() >= 1
                &&& p[0] matches PathSegV::Index(i)
                &&& 0 <= p[0]->Index_0 < views_of(items@).len()
                &&& fault(views_of(items@)[p[0]->Index_0], el@, p.drop_first(), e.reason)
            }),
        },
    decreases *el, 1nat, 0nat,
{
    let ghost iv = views_of(items@);
    proof {
        lemma_views_of(items@);
        assert(iv.take(0) =~= Seq::<ValueV>::empty());
    }
    let mut out: Vec<u8> = Vec::new();
    let mut idx: usize = 0;
    while idx < items.len()
        invariant
            idx <= items@.len(),
            wf_layout(el@),
            iv == views_of(items@),
            iv.len() == items@.len(),
            forall|j: int| 0 <= j < items@.len() ==> iv[j] == #[trigger] items@[j]@,
            list_encodable(iv.take(idx as int), el@),
            out@ == enc_list(iv.take(idx as int), el@),
        decreases items@.len() - idx,
    {
        proof {
            assert(decreases_to!(items@ => items@[idx as int]));
        }
        match encode_value(&items[idx], el) {
            Ok(piece) => {
                let mut piece = piece;
                out.append(&mut piece);
                proof {
                    let single = seq![iv[idx as int]];
                    lemma_enc_list_append(iv.take(idx as int), single, el@);
                    assert(iv.take(idx + 1) =~= iv.take(idx as int) + single);
                    assert(single.drop_first().len() == 0);
                    assert(enc_list(single.drop_first(), el@) =~= Seq::<u8>::empty());
                    assert(list_encodable(single.drop_first(), el@));
                    assert(enc_list(single, el@) =~= enc(iv[idx as int], el@));
                    assert(out@ =~= enc_list(iv.take(idx + 1), el@));
                }
            },
            Err(e) => {
                let e2 = nest_error(PathSeg::Index(idx), e);
                proof {
                    let p = path_views_of(e2.path@);
                    assert(p[0] == PathSegV::Index(idx as int));
                    assert(p.drop_first() =~= path_views_of(e.path@));
                    lemma_enc_list_append(iv.take(idx as int), iv.skip(idx as int), el@);
                    assert(iv.take(idx as int) + iv.skip(idx as int) =~= iv);
                    assert(iv.skip(idx as int)[0] == iv[idx as int]);
                    assert(!list_encodable(iv, el@));
                }
                return Err(e2);
            },
        }
        idx = idx + 1;
    }
    proof {
        assert(iv.take(items@.len() as int) =~= iv);
    }
    Ok(out)
}

/// Encodes the fields of an object in layout order, each found by name.
/// On failure the error names the failing field.
fn encode_struct_fields(
    entries: &Vec<(Vec<char>, StructuredValue)>,
    fs: &Vec<(Vec<char>, TypeLayout)>,
) -> (r: Result<Vec<u8>, EncodeError>)
    requires
        wf_fields(field_views_of(fs@)),
        distinct_names(field_views_of(fs@)),
    ensures
        match r {
            Ok(out) => fields_encodable(entry_views_of(entries@), field_views_of(fs@)) && out@
                == enc_fields(entry_views_of(entries@), field_views_of(fs@)),
            Err(e) => !fields_encodable(entry_views_of(entries@), field_views_of(fs@)) && fault(
                ValueV::Object(entry_views_of(entries@)),
                LayoutV::Struct(field_views_of(fs@)),
                path_views_of(e.path@),
                e.reason,
            ),
        },
    decreases fs@, 1nat, 0nat,
{
    let ghost fv = field_views_of(fs@);
    let ghost ev = entry_views_of(entries@);
    proof {
        lemma_field_views_of(fs@);
        lemma_entry_views_of(entries@);
        assert(fv.take(0) =~= Seq::<(Seq<char>, LayoutV)>::empty());
    }
    let mut out: Vec<u8> = Vec::new();
    let mut j: usize = 0;
    while j < fs.len()
        invariant
            j <= fs@.len(),
            fv == field_views_of(fs@),
            ev == entry_views_of(entries@),
            wf_fields(fv),
            distinct_names(fv),
            fv.len() == fs@.len(),
            forall|k: int| 0 <= k < fs@.len() ==> fv[k] == (#[trigger] fs@[k].0@, fs@[k].1@),
            fields_encodable(ev, fv.take(j as int)),
            out@ == enc_fields(ev, fv.take(j as int)),
        decreases fs@.len() - j,
    {
        let name = &fs[j].0;
        proof {
            lemma_wf_fields_index(fv, j as int);
            assert(decreases_to!(fs@ => fs@[j as int]));
        }
        match obj_find(entries, name) {
            Some(i) => {
                match encode_value(&entries[i].1, &fs[j].1) {
                    Ok(piece) => {
                        let mut piece = piece;
                        out.append(&mut piece);
                        proof {
                            let single = seq![fv[j as int]];
                            lemma_enc_fields_append(ev, fv.take(j as int), single);
                            assert(fv.take(j + 1) =~= fv.take(j as int) + single);
                            assert(single.drop_first().len() == 0);
                            assert(enc_fields(ev, single.drop_first()) =~= Seq::<u8>::empty());
                            assert(fields_encodable(ev, single.drop_first()));
                            assert(obj_get(ev, name@) == Some(entries@[i as int].1@));
                            assert(enc_fields(ev, single) =~= enc(
                                entries@[i as int].1@,
                                fv[j as int].1,
                            ));
                            assert(out@ =~= enc_fields(ev, fv.take(j + 1)));
                        }
                    },
                    Err(e) => {
                        let e2 = nest_error(PathSeg::Field(copy_chars(name)), e);
                        proof {
                            let p = path_views_of(e2.path@);
                            assert(p[0] == PathSegV::Field(name@));
                            assert(p.drop_first() =~= path_views_of(e.path@));
                            lemma_variant_index_at(fv, j as int);
                            lemma_enc_fields_append(ev, fv.take(j as int), fv.skip(j as int));
                            assert(fv.take(j as int) + fv.skip(j as int) =~= fv);
                            assert(fv.skip(j as int)[0] == fv[j as int]);
                            assert(!fields_encodable(ev, fv));
                        }
                        return Err(e2);
                    },
                }
            },
            None => {
                let e2 = EncodeError {
                    path: vec![PathSeg::Field(copy_chars(name))],
                    reason: EncodeReason::MissingField,
                };
                proof {
                    let p = path_views_of(e2.path@);
                    assert(e2.path@.drop_first().len() == 0);
                    assert(path_views_of(e2.path@.drop_first()) =~= Seq::<PathSegV>::empty());
                    assert(p =~= seq![PathSegV::Field(name@)]);
                    lemma_variant_index_at(fv, j as int);
                    lemma_enc_fields_append(ev, fv.take(j as int), fv.skip(j as int));
                    assert(fv.take(j as int) + fv.skip(j as int) =~= fv);
                    assert(fv.skip(j as int)[0] == fv[j as int]);
                    assert(!fields_encodable(ev, fv));
                }
                return Err(e2);
            },
        }
        j = j + 1;
    }
    proof {
        assert(fv.take(fs@.len() as int) =~= fv);
    }
    Ok(out)
}

/// Encodes a boolean.
fn encode_bool(v: &StructuredValue) -> (r: Result<Vec<u8>, EncodeError>)
    ensures
        match r {
            Ok(out) => encodable(v@, LayoutV::Bool) && out@ == enc(v@, LayoutV::Bool),
            Err(e) => !encodable(v@, LayoutV::Bool) && fault(
                v@,
                LayoutV::Bool,
                path_views_of(e.path@),
                e.reason,
            ),
        },
{
    match v {
        StructuredValue::Bool(b) => Ok(vec![if *b { 1u8 } else { 0u8 }]),
        _ => Err(here_error(EncodeReason::KindMismatch)),
    }
}

/// Encodes a fixed-width little-endian integer.
fn encode_uint(v: &StructuredValue, w: Width) -> (r: Result<Vec<u8>, EncodeError>)
    ensures
        match r {
            Ok(out) => encodable(v@, LayoutV::UInt(w.bytes())) && out@ == enc(
                v@,
                LayoutV::UInt(w.bytes()),
            ),
            Err(e) => !encodable(v@, LayoutV::UInt(w.bytes())) && fault(
                v@,
                LayoutV::UInt(w.bytes()),
                path_views_of(e.path@),
                e.reason,
            ),
        },
{
    match v {
        StructuredValue::Number(n) => {
            if len_fits(*n, w) {
                let mut out: Vec<u8> = Vec::new();
                write_le(&mut out, *n, w);
                proof {
                    assert(out@ =~= enc(v@, LayoutV::UInt(w.bytes())));
                }
                Ok(out)
            } else {
                Err(here_error(EncodeReason::OutOfRange))
            }
        },
        _ => Err(here_error(EncodeReason::KindMismatch)),
    }
}

/// Encodes a fixed-size byte string given as hex text.
fn encode_fixed_bytes(v: &StructuredValue, n: u32) -> (r: Result<Vec<u8>, EncodeError>)
    ensures
        match r {
            Ok(out) => encodable(v@, LayoutV::FixedBytes(n as nat)) && out@ == enc(
                v@,
                LayoutV::FixedBytes(n as nat),
            ),
            Err(e) => !encodable(v@, LayoutV::FixedBytes(n as nat)) && fault(
                v@,
                LayoutV::FixedBytes(n as nat),
                path_views_of(e.path@),
                e.reason,
            ),
        },
{
    match v {
        StructuredValue::Text(s) => {
            if (s.len() as u64) != 2 * (n as u64) {
                Err(here_error(EncodeReason::BadLength))
            } else {
                match hex_to_bytes(s) {
                    Some(out) => Ok(out),
                    None => Err(here_error(EncodeReason::BadHex)),
                }
            }
        },
        _ => Err(here_error(EncodeReason::KindMismatch)),
    }
}

/// Encodes a length-prefixed byte string given as hex text.
fn encode_var_bytes(v: &StructuredValue, w: Width) -> (r: Result<Vec<u8>, EncodeError>)
    ensures
        match r {
            Ok(out) => encodable(v@, LayoutV::VarBytes(w.bytes())) && out@ == enc(
                v@,
                LayoutV::VarBytes(w.bytes()),
            ),
            Err(e) => !encodable(v@, LayoutV::VarBytes(w.bytes())) && fault(
                v@,
                LayoutV::VarBytes(w.bytes()),
                path_views_of(e.path@),
                e.reason,
            ),
        },
{
    match v {
        StructuredValue::Text(s) => match hex_to_bytes(s) {
            Some(bytes) => {
                proof {
                    crate::hex::lemma_hex_chars_round_trip(s@);
                }
                if len_fits(bytes.len() as u64, w) {
                    let mut out: Vec<u8> = Vec::new();
                    write_le(&mut out, bytes.len() as u64, w);
                    let mut bytes = bytes;
                    out.append(&mut bytes);
                    proof {
                        assert(out@ =~= enc(v@, LayoutV::VarBytes(w.bytes())));
                    }
                    Ok(out)
                } else {
                    Err(here_error(EncodeReason::TooLong))
                }
            },
            None => Err(here_error(EncodeReason::BadHex)),
        },
        _ => Err(here_error(EncodeReason::KindMismatch)),
    }
}

/// Encodes length-prefixed UTF-8 text.
fn encode_text(v: &StructuredValue, w: Width) -> (r: Result<Vec<u8>, EncodeError>)
    ensures
        match r {
            Ok(out) => encodable(v@, LayoutV::Text(w.bytes())) && out@ == enc(
                v@,
                LayoutV::Text(w.bytes()),
            ),
            Err(e) => !encodable(v@, LayoutV::Text(w.bytes())) && fault(
                v@,
                LayoutV::Text(w.bytes()),
                path_views_of(e.path@),
                e.reason,
            ),
        },
{
    match v {
        StructuredValue::Text(s) => {
            let bytes = utf8_of_chars(s);
            if len_fits(bytes.len() as u64, w) {
                let mut out: Vec<u8> = Vec::new();
                write_le(&mut out, bytes.len() as u64, w);
                let mut bytes = bytes;
                out.append(&mut bytes);
                proof {
                    assert(out@ =~= enc(v@, LayoutV::Text(w.bytes())));
                }
                Ok(out)
            } else {
                Err(here_error(EncodeReason::TooLong))
            }
        },
        _ => Err(here_error(EncodeReason::KindMismatch)),
    }
}

/// Encodes a length-prefixed sequence: the element count, then the
/// elements.
fn encode_list(items: &Vec<StructuredValue>, w: Width, el: &TypeLayout) -> (r: Result<
    Vec<u8>,
    EncodeError,
>)
    requires
        wf_layout(el@),
    ensures
        ({
            let vv = ValueV::Array(views_of(items@));
            let lv = LayoutV::List(w.bytes(), Box::new(el@));
            match r {
                Ok(out) => encodable(vv, lv) && out@ == enc(vv, lv),
                Err(e) => !encodable(vv, lv) && fault(vv, lv, path_views_of(e.path@), e.reason),
            }
        }),
    decreases *el, 2nat, 0nat,
{
    let ghost vv = ValueV::Array(views_of(items@));
    let ghost lv = LayoutV::List(w.bytes(), Box::new(el@));
    proof {
        lemma_views_of(items@);
    }
    if !len_fits(items.len() as u64, w) {
        return Err(here_error(EncodeReason::TooLong));
    }
    match encode_list_items(items, el) {
        Ok(body) => {
            let mut out: Vec<u8> = Vec::new();
            write_le(&mut out, items.len() as u64, w);
            let mut body = body;
            out.append(&mut body);
            proof {
                assert(out@ =~= enc(vv, lv));
            }
            Ok(out)
        },
        Err(e) => Err(e),
    }
}

/// Encodes a tagged-union value: the variant's index as one byte, then
/// its payload.
fn encode_union(
    entries: &Vec<(Vec<char>, StructuredValue)>,
    vs: &Vec<(Vec<char>, TypeLayout)>,
) -> (r: Result<Vec<u8>, EncodeError>)
    requires
        wf_layout(LayoutV::Union(field_views_of(vs@))),
    ensures
        ({
            let vv = ValueV::Object(entry_views_of(entries@));
            let lv = LayoutV::Union(field_views_of(vs@));
            match r {
                Ok(out) => encodable(vv, lv) && out@ == enc(vv, lv),
                Err(e) => !encodable(vv, lv) && fault(vv, lv, path_views_of(e.path@), e.reason),
            }
        }),
    decreases vs@, 1nat, 0nat,
{
    let ghost uv = field_views_of(vs@);
    let ghost ev = entry_views_of(entries@);
    proof {
        lemma_field_views_of(vs@);
        lemma_entry_views_of(entries@);
    }
    if entries.len() != 1 {
        return Err(here_error(EncodeReason::KindMismatch));
    }
    let name = &entries[0].0;
    proof {
        assert(ev[0] == (entries@[0].0@, entries@[0].1@));
    }
    match field_find(vs, name) {
        Some(i) => {
            proof {
                lemma_wf_fields_index(uv, i as int);
                assert(uv[i as int] == (vs@[i as int].0@, vs@[i as int].1@));
                assert(decreases_to!(vs@ => vs@[i as int]));
            }
            match encode_value(&entries[0].1, &vs[i].1) {
                Ok(piece) => {
                    let mut out: Vec<u8> = vec![i as u8];
                    let mut piece = piece;
                    out.append(&mut piece);
                    proof {
                        assert(uv.len() <= 256);
                        assert(out@ =~= enc(ValueV::Object(ev), LayoutV::Union(uv)));
                    }
                    Ok(out)
                },
                Err(e) => {
                    let e2 = nest_error(PathSeg::Field(copy_chars(name)), e);
                    proof {
                        let p = path_views_of(e2.path@);
                        assert(p[0] == PathSegV::Field(name@));
                        assert(p.drop_first() =~= path_views_of(e.path@));
                        assert(fault(
                            ValueV::Object(ev),
                            LayoutV::Union(uv),
                            p,
                            e2.reason,
                        ));
                    }
                    Err(e2)
                },
            }
        },
        None => Err(here_error(EncodeReason::UnknownVariant)),
    }
}

/// Encodes a structured value under a layout.  Succeeds exactly on the
/// encodable values and then yields the layout's wire bytes; otherwise the
/// error names a nested location where the value fails the layout, and
/// why.
pub fn encode_value(v: &StructuredValue, l: &TypeLayout) -> (r: Result<Vec<u8>, EncodeError>)
    requires
        wf_layout(l@),
    ensures
        match r {
            Ok(out) => encodable(v@, l@) && out@ == enc(v@, l@),
            Err(e) => !encodable(v@, l@) && fault(v@, l@, path_views_of(e.path@), e.reason),
        },
    decreases *l, 0nat, 0nat,
{
    match l {
        TypeLayout::Bool => encode_bool(v),
        TypeLayout::UInt(w) => encode_uint(v, *w),
        TypeLayout::FixedBytes(n) => encode_fixed_bytes(v, *n),
        TypeLayout::VarBytes(w) => encode_var_bytes(v, *w),
        TypeLayout::Text(w) => encode_text(v, *w),
        TypeLayout::List(w, el) => match v {
            StructuredValue::Array(items) => {
                proof {
                    assert(decreases_to!(*l => **el));
                }
                encode_list(items, *w, el)
            },
            _ => Err(here_error(EncodeReason::KindMismatch)),
        },
        TypeLayout::Optional(el) => match v {
            StructuredValue::Null => Ok(vec![0u8]),
            _ => {
                proof {
                    assert(decreases_to!(*l => **el));
                }
                match encode_value(v, el) {
                    Ok(inner) => {
                        let mut out: Vec<u8> = vec![1u8];
                        let mut inner = inner;
                        out.append(&mut inner);
                        proof {
                            assert(out@ =~= enc(v@, l@));
                        }
                        Ok(out)
                    },
                    Err(e) => Err(e),
                }
            },
        },
        TypeLayout::Struct(fs) => match v {
            StructuredValue::Object(entries) => {
                proof {
                    assert(decreases_to!(*l => fs@));
                }
                encode_struct_fields(entries, fs)
            },
            _ => Err(here_error(EncodeReason::KindMismatch)),
        },
        TypeLayout::Union(vs) => match v {
            StructuredValue::Object(entries) => {
                proof {
                    assert(decreases_to!(*l => vs@));
                }
                encode_union(entries, vs)
            },
            _ => Err(here_error(EncodeReason::KindMismatch)),
        },
    }
}

} // verus!
