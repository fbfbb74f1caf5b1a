//! The mathematical meaning of the value codec: which values fit a layout,
//! what their wire bytes are, and what any byte string decodes to.

use crate::hex::{hex_chars_of, is_hex_seq};
use crate::layout::LayoutV;
use crate::values::ValueV;
use crate::wire::{le_bytes_of, le_value_of, pow256};
use vstd::prelude::*;
use vstd::utf8::{decode_utf8, encode_utf8, valid_utf8};

verus! {

/// Why encoding rejected a value.
#[derive(Clone, Copy, Debug, PartialEq, Eq, Structural)]
pub enum EncodeReason {
    /// The value's JSON kind does not match the layout's expected kind.
    KindMismatch,
    /// A number does not fit the declared integer width.
    OutOfRange,
    /// A sequence, text or byte string exceeds the declared length prefix.
    TooLong,
    /// A field the layout requires is absent from the object.
    MissingField,
    /// A union value's single key names no declared variant.
    UnknownVariant,
    /// A byte string is not well-formed lowercase hex text.
    BadHex,
    /// A fixed-size byte string has the wrong length.
    BadLength,
}

/// One step of the path from the root value to a nested location.
#[derive(Debug, PartialEq, Eq)]
pub enum PathSeg {
    Field(Vec<char>),
    Index(usize),
}

/// The model of a path step.
#[verifier::ext_equal]
pub enum PathSegV {
    Field(Seq<char>),
    Index(int),
}

impl View for PathSeg {
    type V = PathSegV;

    open spec fn view(&self) -> PathSegV {
        match self {
            PathSeg::Field(name) => PathSegV::Field(name@),
            PathSeg::Index(i) => PathSegV::Index(*i as int),
        }
    }
}

/// An encoding failure: the nested location that failed, and why.
#[derive(Debug, PartialEq, Eq)]
pub struct EncodeError {
    pub path: Vec<PathSeg>,
    pub reason: EncodeReason,
}

/// Models of path steps, in order.
pub open spec fn path_views_of(s: Seq<PathSeg>) -> Seq<PathSegV>
    decreases s,
{
    if s.len() == 0 {
        Seq::empty()
    } else {
        seq![s[0]@] + path_views_of(s.drop_first())
    }
}

/// Why decoding rejected a byte string.
#[derive(Clone, Copy, Debug, PartialEq, Eq, Structural)]
pub enum DecodeError {
    /// The buffer is shorter than the layout requires.
    Truncated,
    /// A union tag byte matches no declared variant.
    InvalidTag,
    /// A boolean or presence byte is neither `0` nor `1`.
    InvalidBool,
    /// Text bytes are not valid UTF-8.
    InvalidUtf8,
    /// Bytes remain after a whole-buffer decode.
    TrailingBytes,
}

/// The first value of an object entry list under a key, if any.
pub open spec fn obj_get(entries: Seq<(Seq<char>, ValueV)>, name: Seq<char>) -> Option<ValueV>
    decreases entries,
{
    if entries.len() == 0 {
        None
    } else if entries[0].0 == name {
        Some(entries[0].1)
    } else {
        obj_get(entries.drop_first(), name)
    }
}

/// The index of the first variant under a name, if any.
pub open spec fn variant_index(vs: Seq<(Seq<char>, LayoutV)>, name: Seq<char>) -> Option<int>
    decreases vs,
{
    if vs.len() == 0 {
        None
    } else if vs[0].0 == name {
        Some(0)
    } else {
        match variant_index(vs.drop_first(), name) {
            Some(i) => Some(i + 1),
            None => None,
        }
    }
}

pub proof fn lemma_variant_index(vs: Seq<(Seq<char>, LayoutV)>, name: Seq<char>)
    ensures
        match variant_index(vs, name) {
            Some(i) => 0 <= i < vs.len() && vs[i].0 == name && (forall|j: int|
                0 <= j < i ==> (#[trigger] vs[j].0) != name),
            None => forall|j: int| 0 <= j < vs.len() ==> (#[trigger] vs[j].0) != name,
        },
    decreases vs,
{
    if vs.len() > 0 && vs[0].0 != name {
        lemma_variant_index(vs.drop_first(), name);
        match variant_index(vs, name) {
            Some(i) => {
                assert(variant_index(vs.drop_first(), name) == Some(i - 1));
                assert(vs.drop_first()[i - 1] == vs[i]);
                assert forall|j: int| 0 <= j < i implies (#[trigger] vs[j].0) != name by {
                    if j >= 1 {
                        assert(vs.drop_first()[j - 1] == vs[j]);
                    }
                }
            },
            None => {
                assert forall|j: int| 0 <= j < vs.len() implies (#[trigger] vs[j].0) != name by {
                    if j >= 1 {
                        assert(vs.drop_first()[j - 1] == vs[j]);
                    }
                }
            },
        }
    }
}

/// True when encoding the value under the layout succeeds.
pub open spec fn encodable(v: ValueV, l: LayoutV) -> bool
    decreases l, 0nat,
{
    match l {
        LayoutV::Bool => v is Bool,
        LayoutV::UInt(w) => v matches ValueV::Number(n) && n < pow256(w),
        LayoutV::FixedBytes(n) => v matches ValueV::Text(s) && s.len() == 2 * n && is_hex_seq(s),
        LayoutV::VarBytes(w) => v matches ValueV::Text(s) && s.len() % 2 == 0 && is_hex_seq(s)
            && s.len() / 2 < pow256(w),
        LayoutV::Text(w) => v matches ValueV::Text(s) && encode_utf8(s).len() < pow256(w),
        LayoutV::List(w, el) => v matches ValueV::Array(items) && items.len() < pow256(w)
            && list_encodable(items, *el),
        LayoutV::Optional(el) => v is Null || encodable(v, *el),
        LayoutV::Struct(fs) => v matches ValueV::Object(entries) && fields_encodable(entries, fs),
        LayoutV::Union(vs) => v matches ValueV::Object(entries) && entries.len() == 1
            && (match variant_index(vs, entries[0].0) {
                Some(i) => 0 <= i < vs.len() && i < 256 && encodable(entries[0].1, vs[i].1),
                None => false,
            }),
    }
}

/// True when every element can be encoded under the element layout.
pub open spec fn list_encodable(items: Seq<ValueV>, el: LayoutV) -> bool
    decreases el, items.len() + 1,
{
    if items.len() == 0 {
        true
    } else {
        encodable(items[0], el) && list_encodable(items.drop_first(), el)
    }
}

/// True when the object holds an encodable value for every field of the
/// layout, found by name.
pub open spec fn fields_encodable(entries: Seq<(Seq<char>, ValueV)>, fs: Seq<(Seq<char>, LayoutV)>) -> bool
    decreases fs, 0nat,
{
    if fs.len() == 0 {
        true
    } else {
        (match obj_get(entries, fs[0].0) {
            Some(sub) => encodable(sub, fs[0].1),
            None => false,
        }) && fields_encodable(entries, fs.drop_first())
    }
}

/// The wire bytes of a value under a layout; meaningful when the value is
/// encodable.
pub open spec fn enc(v: ValueV, l: LayoutV) -> Seq<u8>
    decreases l, 0nat,
{
    match l {
        LayoutV::Bool => match v {
            ValueV::Bool(b) => seq![if b { 1u8 } else { 0u8 }],
            _ => Seq::empty(),
        },
        LayoutV::UInt(w) => match v {
            ValueV::Number(n) => le_bytes_of(n, w),
            _ => Seq::empty(),
        },
        LayoutV::FixedBytes(_) => match v {
            ValueV::Text(s) => crate::hex::hex_bytes_of(s),
            _ => Seq::empty(),
        },
        LayoutV::VarBytes(w) => match v {
            ValueV::Text(s) => le_bytes_of(s.len() / 2, w) + crate::hex::hex_bytes_of(s),
            _ => Seq::empty(),
        },
        LayoutV::Text(w) => match v {
            ValueV::Text(s) => le_bytes_of(encode_utf8(s).len(), w) + encode_utf8(s),
            _ => Seq::empty(),
        },
        LayoutV::List(w, el) => match v {
            ValueV::Array(items) => le_bytes_of(items.len(), w) + enc_list(items, *el),
            _ => Seq::empty(),
        },
        LayoutV::Optional(el) => if v is Null {
            seq![0u8]
        } else {
            seq![1u8] + enc(v, *el)
        },
        LayoutV::Struct(fs) => match v {
            ValueV::Object(entries) => enc_fields(entries, fs),
            _ => Seq::empty(),
        },
        LayoutV::Union(vs) => match v {
            ValueV::Object(entries) => if entries.len() == 1 {
                match variant_index(vs, entries[0].0) {
                    Some(i) => if 0 <= i < vs.len() {
                        seq![i as u8] + enc(entries[0].1, vs[i].1)
                    } else {
                        Seq::empty()
                    },
                    None => Seq::empty(),
                }
            } else {
                Seq::empty()
            },
            _ => Seq::empty(),
        },
    }
}

/// The concatenated wire bytes of the elements.
pub open spec fn enc_list(items: Seq<ValueV>, el: LayoutV) -> Seq<u8>
    decreases el, items.len() + 1,
{
    if items.len() == 0 {
        Seq::empty()
    } else {
        enc(items[0], el) + enc_list(items.drop_first(), el)
    }
}

/// The concatenated wire bytes of the fields, in layout order, each taken
/// from the object by name.
pub open spec fn enc_fields(entries: Seq<(Seq<char>, ValueV)>, fs: Seq<(Seq<char>, LayoutV)>) -> Seq<u8>
    decreases fs, 0nat,
{
    if fs.len() == 0 {
        Seq::empty()
    } else {
        (match obj_get(entries, fs[0].0) {
            Some(sub) => enc(sub, fs[0].1),
            None => Seq::empty(),
        }) + enc_fields(entries, fs.drop_first())
    }
}

/// What a decode attempt yields: a value and the bytes consumed, or a
/// failure.
#[verifier::ext_equal]
pub enum DecR {
    Value(ValueV, nat),
    Fail(DecodeError),
}

/// What decoding a run of equally-shaped elements yields.
#[verifier::ext_equal]
pub enum DecSeqR {
    Value(Seq<ValueV>, nat),
    Fail(DecodeError),
}

/// What decoding a run of named fields yields.
#[verifier::ext_equal]
pub enum DecFieldsR {
    Value(Seq<(Seq<char>, ValueV)>, nat),
    Fail(DecodeError),
}

/// The value a byte string's prefix decodes to under a layout, with the
/// bytes consumed, or the failure decoding runs into.
pub open spec fn dec(data: Seq<u8>, l: LayoutV) -> DecR
    decreases l, 0nat,
{
    match l {
        LayoutV::Bool => if data.len() < 1 {
            DecR::Fail(DecodeError::Truncated)
        } else if data[0] == 0 {
            DecR::Value(ValueV::Bool(false), 1)
        } else if data[0] == 1 {
            DecR::Value(ValueV::Bool(true), 1)
        } else {
            DecR::Fail(DecodeError::InvalidBool)
        },
        LayoutV::UInt(w) => if data.len() < w {
            DecR::Fail(DecodeError::Truncated)
        } else {
            DecR::Value(ValueV::Number(le_value_of(data.take(w as int))), w)
        },
        LayoutV::FixedBytes(n) => if data.len() < n {
            DecR::Fail(DecodeError::Truncated)
        } else {
            DecR::Value(ValueV::Text(hex_chars_of(data.take(n as int))), n)
        },
        LayoutV::VarBytes(w) => if data.len() < w {
            DecR::Fail(DecodeError::Truncated)
        } else {
            let k = le_value_of(data.take(w as int));
            if data.len() < w + k {
                DecR::Fail(DecodeError::Truncated)
            } else {
                DecR::Value(
                    ValueV::Text(hex_chars_of(data.subrange(w as int, (w + k) as int))),
                    w + k,
                )
            }
        },
        LayoutV::Text(w) => if data.len() < w {
            DecR::Fail(DecodeError::Truncated)
        } else {
            let k = le_value_of(data.take(w as int));
            if data.len() < w + k {
                DecR::Fail(DecodeError::Truncated)
            } else {
                let chunk = data.subrange(w as int, (w + k) as int);
                if valid_utf8(chunk) {
                    DecR::Value(ValueV::Text(decode_utf8(chunk)), w + k)
                } else {
                    DecR::Fail(DecodeError::InvalidUtf8)
                }
            }
        },
        LayoutV::List(w, el) => if data.len() < w {
            DecR::Fail(DecodeError::Truncated)
        } else {
            let k = le_value_of(data.take(w as int));
            match dec_list(data.skip(w as int), *el, k) {
                DecSeqR::Value(items, n) => DecR::Value(ValueV::Array(items), w + n),
                DecSeqR::Fail(e) => DecR::Fail(e),
            }
        },
        LayoutV::Optional(el) => if data.len() < 1 {
            DecR::Fail(DecodeError::Truncated)
        } else if data[0] == 0 {
            DecR::Value(ValueV::Null, 1)
        } else if data[0] == 1 {
            match dec(data.skip(1), *el) {
                DecR::Value(v, n) => DecR::Value(v, n + 1),
                DecR::Fail(e) => DecR::Fail(e),
            }
        } else {
            DecR::Fail(DecodeError::InvalidBool)
        },
        LayoutV::Struct(fs) => match dec_fields(data, fs) {
            DecFieldsR::Value(entries, n) => DecR::Value(ValueV::Object(entries), n),
            DecFieldsR::Fail(e) => DecR::Fail(e),
        },
        LayoutV::Union(vs) => if data.len() < 1 {
            DecR::Fail(DecodeError::Truncated)
        } else if data[0] < vs.len() {
            match dec(data.skip(1), vs[data[0] as int].1) {
                DecR::Value(v, n) => DecR::Value(
                    ValueV::Object(seq![(vs[data[0] as int].0, v)]),
                    n + 1,
                ),
                DecR::Fail(e) => DecR::Fail(e),
            }
        } else {
            DecR::Fail(DecodeError::InvalidTag)
        },
    }
}

/// Decodes `k` consecutive elements of one shape.
pub open spec fn dec_list(data: Seq<u8>, el: LayoutV, k: nat) -> DecSeqR
    decreases el, k + 1,
{
    if k == 0 {
        DecSeqR::Value(Seq::empty(), 0)
    } else {
        match dec(data, el) {
            DecR::Value(v, n) => match dec_list(data.skip(n as int), el, (k - 1) as nat) {
                DecSeqR::Value(items, m) => DecSeqR::Value(seq![v] + items, n + m),
                DecSeqR::Fail(e) => DecSeqR::Fail(e),
            },
            DecR::Fail(e) => DecSeqR::Fail(e),
        }
    }
}

/// Decodes the fields of a struct, in layout order, under the layout's
/// names.
pub open spec fn dec_fields(data: Seq<u8>, fs: Seq<(Seq<char>, LayoutV)>) -> DecFieldsR
    decreases fs, 0nat,
{
    if fs.len() == 0 {
        DecFieldsR::Value(Seq::empty(), 0)
    } else {
        match dec(data, fs[0].1) {
            DecR::Value(v, n) => match dec_fields(data.skip(n as int), fs.drop_first()) {
                DecFieldsR::Value(entries, m) => DecFieldsR::Value(
                    seq![(fs[0].0, v)] + entries,
                    n + m,
                ),
                DecFieldsR::Fail(e) => DecFieldsR::Fail(e),
            },
            DecR::Fail(e) => DecFieldsR::Fail(e),
        }
    }
}

/// True when the value conforms to the layout in canonical form: besides
/// being encodable, its objects carry exactly the layout's field names in
/// layout order. Decoded values are canonical, and canonical values round
/// trip.
pub open spec fn conforms(v: ValueV, l: LayoutV) -> bool
    decreases l, 0nat,
{
    match l {
        LayoutV::Bool => v is Bool,
        LayoutV::UInt(w) => v matches ValueV::Number(n) && n < pow256(w),
        LayoutV::FixedBytes(n) => v matches ValueV::Text(s) && s.len() == 2 * n && is_hex_seq(s),
        LayoutV::VarBytes(w) => v matches ValueV::Text(s) && s.len() % 2 == 0 && is_hex_seq(s)
            && s.len() / 2 < pow256(w),
        LayoutV::Text(w) => v matches ValueV::Text(s) && encode_utf8(s).len() < pow256(w),
        LayoutV::List(w, el) => v matches ValueV::Array(items) && items.len() < pow256(w)
            && list_conforms(items, *el),
        LayoutV::Optional(el) => v is Null || (!(v is Null) && conforms(v, *el)),
        LayoutV::Struct(fs) => v matches ValueV::Object(entries) && entries.len() == fs.len()
            && fields_conform(entries, fs),
        LayoutV::Union(vs) => v matches ValueV::Object(entries) && entries.len() == 1
            && (match variant_index(vs, entries[0].0) {
                Some(i) => 0 <= i < vs.len() && i < 256 && conforms(entries[0].1, vs[i].1),
                None => false,
            }),
    }
}

/// Every element conforms to the element layout.
pub open spec fn list_conforms(items: Seq<ValueV>, el: LayoutV) -> bool
    decreases el, items.len() + 1,
{
    if items.len() == 0 {
        true
    } else {
        conforms(items[0], el) && list_conforms(items.drop_first(), el)
    }
}

/// The entries carry exactly the layout's names, in layout order, with
/// conforming values.
pub open spec fn fields_conform(entries: Seq<(Seq<char>, ValueV)>, fs: Seq<(Seq<char>, LayoutV)>) -> bool
    decreases fs, 0nat,
{
    if fs.len() == 0 {
        entries.len() == 0
    } else {
        entries.len() == fs.len() && entries[0].0 == fs[0].0 && conforms(entries[0].1, fs[0].1)
            && fields_conform(entries.drop_first(), fs.drop_first())
    }
}

/// True when following the path from the root leads to a location where
/// the value locally fails the layout for the given reason.  An encoding
/// error always names such a location.
pub open spec fn fault(v: ValueV, l: LayoutV, path: Seq<PathSegV>, reason: EncodeReason) -> bool
    decreases path.len(), l,
{
    match l {
        LayoutV::Optional(el) => !(v is Null) && fault(v, *el, path, reason),
        _ => if path.len() == 0 {
            local_fault(v, l, reason)
        } else {
            match path[0] {
                PathSegV::Field(name) => match l {
                    LayoutV::Struct(fs) => v matches ValueV::Object(entries) && (
                    match variant_index(fs, name) {
                        Some(i) => match obj_get(entries, name) {
                            Some(sub) => fault(sub, fs[i].1, path.drop_first(), reason),
                            None => path.len() == 1 && reason == EncodeReason::MissingField,
                        },
                        None => false,
                    }),
                    LayoutV::Union(vs) => v matches ValueV::Object(entries) && entries.len() == 1
                        && entries[0].0 == name && (match variant_index(vs, name) {
                        Some(i) => fault(entries[0].1, vs[i].1, path.drop_first(), reason),
                        None => false,
                    }),
                    _ => false,
                },
                PathSegV::Index(i) => match l {
                    LayoutV::List(_, el) => v matches ValueV::Array(items) && 0 <= i < items.len()
                        && fault(items[i], *el, path.drop_first(), reason),
                    _ => false,
                },
            }
        },
    }
}

/// A local failure of a value against a layout, at the location itself.
pub open spec fn local_fault(v: ValueV, l: LayoutV, reason: EncodeReason) -> bool {
    match l {
        LayoutV::Bool => reason == EncodeReason::KindMismatch && !(v is Bool),
        LayoutV::UInt(w) => {
            ||| (reason == EncodeReason::KindMismatch && !(v is Number))
            ||| {
                &&& reason == EncodeReason::OutOfRange
                &&& v matches ValueV::Number(n)
                &&& n >= pow256(w)
            }
        },
        LayoutV::FixedBytes(n) => {
            ||| (reason == EncodeReason::KindMismatch && !(v is Text))
            ||| {
                &&& v matches ValueV::Text(s)
                &&& {
                    ||| (reason == EncodeReason::BadLength && s.len() != 2 * n)
                    ||| (reason == EncodeReason::BadHex && !is_hex_seq(s))
                }
            }
        },
        LayoutV::VarBytes(w) => {
            ||| (reason == EncodeReason::KindMismatch && !(v is Text))
            ||| {
                &&& v matches ValueV::Text(s)
                &&& {
                    ||| (reason == EncodeReason::BadHex && !(s.len() % 2 == 0 && is_hex_seq(s)))
                    ||| (reason == EncodeReason::TooLong && s.len() / 2 >= pow256(w))
                }
            }
        },
        LayoutV::Text(w) => {
            ||| (reason == EncodeReason::KindMismatch && !(v is Text))
            ||| {
                &&& reason == EncodeReason::TooLong
                &&& v matches ValueV::Text(s)
                &&& encode_utf8(s).len() >= pow256(w)
            }
        },
        LayoutV::List(w, _) => {
            ||| (reason == EncodeReason::KindMismatch && !(v is Array))
            ||| {
                &&& reason == EncodeReason::TooLong
                &&& v matches ValueV::Array(items)
                &&& items.len() >= pow256(w)
            }
        },
        LayoutV::Optional(_) => false,
        LayoutV::Struct(_) => reason == EncodeReason::KindMismatch && !(v is Object),
        LayoutV::Union(vs) => {
            ||| {
                &&& reason == EncodeReason::KindMismatch
                &&& !match v {
                    ValueV::Object(entries) => entries.len() == 1,
                    _ => false,
                }
            }
            ||| {
                &&& reason == EncodeReason::UnknownVariant
                &&& v matches ValueV::Object(entries)
                &&& entries.len() == 1
                &&& variant_index(vs, entries[0].0) is None
            }
        },
    }
}

} // verus!
